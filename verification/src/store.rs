//! The task store: the ordered collection of task records and the ways the
//! dispatcher and the command surface mutate it.
//!
//! The store itself is a `Vec<Task>`; the embedding program keeps it behind a
//! lock and persists it (via `codec`) after every mutation. Replacement and
//! removal go by id; the dispatcher's life-cycle steps (mark running, record
//! the final result, publish partial output) go by id as well and touch only
//! the status fields.

use vstd::prelude::*;

use crate::task::{running_sentinel, running_text, Task, TaskView};

verus! {

/// `i` is the first position holding the given id.
pub open spec fn first_match_at(s: Seq<Task>, id: Seq<char>, i: int) -> bool {
    &&& 0 <= i < s.len()
    &&& s[i]@.id == id
    &&& forall|j: int| 0 <= j < i ==> (#[trigger] s[j])@.id != id
}

/// No record holds the given id.
pub open spec fn no_match(s: Seq<Task>, id: Seq<char>) -> bool {
    forall|j: int| 0 <= j < s.len() ==> (#[trigger] s[j])@.id != id
}

/// The store's standing invariant: no two records share an id.
pub open spec fn ids_unique(s: Seq<Task>) -> bool {
    forall|i: int, j: int| 0 <= i < j < s.len() ==> (#[trigger] s[i])@.id != (#[trigger] s[j])@.id
}

/// Position of the first record with the given id, if any.
fn find_first(tasks: &Vec<Task>, id: &String) -> (r: Option<usize>)
    ensures
        match r {
            Some(i) => first_match_at(tasks@, id@, i as int),
            None => no_match(tasks@, id@),
        },
{
    let mut i: usize = 0;
    while i < tasks.len()
        invariant
            i <= tasks@.len(),
            forall|j: int| 0 <= j < i ==> (#[trigger] tasks@[j])@.id != id@,
        decreases tasks@.len() - i,
    {
        if tasks[i].id == *id {
            return Some(i);
        }
        i += 1;
    }
    None
}

/// Relies on `uuid::Uuid::new_v4` and its `Display` form: a freshly drawn
/// random identifier. Nothing is promised of its value.
#[verifier::external_body]
fn fresh_id() -> String {
    uuid::Uuid::new_v4().to_string()
}

/// Inserts a task: the record is appended under a newly assigned id, drawn
/// afresh until it matches no existing record (a bounded number of draws; the
/// caller is told when no free id was drawn, which a random identifier makes
/// all but impossible — the store is then left untouched). Every other field
/// is taken unchanged from the argument, and distinct ids stay distinct.
pub fn add_task(tasks: &mut Vec<Task>, new_task: Task) -> (r: bool)
    ensures
        !r ==> final(tasks)@ == old(tasks)@,
        r ==> final(tasks)@.len() == old(tasks)@.len() + 1,
        r ==> forall|j: int|
            0 <= j < old(tasks)@.len() ==> final(tasks)@[j] == #[trigger] old(tasks)@[j],
        r ==> final(tasks)@.last()@ == (TaskView { id: final(tasks)@.last()@.id, ..new_task@ }),
        r ==> no_match(old(tasks)@, final(tasks)@.last()@.id),
        r && ids_unique(old(tasks)@) ==> ids_unique(final(tasks)@),
{
    let mut fresh: Option<String> = None;
    let mut attempts: usize = 0;
    while attempts < 16
        invariant
            tasks@ == old(tasks)@,
            fresh matches Some(id) ==> no_match(tasks@, id@),
        decreases 16 - attempts,
    {
        let id = fresh_id();
        if let None = find_first(tasks, &id) {
            fresh = Some(id);
            break ;
        }
        attempts += 1;
    }
    match fresh {
        Some(id) => {
            let mut t = new_task;
            t.id = id;
            tasks.push(t);
            proof {
                if ids_unique(old(tasks)@) {
                    assert forall|a: int, b: int|
                        0 <= a < b < tasks@.len() implies (#[trigger] tasks@[a])@.id != (
                    #[trigger] tasks@[b])@.id by {
                        if b == old(tasks)@.len() {
                            assert(tasks@[a] == old(tasks)@[a]);
                            assert(tasks@[b] == tasks@.last());
                        }
                    }
                }
            }
            true
        },
        None => false,
    }
}

/// Replaces the record whose id matches the argument's, all fields
/// overwritten; a no-op when the id is unknown.
pub fn update_task(tasks: &mut Vec<Task>, task: Task)
    ensures
        no_match(old(tasks)@, task@.id) ==> final(tasks)@ == old(tasks)@,
        (exists|i: int| first_match_at(old(tasks)@, task@.id, i)) ==> (exists|i: int|
            #[trigger] first_match_at(old(tasks)@, task@.id, i) && final(tasks)@ == old(tasks)@.update(i, task)),
        ids_unique(old(tasks)@) ==> ids_unique(final(tasks)@),
{
    let mut i: usize = 0;
    while i < tasks.len()
        invariant
            i <= tasks@.len(),
            tasks@ == old(tasks)@,
            forall|j: int| 0 <= j < i ==> (#[trigger] tasks@[j])@.id != task@.id,
        decreases tasks@.len() - i,
    {
        if tasks[i].id == task.id {
            proof {
                assert(first_match_at(old(tasks)@, task@.id, i as int));
            }
            let ghost replaced = tasks@[i as int];
            tasks[i] = task;
            proof {
                if ids_unique(old(tasks)@) {
                    assert forall|a: int, b: int|
                        0 <= a < b < tasks@.len() implies (#[trigger] tasks@[a])@.id != (
                    #[trigger] tasks@[b])@.id by {
                        assert(tasks@[i as int]@.id == replaced@.id);
                    }
                }
            }
            return ;
        }
        i += 1;
    }
}

/// What deletion leaves: the records whose id differs, in order.
pub open spec fn without_id(s: Seq<Task>, id: Seq<char>) -> Seq<Task>
    decreases s.len(),
{
    if s.len() == 0 {
        Seq::empty()
    } else if s[0]@.id == id {
        without_id(s.skip(1), id)
    } else {
        seq![s[0]] + without_id(s.skip(1), id)
    }
}

/// Removes every record with the given id; a no-op when the id is unknown.
/// (The embedding program persists afterwards whether or not a record
/// matched.)
pub fn delete_task(tasks: &mut Vec<Task>, id: &String)
    ensures
        final(tasks)@ == without_id(old(tasks)@, id@),
        ids_unique(old(tasks)@) ==> ids_unique(final(tasks)@),
{
    proof {
        if ids_unique(old(tasks)@) {
            lemma_without_id_keeps(old(tasks)@, id@);
        }
    }
    let mut i: usize = tasks.len();
    proof {
        assert(old(tasks)@.skip(i as int) =~= Seq::<Task>::empty());
        assert(tasks@ =~= old(tasks)@.take(i as int) + without_id(old(tasks)@.skip(i as int), id@));
    }
    while i > 0
        invariant
            i <= old(tasks)@.len(),
            tasks@ == old(tasks)@.take(i as int) + without_id(old(tasks)@.skip(i as int), id@),
        decreases i,
    {
        i -= 1;
        proof {
            assert(old(tasks)@.skip(i as int).skip(1) =~= old(tasks)@.skip(i as int + 1));
            assert(old(tasks)@.skip(i as int)[0] == old(tasks)@[i as int]);
            assert(old(tasks)@.take(i as int + 1) =~= old(tasks)@.take(i as int) + seq![
                old(tasks)@[i as int],
            ]);
            assert(tasks@[i as int] == old(tasks)@[i as int]);
        }
        if tasks[i].id == *id {
            tasks.remove(i);
        }
        proof {
            assert(tasks@ =~= old(tasks)@.take(i as int) + without_id(
                old(tasks)@.skip(i as int),
                id@,
            ));
        }
    }
    proof {
        assert(old(tasks)@.skip(0) =~= old(tasks)@);
        assert(tasks@ =~= without_id(old(tasks)@, id@));
    }
}

/// The dispatcher's first step: set the running sentinel on the record and
/// hand back its command line; `None` when the id is unknown (the dispatch is
/// then abandoned).
pub fn mark_running(tasks: &mut Vec<Task>, id: &String) -> (r: Option<String>)
    ensures
        match r {
            Some(cmd) => (exists|i: int|
                {
                    &&& #[trigger] first_match_at(old(tasks)@, id@, i)
                    &&& cmd@ == old(tasks)@[i]@.command
                    &&& final(tasks)@.len() == old(tasks)@.len()
                    &&& forall|j: int|
                        0 <= j < old(tasks)@.len() && j != i ==> final(tasks)@[j] == #[trigger] old(tasks)@[j]
                    &&& final(tasks)@[i]@ == (TaskView {
                        last_result: Some(running_text()),
                        ..old(tasks)@[i]@
                    })
                }),
            None => no_match(old(tasks)@, id@) && final(tasks)@ == old(tasks)@,
        },
        ids_unique(old(tasks)@) ==> ids_unique(final(tasks)@),
{
    match find_first(tasks, id) {
        Some(i) => {
            let ghost before = tasks@;
            tasks[i].last_result = Some(running_sentinel());
            proof {
                lemma_same_ids_keep_unique(before, tasks@);
            }
            Some(tasks[i].command.clone())
        },
        None => None,
    }
}

/// The dispatcher's last step: record the trigger time and the final status
/// text on the record; a no-op when the id is unknown (the task was deleted
/// while it ran).
pub fn finalize_task(tasks: &mut Vec<Task>, id: &String, now_rfc3339: &String, outcome: String)
    ensures
        no_match(old(tasks)@, id@) ==> final(tasks)@ == old(tasks)@,
        (exists|i: int| first_match_at(old(tasks)@, id@, i)) ==> (exists|i: int|
            {
                &&& #[trigger] first_match_at(old(tasks)@, id@, i)
                &&& final(tasks)@.len() == old(tasks)@.len()
                &&& forall|j: int|
                    0 <= j < old(tasks)@.len() && j != i ==> final(tasks)@[j] == #[trigger] old(tasks)@[j]
                &&& final(tasks)@[i]@ == (TaskView {
                    last_run: Some(now_rfc3339@),
                    last_result: Some(outcome@),
                    ..old(tasks)@[i]@
                })
            }),
        ids_unique(old(tasks)@) ==> ids_unique(final(tasks)@),
{
    match find_first(tasks, id) {
        Some(i) => {
            let ghost before = tasks@;
            tasks[i].last_run = Some(now_rfc3339.clone());
            tasks[i].last_result = Some(outcome);
            proof {
                lemma_same_ids_keep_unique(before, tasks@);
            }
        },
        None => {},
    }
}

/// Mid-execution publication: every fifth exit poll copies the output read so
/// far into the record, so a reloaded observer sees partial output; nothing
/// else changes and nothing is persisted for it.
pub fn set_partial_result(tasks: &mut Vec<Task>, id: &String, partial: String)
    ensures
        no_match(old(tasks)@, id@) ==> final(tasks)@ == old(tasks)@,
        (exists|i: int| first_match_at(old(tasks)@, id@, i)) ==> (exists|i: int|
            {
                &&& #[trigger] first_match_at(old(tasks)@, id@, i)
                &&& final(tasks)@.len() == old(tasks)@.len()
                &&& forall|j: int|
                    0 <= j < old(tasks)@.len() && j != i ==> final(tasks)@[j] == #[trigger] old(tasks)@[j]
                &&& final(tasks)@[i]@ == (TaskView {
                    last_result: Some(partial@),
                    ..old(tasks)@[i]@
                })
            }),
        ids_unique(old(tasks)@) ==> ids_unique(final(tasks)@),
{
    match find_first(tasks, id) {
        Some(i) => {
            let ghost before = tasks@;
            tasks[i].last_result = Some(partial);
            proof {
                lemma_same_ids_keep_unique(before, tasks@);
            }
        },
        None => {},
    }
}


/// A mutation that leaves every record's id in place keeps the ids pairwise
/// distinct.
proof fn lemma_same_ids_keep_unique(before: Seq<Task>, after: Seq<Task>)
    requires
        before.len() == after.len(),
        forall|j: int| 0 <= j < before.len() ==> (#[trigger] after[j])@.id == (#[trigger] before[j])@.id,
    ensures
        ids_unique(before) ==> ids_unique(after),
{
    if ids_unique(before) {
        assert forall|i: int, j: int| 0 <= i < j < after.len() implies (#[trigger] after[i])@.id
            != (#[trigger] after[j])@.id by {
            assert(after[i]@.id == before[i]@.id);
            assert(after[j]@.id == before[j]@.id);
        }
    }
}

/// Deletion keeps every remaining record as it was, in particular keeps the
/// ids pairwise distinct.
proof fn lemma_without_id_keeps(s: Seq<Task>, id: Seq<char>)
    ensures
        forall|i: int|
            0 <= i < without_id(s, id).len() ==> exists|j: int|
                0 <= j < s.len() && #[trigger] without_id(s, id)[i] == s[j],
        without_id(s, id).len() <= s.len(),
        ids_unique(s) ==> ids_unique(without_id(s, id)),
    decreases s.len(),
{
    if s.len() > 0 {
        lemma_without_id_keeps(s.skip(1), id);
        assert(forall|i: int| 0 <= i < s.skip(1).len() ==> #[trigger] s.skip(1)[i] == s[i + 1]);
    }
}

} // verus!
