//! The execution registry: which task ids have a live child process, and the
//! cancellation decision.
//!
//! The embedding program owns the real process handles; the registry tracks
//! one entry per in-flight execution, keyed by task id and carrying the OS
//! process id used to address the child. An entry is created right after a
//! successful spawn and removed only by the runner's own finalize step —
//! stopping a task merely says which process to terminate, the polled exit
//! check then observes completion.

use vstd::prelude::*;

verus! {

/// One in-flight execution: the task id and the OS process id of its child.
pub struct RunEntry {
    pub id: String,
    pub pid: u64,
}

/// The process id recorded under the given task id, if any (first entry when
/// several match; a well-formed registry has at most one).
pub open spec fn reg_lookup(s: Seq<(Seq<char>, u64)>, id: Seq<char>) -> Option<u64>
    decreases s.len(),
{
    if s.len() == 0 {
        None
    } else if s[0].0 == id {
        Some(s[0].1)
    } else {
        reg_lookup(s.skip(1), id)
    }
}

/// What deregistering leaves: the entries whose id differs, in order.
pub open spec fn reg_without(s: Seq<(Seq<char>, u64)>, id: Seq<char>) -> Seq<(Seq<char>, u64)>
    decreases s.len(),
{
    if s.len() == 0 {
        Seq::empty()
    } else if s[0].0 == id {
        reg_without(s.skip(1), id)
    } else {
        seq![s[0]] + reg_without(s.skip(1), id)
    }
}

/// The lookup misses exactly when no entry holds the id.
pub proof fn lemma_lookup_none(s: Seq<(Seq<char>, u64)>, id: Seq<char>)
    ensures
        reg_lookup(s, id) is None <==> forall|i: int| 0 <= i < s.len() ==> (#[trigger] s[i]).0 != id,
    decreases s.len(),
{
    if s.len() == 0 {
    } else if s[0].0 == id {
        assert(!(forall|i: int| 0 <= i < s.len() ==> (#[trigger] s[i]).0 != id)) by {
            assert(0 <= 0 < s.len() && (s[0]).0 == id);
        }
    } else {
        lemma_lookup_none(s.skip(1), id);
        assert(forall|i: int| 0 <= i < s.skip(1).len() ==> #[trigger] s.skip(1)[i] == s[i + 1]);
        if reg_lookup(s, id) is None {
            assert forall|i: int| 0 <= i < s.len() implies (#[trigger] s[i]).0 != id by {
                if i > 0 {
                    assert(s[i] == s.skip(1)[i - 1]);
                }
            }
        } else {
            let w = choose|i: int| 0 <= i < s.skip(1).len() && (#[trigger] s.skip(1)[i]).0 == id;
            assert((s[w + 1]).0 == id);
        }
    }
}

/// Registry of live executions, keyed by task id.
pub struct ExecRegistry {
    entries: Vec<RunEntry>,
}

impl View for ExecRegistry {
    type V = Seq<(Seq<char>, u64)>;

    closed spec fn view(&self) -> Seq<(Seq<char>, u64)> {
        self.entries@.map_values(|e: RunEntry| (e.id@, e.pid))
    }
}

impl ExecRegistry {
    /// At most one entry per task id.
    pub open spec fn wf(&self) -> bool {
        forall|i: int, j: int|
            0 <= i < j < self@.len() ==> (#[trigger] self@[i]).0 != (#[trigger] self@[j]).0
    }

    pub fn new() -> (r: ExecRegistry)
        ensures
            r@ == Seq::<(Seq<char>, u64)>::empty(),
            r.wf(),
    {
        let r = ExecRegistry { entries: Vec::new() };
        proof {
            assert(r@ =~= Seq::<(Seq<char>, u64)>::empty());
        }
        r
    }

    /// Records a freshly spawned child under its task id; the caller checks
    /// first that the id is not registered (the runner's spawn step is the
    /// only writer for its id, so the check cannot race with another entry
    /// appearing).
    pub fn register(&mut self, id: String, pid: u64)
        requires
            old(self).wf(),
            reg_lookup(old(self)@, id@) is None,
        ensures
            final(self).wf(),
            final(self)@ == old(self)@.push((id@, pid)),
    {
        proof {
            lemma_lookup_none(old(self)@, id@);
        }
        self.entries.push(RunEntry { id, pid });
        proof {
            assert(final(self)@ =~= old(self)@.push((final(self)@[old(self)@.len() as int].0, pid)));
        }
    }

    /// The process id registered under the id, if any.
    pub fn lookup(&self, id: &String) -> (r: Option<u64>)
        ensures
            r == reg_lookup(self@, id@),
    {
        let mut i: usize = 0;
        proof {
            assert(self@.skip(0) =~= self@);
        }
        while i < self.entries.len()
            invariant
                i <= self@.len(),
                self@.len() == self.entries@.len(),
                reg_lookup(self@, id@) == reg_lookup(self@.skip(i as int), id@),
            decreases self@.len() - i,
        {
            proof {
                assert(self@.skip(i as int)[0] == self@[i as int]);
                assert(self@.skip(i as int).skip(1) =~= self@.skip(i as int + 1));
            }
            if self.entries[i].id == *id {
                return Some(self.entries[i].pid);
            }
            i += 1;
        }
        proof {
            assert(self@.skip(i as int) =~= Seq::<(Seq<char>, u64)>::empty());
        }
        None
    }

    /// The cancellation decision: the process to terminate, or `None` when
    /// the task has no live execution — stopping is then a successful no-op,
    /// and a shared borrow cannot have touched the registry.
    pub fn stop_target(&self, id: &String) -> (r: Option<u64>)
        ensures
            r == reg_lookup(self@, id@),
            r is None <==> (forall|i: int| 0 <= i < self@.len() ==> (#[trigger] self@[i]).0 != id@),
    {
        proof {
            lemma_lookup_none(self@, id@);
        }
        self.lookup(id)
    }

    /// The runner's finalize step: drops the entry for the id (all of them,
    /// were the registry ever malformed).
    pub fn deregister(&mut self, id: &String)
        ensures
            final(self)@ == reg_without(old(self)@, id@),
            old(self).wf() ==> final(self).wf(),
    {
        let mut i: usize = self.entries.len();
        proof {
            assert(old(self)@.skip(i as int) =~= Seq::<(Seq<char>, u64)>::empty());
            assert(self@ =~= old(self)@.take(i as int) + reg_without(
                old(self)@.skip(i as int),
                id@,
            ));
        }
        while i > 0
            invariant
                i <= old(self)@.len(),
                self@.len() == self.entries@.len(),
                self@ == old(self)@.take(i as int) + reg_without(old(self)@.skip(i as int), id@),
            decreases i,
        {
            i -= 1;
            proof {
                assert(old(self)@.skip(i as int).skip(1) =~= old(self)@.skip(i as int + 1));
                assert(old(self)@.skip(i as int)[0] == old(self)@[i as int]);
                assert(old(self)@.take(i as int + 1) =~= old(self)@.take(i as int) + seq![
                    old(self)@[i as int],
                ]);
                assert(self@[i as int] == old(self)@[i as int]);
            }
            let ghost prev = self@;
            if self.entries[i].id == *id {
                self.entries.remove(i);
                proof {
                    assert(self@ =~= prev.remove(i as int));
                }
            }
            proof {
                assert(self@ =~= old(self)@.take(i as int) + reg_without(
                    old(self)@.skip(i as int),
                    id@,
                ));
            }
        }
        proof {
            assert(old(self)@.skip(0) =~= old(self)@);
            assert(self@ =~= reg_without(old(self)@, id@));
            if old(self).wf() {
                lemma_without_keeps(old(self)@, id@);
            }
        }
    }
}

/// Removing an id keeps every remaining pair, in particular distinctness.
proof fn lemma_without_keeps(s: Seq<(Seq<char>, u64)>, id: Seq<char>)
    ensures
        forall|i: int|
            0 <= i < reg_without(s, id).len() ==> exists|j: int|
                0 <= j < s.len() && #[trigger] reg_without(s, id)[i] == s[j],
        reg_without(s, id).len() <= s.len(),
        (forall|i: int, j: int| 0 <= i < j < s.len() ==> (#[trigger] s[i]).0 != (#[trigger] s[j]).0)
            ==> (forall|i: int, j: int|
            0 <= i < j < reg_without(s, id).len() ==> (#[trigger] reg_without(s, id)[i]).0 != (
            #[trigger] reg_without(s, id)[j]).0),
    decreases s.len(),
{
    if s.len() > 0 {
        lemma_without_keeps(s.skip(1), id);
        assert(forall|i: int| 0 <= i < s.skip(1).len() ==> #[trigger] s.skip(1)[i] == s[i + 1]);
    }
}

} // verus!
