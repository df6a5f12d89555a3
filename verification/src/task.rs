//! The task record, its mathematical view, and the status sentinels.

use vstd::prelude::*;

verus! {

/// A scheduled unit of work, as kept in the task store and persisted to disk.
///
/// `id` is assigned on insertion and never changed afterwards. An empty or
/// unparsable `cron_expr` means the clock never triggers the task; a manual
/// run still works. `last_run` holds the RFC 3339 timestamp of the last
/// trigger, `last_result` the status text of the last execution.
#[derive(Debug)]
pub struct Task {
    pub id: String,
    pub name: String,
    pub cron_expr: String,
    pub command: String,
    pub enabled: bool,
    pub last_run: Option<String>,
    pub last_result: Option<String>,
}

/// The value of a task: each text field as its character sequence.
#[verifier::ext_equal]
pub struct TaskView {
    pub id: Seq<char>,
    pub name: Seq<char>,
    pub cron_expr: Seq<char>,
    pub command: Seq<char>,
    pub enabled: bool,
    pub last_run: Option<Seq<char>>,
    pub last_result: Option<Seq<char>>,
}

impl View for Task {
    type V = TaskView;

    open spec fn view(&self) -> TaskView {
        TaskView {
            id: self.id@,
            name: self.name@,
            cron_expr: self.cron_expr@,
            command: self.command@,
            enabled: self.enabled,
            last_run: match self.last_run {
                Some(s) => Some(s@),
                None => None,
            },
            last_result: match self.last_result {
                Some(s) => Some(s@),
                None => None,
            },
        }
    }
}

/// The views of all tasks of a store, in order.
pub open spec fn task_views(s: Seq<Task>) -> Seq<TaskView> {
    s.map_values(|t: Task| t@)
}

/// Status text of a task whose execution is currently in flight.
pub open spec fn running_text() -> Seq<char> {
    "Running..."@
}

/// Status text replacing a running sentinel found at load time: the previous
/// run was interrupted by a process restart.
pub open spec fn interrupted_text() -> Seq<char> {
    "Interrupted"@
}

pub fn running_sentinel() -> (r: String)
    ensures
        r@ == running_text(),
{
    String::from_str("Running...")
}

pub fn interrupted_sentinel() -> (r: String)
    ensures
        r@ == interrupted_text(),
{
    String::from_str("Interrupted")
}

/// The two sentinels differ, so normalization can never loop.
pub proof fn lemma_sentinels_differ()
    ensures
        running_text() != interrupted_text(),
{
    reveal_strlit("Running...");
    reveal_strlit("Interrupted");
    assert(running_text().len() == 10);
    assert(interrupted_text().len() == 11);
}

/// What loading does to one task: a stuck running sentinel becomes the
/// interrupted sentinel; everything else is kept as it is.
pub open spec fn normalized_view(t: TaskView) -> TaskView {
    if t.last_result == Some(running_text()) {
        TaskView { last_result: Some(interrupted_text()), ..t }
    } else {
        t
    }
}

/// Normalizing twice is the same as normalizing once: a freshly loaded store
/// is normalized exactly once, and a second pass changes nothing.
pub proof fn lemma_normalize_idempotent(t: TaskView)
    ensures
        normalized_view(normalized_view(t)) == normalized_view(t),
{
    lemma_sentinels_differ();
}

/// Rewrites every stuck running sentinel to the interrupted sentinel, as the
/// store does right after deserializing the persisted file.
pub fn normalize_loaded(tasks: &mut Vec<Task>)
    ensures
        final(tasks)@.len() == old(tasks)@.len(),
        forall|i: int|
            0 <= i < old(tasks)@.len() ==> #[trigger] final(tasks)@[i]@ == normalized_view(
                old(tasks)@[i]@,
            ),
{
    let n = tasks.len();
    let mut i: usize = 0;
    while i < n
        invariant
            i <= n,
            n == tasks@.len(),
            tasks@.len() == old(tasks)@.len(),
            forall|j: int| 0 <= j < i ==> #[trigger] tasks@[j]@ == normalized_view(old(tasks)@[j]@),
            forall|j: int| i <= j < n ==> #[trigger] tasks@[j] == old(tasks)@[j],
        decreases n - i,
    {
        let stuck = match &tasks[i].last_result {
            Some(s) => {
                let r = running_sentinel();
                *s == r
            },
            None => false,
        };
        if stuck {
            tasks[i].last_result = Some(interrupted_sentinel());
        }
        i += 1;
    }
}

impl Task {
    /// A field-for-field copy; the task store hands out such copies as its
    /// snapshot.
    pub fn duplicate(&self) -> (r: Task)
        ensures
            r@ == self@,
    {
        Task {
            id: self.id.clone(),
            name: self.name.clone(),
            cron_expr: self.cron_expr.clone(),
            command: self.command.clone(),
            enabled: self.enabled,
            last_run: match &self.last_run {
                Some(s) => Some(s.clone()),
                None => None,
            },
            last_result: match &self.last_result {
                Some(s) => Some(s.clone()),
                None => None,
            },
        }
    }
}

/// A copy of the whole store, the snapshot that the task-list command
/// returns.
pub fn get_tasks(tasks: &Vec<Task>) -> (r: Vec<Task>)
    ensures
        task_views(r@) == task_views(tasks@),
{
    let mut out: Vec<Task> = Vec::new();
    let mut i: usize = 0;
    while i < tasks.len()
        invariant
            i <= tasks@.len(),
            out@.len() == i,
            forall|j: int| 0 <= j < i ==> #[trigger] out@[j]@ == tasks@[j]@,
        decreases tasks@.len() - i,
    {
        out.push(tasks[i].duplicate());
        i += 1;
    }
    proof {
        assert(task_views(out@) =~= task_views(tasks@));
    }
    out
}

} // verus!
