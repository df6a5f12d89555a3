//! The trigger clock's decision: which tasks are due at a given tick.
//!
//! The clock itself is a one-second loop owned by the embedding program; it
//! hands the current time (seconds since the Unix epoch) to [`due_task_ids`]
//! and dispatches one execution per returned id. A task is due when an
//! occurrence of its schedule falls in the two-second look-back window ending
//! at the tick, and the debounce check accepts it: the look-back protects a
//! minute-boundary occurrence against sleep drift, the debounce keeps the same
//! occurrence from firing again on the next tick.
//!
//! The schedule search runs through the machine's local time zone, so which
//! occurrence it finds is not a function of the expression and the time
//! alone — in the repeated hour after a daylight-saving fall-back it can even
//! return an instant before the handed-in time — so nothing is promised of
//! its value. The decision made of the returned occurrence, [`is_due`], is
//! verified exactly over plain values.

use vstd::prelude::*;

use crate::task::Task;
use std::str::FromStr;

verus! {

/// Seconds since the Unix epoch denoted by an RFC 3339 timestamp, or `None`
/// when the text is not one.
pub uninterp spec fn rfc3339_sec(s: Seq<char>) -> Option<int>;

/// Relies on `cron::Schedule::from_str` and `Schedule::after(..).next()`: the
/// first matching occurrence after the handed-in time, searched in the
/// machine's local time zone over wall-clock fields. The zone can change
/// under the process, and on an ambiguous wall-clock time (the repeated hour
/// after a daylight-saving fall-back) the earliest instant comes back, which
/// can precede the handed-in time — so nothing is promised of the result.
/// `None` when the expression does not parse or no occurrence exists. The
/// bound on `after_ts` keeps the handed-in time inside chrono's range.
#[verifier::external_body]
fn cron_next_occurrence(expr: &str, after_ts: i64) -> (r: Option<i64>)
    requires
        -8334601228800 < after_ts < 8210266876799,
{
    let schedule = match cron::Schedule::from_str(expr) {
        Ok(s) => s,
        Err(_) => {
            return None;
        },
    };
    let after = match chrono::TimeZone::timestamp_opt(&chrono::Local, after_ts, 0).single() {
        Some(dt) => dt,
        None => {
            return None;
        },
    };
    schedule.after(&after).next().map(|dt| dt.timestamp())
}

/// Relies on `chrono::DateTime::parse_from_rfc3339` and
/// `DateTime::timestamp`: whether the text parses, and the second it denotes,
/// depend on the text alone (the offset comes from the text).
#[verifier::external_body]
fn parse_rfc3339_secs(s: &str) -> (r: Option<i64>)
    ensures
        r is Some <==> rfc3339_sec(s@) is Some,
        r matches Some(t) ==> rfc3339_sec(s@) == Some(t as int),
{
    match chrono::DateTime::parse_from_rfc3339(s) {
        Ok(dt) => Some(dt.timestamp()),
        Err(_) => None,
    }
}

/// The debounce check: a task may fire unless its recorded last trigger time
/// parses and lies at most one second in the past.
pub open spec fn debounce_ok(last_run: Option<Seq<char>>, now: int) -> bool {
    match last_run {
        None => true,
        Some(s) => match rfc3339_sec(s) {
            None => true,
            Some(t) => now - t > 1,
        },
    }
}

/// An optional occurrence, as a mathematical value.
pub open spec fn opt_sec(o: Option<i64>) -> Option<int> {
    match o {
        Some(x) => Some(x as int),
        None => None,
    }
}

/// An optional text field, as its character sequence.
pub open spec fn opt_text(o: Option<String>) -> Option<Seq<char>> {
    match o {
        Some(s) => Some(s@),
        None => None,
    }
}

/// The per-tick decision on one task, over the occurrence the schedule search
/// returned: due when an occurrence exists and is no later than the tick, and
/// the debounce check accepts the recorded trigger time.
pub open spec fn due_decision(occ: Option<int>, now: int, last_run: Option<Seq<char>>) -> bool {
    match occ {
        Some(o) => o <= now && debounce_ok(last_run, now),
        None => false,
    }
}

/// Decides one task from the returned occurrence and the recorded trigger
/// time; exact whatever the schedule search gave back.
pub fn is_due(occ: Option<i64>, now: i64, last_run: &Option<String>) -> (r: bool)
    ensures
        r == due_decision(opt_sec(occ), now as int, opt_text(*last_run)),
{
    match occ {
        Some(o) => {
            if o > now {
                return false;
            }
            match last_run {
                None => true,
                Some(lr) => match parse_rfc3339_secs(lr.as_str()) {
                    None => true,
                    Some(ts) => (now as i128) - (ts as i128) > 1,
                },
            }
        },
        None => false,
    }
}

/// The dispatched ids pick distinct store positions, in order, and every
/// picked record is enabled, has a non-empty expression, and passed the
/// debounce check at the tick.
pub open spec fn picks_due(tasks: Seq<Task>, now: int, ids: Seq<String>, w: Seq<int>) -> bool {
    &&& w.len() == ids.len()
    &&& forall|k: int| 0 <= k < w.len() ==> 0 <= #[trigger] w[k] < tasks.len()
    &&& forall|k1: int, k2: int| 0 <= k1 < k2 < w.len() ==> #[trigger] w[k1] < #[trigger] w[k2]
    &&& forall|k: int|
        0 <= k < w.len() ==> {
            let t = tasks[#[trigger] w[k]]@;
            &&& ids[k]@ == t.id
            &&& t.enabled
            &&& t.cron_expr.len() > 0
            &&& debounce_ok(t.last_run, now)
        }
}

/// One tick of the trigger clock: for every enabled task with a non-empty
/// expression the schedule is searched from two seconds back, and the task is
/// dispatched when [`is_due`] accepts what came back. Whatever the searches
/// returned, each dispatched id names a distinct store record, in store
/// order, that is enabled, scheduled, and past its debounce; its returned
/// occurrence was no later than `now`. The bounds on `now` keep the window
/// inside chrono's range.
pub fn due_task_ids(tasks: &Vec<Task>, now: i64) -> (r: Vec<String>)
    requires
        -8334601228800 < now - 2 && now < 8210266876799,
    ensures
        exists|w: Seq<int>| #[trigger] picks_due(tasks@, now as int, r@, w),
{
    let mut out: Vec<String> = Vec::new();
    let ghost mut w: Seq<int> = Seq::empty();
    let mut i: usize = 0;
    while i < tasks.len()
        invariant
            -8334601228800 < now - 2 && now < 8210266876799,
            i <= tasks@.len(),
            picks_due(tasks@, now as int, out@, w),
            forall|k: int| 0 <= k < w.len() ==> #[trigger] w[k] < i,
        decreases tasks@.len() - i,
    {
        let t = &tasks[i];
        let mut fire = false;
        if t.enabled && !t.cron_expr.as_str().is_empty() {
            let occ = cron_next_occurrence(t.cron_expr.as_str(), now - 2);
            fire = is_due(occ, now, &t.last_run);
        }
        if fire {
            out.push(t.id.clone());
            proof {
                w = w.push(i as int);
                assert(picks_due(tasks@, now as int, out@, w));
            }
        }
        i += 1;
    }
    out
}

/// Debounce suppresses a second dispatch of the same occurrence: once a
/// firing tick `n1` has recorded a trigger time no earlier than `n1`, no tick
/// up to one second later is due for the task again, whatever occurrence its
/// own search returns.
pub proof fn lemma_no_double_dispatch(
    last_run: Option<Seq<char>>,
    occ: Option<int>,
    n1: int,
    n2: int,
    recorded: int,
)
    requires
        last_run matches Some(lr) && rfc3339_sec(lr) == Some(recorded),
        recorded >= n1,
        n2 <= n1 + 1,
    ensures
        !due_decision(occ, n2, last_run),
{
}

/// The other half of single dispatch: ticks two or more seconds apart cannot
/// see the same occurrence, provided the later search's occurrence lies after
/// its look-back start — which holds whenever the local time zone made no
/// backward jump over the search (a daylight-saving fall-back can hand back
/// an earlier instant; the tick then treats it as a fresh occurrence, as the
/// wall clock genuinely passes it again).
pub proof fn lemma_lookback_excludes_old_occurrence(n1: int, n2: int, o1: int, o2: int)
    requires
        o1 <= n1,
        o2 > n2 - 2,
        n2 >= n1 + 2,
    ensures
        o2 > o1,
{
}

} // verus!
