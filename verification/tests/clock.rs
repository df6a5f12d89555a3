use chrono::TimeZone;
use taskclock::clock::due_task_ids;
use taskclock::task::Task;

fn task_with(cron: &str, enabled: bool, last_run: Option<String>) -> Task {
    Task {
        id: "t1".to_string(),
        name: "tick".to_string(),
        cron_expr: cron.to_string(),
        command: "echo".to_string(),
        enabled,
        last_run,
        last_result: None,
    }
}

fn now_secs() -> i64 {
    chrono::Local::now().timestamp()
}

fn rfc3339_of(ts: i64) -> String {
    chrono::Local.timestamp_opt(ts, 0).unwrap().to_rfc3339()
}

#[test]
fn every_second_schedule_is_due() {
    let tasks = vec![task_with("* * * * * *", true, None)];
    let ids = due_task_ids(&tasks, now_secs());
    assert_eq!(ids, vec!["t1".to_string()]);
}

#[test]
fn disabled_task_never_fires() {
    let tasks = vec![task_with("* * * * * *", false, None)];
    assert!(due_task_ids(&tasks, now_secs()).is_empty());
}

#[test]
fn empty_expression_never_fires() {
    let tasks = vec![task_with("", true, None)];
    assert!(due_task_ids(&tasks, now_secs()).is_empty());
}

#[test]
fn unparsable_expression_never_fires() {
    let tasks = vec![task_with("not a schedule", true, None)];
    assert!(due_task_ids(&tasks, now_secs()).is_empty());
}

#[test]
fn fresh_last_run_debounces() {
    let now = now_secs();
    let tasks = vec![task_with("* * * * * *", true, Some(rfc3339_of(now)))];
    assert!(due_task_ids(&tasks, now).is_empty());
}

#[test]
fn stale_last_run_fires_again() {
    let now = now_secs();
    let tasks = vec![task_with("* * * * * *", true, Some(rfc3339_of(now - 3600)))];
    assert_eq!(due_task_ids(&tasks, now), vec!["t1".to_string()]);
}

#[test]
fn unparsable_last_run_does_not_block() {
    let tasks = vec![task_with("* * * * * *", true, Some("yesterday-ish".to_string()))];
    assert_eq!(due_task_ids(&tasks, now_secs()), vec!["t1".to_string()]);
}

#[test]
fn far_future_schedule_not_due() {
    // Fires only at midnight of January 1st; the surrounding two seconds of
    // any test run are almost surely not that moment.
    let tasks = vec![task_with("0 0 0 1 1 * 2090", true, None)];
    assert!(due_task_ids(&tasks, now_secs()).is_empty());
}
