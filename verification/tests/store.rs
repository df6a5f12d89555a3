use taskclock::registry::ExecRegistry;
use taskclock::store::{add_task, delete_task, finalize_task, mark_running, set_partial_result, update_task};
use taskclock::task::{normalize_loaded, running_sentinel, get_tasks, Task};

fn plain(id: &str) -> Task {
    Task {
        id: id.to_string(),
        name: format!("task {}", id),
        cron_expr: String::new(),
        command: format!("run {}", id),
        enabled: true,
        last_run: None,
        last_result: None,
    }
}

#[test]
fn add_assigns_fresh_id_and_keeps_fields() {
    let mut tasks = vec![plain("a")];
    assert!(add_task(&mut tasks, plain("ignored")));
    assert_eq!(tasks.len(), 2);
    let added = &tasks[1];
    assert_eq!(added.name, "task ignored");
    assert_eq!(added.command, "run ignored");
    assert_ne!(added.id, "ignored");
    assert_eq!(added.id.len(), 36);
}

#[test]
fn two_added_tasks_get_distinct_ids() {
    let mut tasks = Vec::new();
    assert!(add_task(&mut tasks, plain("x")));
    assert!(add_task(&mut tasks, plain("y")));
    assert_ne!(tasks[0].id, tasks[1].id);
}

#[test]
fn update_replaces_matching_record() {
    let mut tasks = vec![plain("a"), plain("b")];
    let mut changed = plain("b");
    changed.name = "renamed".to_string();
    changed.enabled = false;
    update_task(&mut tasks, changed);
    assert_eq!(tasks[1].name, "renamed");
    assert!(!tasks[1].enabled);
    assert_eq!(tasks[0].name, "task a");
}

#[test]
fn update_with_unknown_id_is_noop() {
    let mut tasks = vec![plain("a")];
    update_task(&mut tasks, plain("zzz"));
    assert_eq!(tasks.len(), 1);
    assert_eq!(tasks[0].name, "task a");
}

#[test]
fn delete_removes_matching_record() {
    let mut tasks = vec![plain("a"), plain("b"), plain("c")];
    delete_task(&mut tasks, &"b".to_string());
    let ids: Vec<&str> = tasks.iter().map(|t| t.id.as_str()).collect();
    assert_eq!(ids, vec!["a", "c"]);
}

#[test]
fn delete_removes_every_record_with_the_id() {
    let mut tasks = vec![plain("a"), plain("dup"), plain("b"), plain("dup")];
    delete_task(&mut tasks, &"dup".to_string());
    let ids: Vec<&str> = tasks.iter().map(|t| t.id.as_str()).collect();
    assert_eq!(ids, vec!["a", "b"]);
}

#[test]
fn delete_with_unknown_id_is_noop() {
    let mut tasks = vec![plain("a")];
    delete_task(&mut tasks, &"zzz".to_string());
    assert_eq!(tasks.len(), 1);
}

#[test]
fn mark_running_sets_sentinel_and_returns_command() {
    let mut tasks = vec![plain("a")];
    let cmd = mark_running(&mut tasks, &"a".to_string());
    assert_eq!(cmd, Some("run a".to_string()));
    assert_eq!(tasks[0].last_result, Some("Running...".to_string()));
    assert_eq!(tasks[0].last_result.as_deref(), Some(running_sentinel().as_str()));
}

#[test]
fn mark_running_unknown_id_returns_none() {
    let mut tasks = vec![plain("a")];
    assert_eq!(mark_running(&mut tasks, &"zzz".to_string()), None);
    assert_eq!(tasks[0].last_result, None);
}

#[test]
fn finalize_records_time_and_result() {
    let mut tasks = vec![plain("a")];
    finalize_task(
        &mut tasks,
        &"a".to_string(),
        &"2024-05-06T07:08:09+00:00".to_string(),
        "Success".to_string(),
    );
    assert_eq!(tasks[0].last_run, Some("2024-05-06T07:08:09+00:00".to_string()));
    assert_eq!(tasks[0].last_result, Some("Success".to_string()));
}

#[test]
fn partial_result_updates_only_status() {
    let mut tasks = vec![plain("a")];
    set_partial_result(&mut tasks, &"a".to_string(), "half of the output".to_string());
    assert_eq!(tasks[0].last_result, Some("half of the output".to_string()));
    assert_eq!(tasks[0].last_run, None);
}

#[test]
fn stuck_running_sentinel_normalizes_to_interrupted() {
    let mut tasks = vec![plain("a"), plain("b"), plain("c")];
    tasks[0].last_result = Some("Running...".to_string());
    tasks[1].last_result = Some("Success".to_string());
    normalize_loaded(&mut tasks);
    assert_eq!(tasks[0].last_result, Some("Interrupted".to_string()));
    assert_eq!(tasks[1].last_result, Some("Success".to_string()));
    assert_eq!(tasks[2].last_result, None);
    // Normalizing again changes nothing: the rewrite happens exactly once.
    normalize_loaded(&mut tasks);
    assert_eq!(tasks[0].last_result, Some("Interrupted".to_string()));
}

#[test]
fn snapshot_copies_every_field() {
    let mut tasks = vec![plain("a")];
    tasks[0].last_result = Some("ok".to_string());
    let snap = get_tasks(&tasks);
    assert_eq!(snap.len(), 1);
    assert_eq!(snap[0].id, tasks[0].id);
    assert_eq!(snap[0].last_result, tasks[0].last_result);
}

#[test]
fn stop_with_no_entry_is_a_silent_noop() {
    let reg = ExecRegistry::new();
    assert_eq!(reg.stop_target(&"ghost".to_string()), None);
    // Still empty: a repeated stop stays a no-op.
    assert_eq!(reg.stop_target(&"ghost".to_string()), None);
    assert_eq!(reg.lookup(&"ghost".to_string()), None);
}

#[test]
fn registry_tracks_live_executions() {
    let mut reg = ExecRegistry::new();
    reg.register("a".to_string(), 4242);
    assert_eq!(reg.lookup(&"a".to_string()), Some(4242));
    assert_eq!(reg.stop_target(&"a".to_string()), Some(4242));
    // Stopping does not remove the entry; only the runner's finalize does.
    assert_eq!(reg.lookup(&"a".to_string()), Some(4242));
    reg.deregister(&"a".to_string());
    assert_eq!(reg.lookup(&"a".to_string()), None);
}
