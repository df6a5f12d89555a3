use taskclock::codec::{encode_tasks, load_tasks, parse_tasks};
use taskclock::task::Task;

fn sample(id: &str, name: &str, cron: &str, cmd: &str) -> Task {
    Task {
        id: id.to_string(),
        name: name.to_string(),
        cron_expr: cron.to_string(),
        command: cmd.to_string(),
        enabled: true,
        last_run: None,
        last_result: None,
    }
}

#[test]
fn round_trip_all_fields() {
    let tasks = vec![
        Task {
            id: "a1".to_string(),
            name: "first \"quoted\" name".to_string(),
            cron_expr: "* * * * * *".to_string(),
            command: "echo hi\nline2\tend \\ done".to_string(),
            enabled: true,
            last_run: Some("2024-01-02T03:04:05+08:00".to_string()),
            last_result: Some("Success".to_string()),
        },
        Task {
            id: "b2".to_string(),
            name: "你好 wörld".to_string(),
            cron_expr: String::new(),
            command: "dir".to_string(),
            enabled: false,
            last_run: None,
            last_result: Some("Running...".to_string()),
        },
    ];
    let bytes = encode_tasks(&tasks);
    let back = parse_tasks(&bytes).expect("canonical encoding must parse");
    assert_eq!(back.len(), tasks.len());
    for (orig, got) in tasks.iter().zip(back.iter()) {
        assert_eq!(orig.id, got.id);
        assert_eq!(orig.name, got.name);
        assert_eq!(orig.cron_expr, got.cron_expr);
        assert_eq!(orig.command, got.command);
        assert_eq!(orig.enabled, got.enabled);
        assert_eq!(orig.last_run, got.last_run);
        assert_eq!(orig.last_result, got.last_result);
    }
}

#[test]
fn round_trip_empty_store() {
    let tasks: Vec<Task> = Vec::new();
    let bytes = encode_tasks(&tasks);
    assert_eq!(bytes, b"[]".to_vec());
    let back = parse_tasks(&bytes).expect("empty store must parse");
    assert!(back.is_empty());
}

#[test]
fn encoding_has_expected_shape() {
    let tasks = vec![Task {
        id: "a".to_string(),
        name: "n".to_string(),
        cron_expr: String::new(),
        command: "echo".to_string(),
        enabled: true,
        last_run: None,
        last_result: Some("ok".to_string()),
    }];
    let bytes = encode_tasks(&tasks);
    let expected = "[{\"id\":\"a\",\"name\":\"n\",\"cron_expr\":\"\",\"command\":\"echo\",\"enabled\":true,\"last_run\":null,\"last_result\":\"ok\"}]";
    assert_eq!(String::from_utf8(bytes).unwrap(), expected);
}

#[test]
fn control_bytes_are_escaped() {
    let tasks = vec![sample("x", "a\nb", "", "c")];
    let bytes = encode_tasks(&tasks);
    let text = String::from_utf8(bytes.clone()).unwrap();
    assert!(text.contains("a\\u000ab"));
    let back = parse_tasks(&bytes).unwrap();
    assert_eq!(back[0].name, "a\nb");
}

#[test]
fn crashed_run_normalizes_on_load_exactly_once() {
    let mut t = sample("x", "n", "", "c");
    t.last_result = Some("Running...".to_string());
    let bytes = encode_tasks(&vec![t]);
    let loaded = load_tasks(&bytes);
    assert_eq!(loaded[0].last_result, Some("Interrupted".to_string()));
    // A second save/load cycle leaves the normalized value alone.
    let again = load_tasks(&encode_tasks(&loaded));
    assert_eq!(again[0].last_result, Some("Interrupted".to_string()));
}

#[test]
fn unreadable_document_loads_empty() {
    assert!(load_tasks(&b"{broken".to_vec()).is_empty());
}

#[test]
fn parse_rejects_garbage() {
    assert!(parse_tasks(&b"not json".to_vec()).is_none());
    assert!(parse_tasks(&b"".to_vec()).is_none());
    assert!(parse_tasks(&b"[{}]".to_vec()).is_none());
    assert!(parse_tasks(&b"[".to_vec()).is_none());
}
