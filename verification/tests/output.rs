use taskclock::output::{compose_result, result_text, spawn_failure_result, truncate_output, WaitOutcome};

#[test]
fn truncation_of_25_kib_keeps_tail_and_counts_hidden() {
    let out: Vec<u8> = vec![b'x'; 25 * 1024];
    let r = compose_result(&WaitOutcome::Exited(Some(0)), &out);
    let header = b"... [Output Truncated, 5120 bytes hidden] ...\n";
    assert_eq!(&r[..header.len()], &header[..]);
    assert_eq!(r.len(), header.len() + 20 * 1024);
    assert!(r[header.len()..].iter().all(|&b| b == b'x'));
}

#[test]
fn truncation_keeps_exact_tail_bytes() {
    let mut out: Vec<u8> = Vec::new();
    for i in 0..25000u32 {
        out.push((i % 251) as u8 + 1);
    }
    let t = truncate_output(&out);
    let header = b"... [Output Truncated, 4520 bytes hidden] ...\n";
    assert_eq!(&t[..header.len()], &header[..]);
    assert_eq!(&t[header.len()..], &out[25000 - 20480..]);
}

#[test]
fn short_output_is_untouched() {
    let out = b"hello".to_vec();
    assert_eq!(truncate_output(&out), out);
}

#[test]
fn exit_code_seven_with_no_output() {
    let r = compose_result(&WaitOutcome::Exited(Some(7)), &Vec::new());
    assert_eq!(r, b"Error (Exit Code 7):\n".to_vec());
    let s = result_text(&WaitOutcome::Exited(Some(7)), &Vec::new());
    assert_eq!(s, "Error (Exit Code 7):\n");
}

#[test]
fn whitespace_only_output_is_success() {
    let out = b" \t\r\n  \n".to_vec();
    let r = compose_result(&WaitOutcome::Exited(Some(0)), &out);
    assert_eq!(r, b"Success".to_vec());
    assert_eq!(result_text(&WaitOutcome::Exited(Some(0)), &out), "Success");
}

#[test]
fn unicode_whitespace_is_blank_too() {
    let out = "\u{a0}\u{2003}\n".as_bytes().to_vec();
    assert_eq!(result_text(&WaitOutcome::Exited(Some(0)), &out), "Success");
}

#[test]
fn clean_exit_returns_output_verbatim() {
    let out = b"result line\n".to_vec();
    let r = compose_result(&WaitOutcome::Exited(Some(0)), &out);
    assert_eq!(r, out);
}

#[test]
fn signal_exit_reports_default_code() {
    let r = compose_result(&WaitOutcome::Exited(None), &b"partial".to_vec());
    assert_eq!(r, b"Error (Exit Code -1):\npartial".to_vec());
}

#[test]
fn wait_failure_wraps_output() {
    let r = compose_result(&WaitOutcome::WaitFailed("Process lost".to_string()), &b"seen".to_vec());
    assert_eq!(r, b"Process Error: Process lost\nOutput:\nseen".to_vec());
}

#[test]
fn invalid_output_bytes_become_replacements_in_text() {
    let out = vec![0xFFu8, b'a'];
    let s = result_text(&WaitOutcome::Exited(Some(0)), &out);
    assert_eq!(s, "\u{FFFD}a");
}

#[test]
fn spawn_failure_text() {
    let s = spawn_failure_result(&"No such file".to_string());
    assert_eq!(s, "Execution Failed: No such file");
}
