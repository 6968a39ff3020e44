use parallel_code::batcher::{last_lines, OutputBatcher, Phase, PtyOutput};

#[test]
fn flushes_after_interval_with_pending_bytes() {
    let mut b = OutputBatcher::new();
    let big = vec![b'x'; 2000];
    assert_eq!(b.push_chunk(&big, 0), None);
    match b.push_chunk(b"hi", 8000) {
        Some(PtyOutput::Data(s)) => assert_eq!(s.len(), 2004 / 3 * 4),
        other => panic!("expected data, got {:?}", other),
    }
}

#[test]
fn small_batch_flushes_after_two_ms() {
    let mut b = OutputBatcher::new();
    assert_eq!(b.push_chunk(b"hi", 1999), None);
    assert_eq!(b.push_chunk(b"!", 2000), Some(PtyOutput::Data("aGkh".to_string())));
}

#[test]
fn large_batch_flushes_at_once() {
    let mut b = OutputBatcher::new();
    let big = vec![0u8; 65536];
    assert!(matches!(b.push_chunk(&big, 0), Some(PtyOutput::Data(_))));
}

#[test]
fn medium_batch_waits_for_interval() {
    let mut b = OutputBatcher::new();
    let mid = vec![b'a'; 1024];
    assert_eq!(b.push_chunk(&mid, 7999), None);
    assert_eq!(b.end_of_stream(), Some(PtyOutput::Data("YWFh".repeat(341) + "YQ==")));
}

#[test]
fn data_then_single_exit() {
    let mut b = OutputBatcher::new();
    assert_eq!(b.push_chunk(b"one\r\ntwo\n", 0), None);
    assert_eq!(b.end_of_stream(), Some(PtyOutput::Data("b25lDQp0d28K".to_string())));
    assert_eq!(b.phase(), Phase::WaitingExit);
    let exit = b.exit(Some(0), None);
    assert_eq!(
        exit,
        PtyOutput::Exit {
            exit_code: Some(0),
            signal: None,
            last_output: vec!["one".to_string(), "two".to_string()],
        }
    );
    assert_eq!(b.phase(), Phase::Exited);
}

#[test]
fn end_with_nothing_pending_sends_no_data() {
    let mut b = OutputBatcher::new();
    assert_eq!(b.end_of_stream(), None);
    let exit = b.exit(None, Some("SIGKILL".to_string()));
    assert_eq!(
        exit,
        PtyOutput::Exit { exit_code: None, signal: Some("SIGKILL".to_string()), last_output: vec![] }
    );
}

#[test]
fn exit_lines_keep_last_fifty_nonempty() {
    let mut text = String::new();
    for i in 0..60 {
        text.push_str(&format!("line{}\r\r\n\n", i));
    }
    let lines = last_lines(text.as_bytes());
    assert_eq!(lines.len(), 50);
    assert_eq!(lines[0], "line10");
    assert_eq!(lines[49], "line59");
}

#[test]
fn tail_keeps_last_8_kib() {
    let mut b = OutputBatcher::new();
    let mut first = vec![b'a'; 9000];
    first.push(b'\n');
    b.push_chunk(&first, 10000);
    b.push_chunk(b"end", 10000);
    b.end_of_stream();
    match b.exit(Some(1), None) {
        PtyOutput::Exit { last_output, .. } => {
            assert_eq!(last_output.len(), 2);
            assert_eq!(last_output[0].len(), 8192 - 3 - 1);
            assert_eq!(last_output[1], "end");
        }
        other => panic!("expected exit, got {:?}", other),
    }
}
