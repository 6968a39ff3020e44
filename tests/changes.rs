use parallel_code::changes::{get_changed_files, parse_count, text_lines, ChangedFile};

fn file(path: &str, added: u32, removed: u32, status: &str) -> ChangedFile {
    ChangedFile {
        path: path.to_string(),
        lines_added: added,
        lines_removed: removed,
        status: status.to_string(),
    }
}

#[test]
fn modified_and_untracked_files() {
    let status = b" M a.txt\n?? b.txt\n";
    let numstat = b"3\t1\ta.txt\n";
    let files = get_changed_files(status, numstat);
    assert_eq!(files, vec![file("a.txt", 3, 1, "M"), file("b.txt", 0, 0, "?")]);
}

#[test]
fn output_sorted_whatever_the_tool_order() {
    let status = b"?? z.txt\nA  m.txt\n M c.txt\n";
    let numstat = b"2\t0\tm.txt\n1\t1\tc.txt\n";
    let files = get_changed_files(status, numstat);
    let paths: Vec<&str> = files.iter().map(|f| f.path.as_str()).collect();
    assert_eq!(paths, vec!["c.txt", "m.txt", "z.txt"]);
    assert_eq!(files[1], file("m.txt", 2, 0, "A"));
    assert_eq!(files[2], file("z.txt", 0, 0, "?"));
}

#[test]
fn staged_column_preferred_over_worktree_column() {
    let files = get_changed_files(b"MM x.rs\n", b"5\t2\tx.rs\n");
    assert_eq!(files, vec![file("x.rs", 5, 2, "M")]);
    let files = get_changed_files(b"D  gone.rs\n", b"0\t7\tgone.rs\n");
    assert_eq!(files, vec![file("gone.rs", 0, 7, "D")]);
}

#[test]
fn diff_path_missing_from_status_defaults_to_m() {
    let files = get_changed_files(b"", b"1\t2\tonly.txt\n");
    assert_eq!(files, vec![file("only.txt", 1, 2, "M")]);
}

#[test]
fn binary_file_has_zero_counts() {
    let files = get_changed_files(b" M img.png\n", b"-\t-\timg.png\n");
    assert_eq!(files, vec![file("img.png", 0, 0, "M")]);
}

#[test]
fn empty_outputs_give_no_files() {
    assert!(get_changed_files(b"", b"").is_empty());
}

#[test]
fn later_status_line_replaces_earlier() {
    let files = get_changed_files(b"?? a\n M a\n", b"");
    assert_eq!(files, vec![file("a", 0, 0, "M")]);
}

#[test]
fn short_status_lines_are_skipped() {
    let files = get_changed_files(b"M\n?? ok\n", b"bad line\n");
    assert_eq!(files, vec![file("ok", 0, 0, "?")]);
}

#[test]
fn counts_parse_like_u32() {
    assert_eq!(parse_count(b"42"), 42);
    assert_eq!(parse_count(b"+7"), 7);
    assert_eq!(parse_count(b"-"), 0);
    assert_eq!(parse_count(b"+"), 0);
    assert_eq!(parse_count(b""), 0);
    assert_eq!(parse_count(b"4294967295"), 4294967295);
    assert_eq!(parse_count(b"4294967296"), 0);
    assert_eq!(parse_count(b"12a"), 0);
}

#[test]
fn lines_strip_one_cr_before_newline() {
    let ls = text_lines(b"a\r\n\nb\r\r\nc\r");
    assert_eq!(ls, vec![b"a".to_vec(), b"".to_vec(), b"b\r".to_vec(), b"c\r".to_vec()]);
    assert!(text_lines(b"").is_empty());
    assert_eq!(text_lines(b"x\n"), vec![b"x".to_vec()]);
}
