use statusline::git::{counts_fit_in, parse_lines, status_from_output};

#[test]
fn clean_repo() {
    let input = "# branch.oid abc123\n# branch.head main\n# branch.upstream origin/main\n# branch.ab +0 -0\n";
    let s = parse_lines(input);
    assert_eq!(s.branch, "main");
    assert_eq!(s.ahead, 0);
    assert_eq!(s.behind, 0);
    assert_eq!(s.staged, 0);
    assert_eq!(s.modified, 0);
    assert_eq!(s.untracked, 0);
}

#[test]
fn dirty_repo() {
    let input = "# branch.head feat/login\n# branch.ab +2 -1\n1 M. N... 100644 100644 100644 abc def file.rs\n1 .M N... 100644 100644 100644 abc def file2.rs\n? untracked.txt\n";
    let s = parse_lines(input);
    assert_eq!(s.branch, "feat/login");
    assert_eq!(s.ahead, 2);
    assert_eq!(s.behind, 1);
    assert_eq!(s.staged, 1);
    assert_eq!(s.modified, 1);
    assert_eq!(s.untracked, 1);
}

#[test]
fn no_branch_line_means_no_status() {
    assert!(status_from_output("").is_none());
    assert!(status_from_output("? a.txt\n1 M. N... x\n").is_none());
    assert!(status_from_output("# branch.head    \n").is_none());
}

#[test]
fn detached_head_reads_detached() {
    let s = status_from_output("# branch.oid abc\n# branch.head (detached)\n").unwrap();
    assert_eq!(s.branch, "detached");
    let s = status_from_output("# branch.head  topic \n").unwrap();
    assert_eq!(s.branch, "topic");
}

#[test]
fn renamed_and_copied_entries_count() {
    let s = parse_lines("2 R. N... 100644 100644 100644 a b R100 new\told\n2 RM N... x\n1 MM x\n");
    assert_eq!(s.staged, 3);
    assert_eq!(s.modified, 2);
}

#[test]
fn short_entry_lines_count_nothing() {
    let s = parse_lines("1 M\n2 \n1 \n");
    assert_eq!(s.staged, 0);
    assert_eq!(s.modified, 0);
}

#[test]
fn carriage_returns_and_last_line_without_newline() {
    let s = parse_lines("# branch.head main\r\n? a\r\n? b");
    assert_eq!(s.branch, "main");
    assert_eq!(s.untracked, 2);
    let s = parse_lines("# branch.head main\r");
    assert_eq!(s.branch, "main");
}

#[test]
fn ahead_behind_words() {
    let s = parse_lines("# branch.ab +12  \t-3\n");
    assert_eq!((s.ahead, s.behind), (12, 3));
    let s = parse_lines("# branch.ab +x -4294967296\n");
    assert_eq!((s.ahead, s.behind), (0, 0));
    let s = parse_lines("# branch.ab ++7 --1 + -\n");
    assert_eq!((s.ahead, s.behind), (0, 0));
    let s = parse_lines("# branch.ab ++7 -4294967295\n");
    assert_eq!((s.ahead, s.behind), (7, 4294967295));
    let s = parse_lines("# branch.ab +5 -2\n# branch.ab +1\n");
    assert_eq!((s.ahead, s.behind), (1, 2));
}

#[test]
fn unrelated_lines_are_ignored() {
    let s = parse_lines("# branch.oid abc\n! ignored.o\nu UU N... x\n\n?no-space\n");
    assert_eq!(s.branch, "");
    assert_eq!((s.staged, s.modified, s.untracked), (0, 0, 0));
}

#[test]
fn counts_fit_for_ordinary_output() {
    assert!(counts_fit_in(""));
    assert!(counts_fit_in("# branch.head main\n? a\n1 MM x\n"));
}
