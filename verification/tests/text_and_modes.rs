use review_everything::app::{
    adjust_scroll, parse_git_range, resolve_compare_mode, short_context, short_context_from_label, special_item,
    truncate, CompareItem, DiffMode,
};
use review_everything::text::{split_lines, str_contains};

#[test]
fn modes_parse_range_forms() {
    assert_eq!(parse_git_range("main..feature"), ("main".to_string(), "feature".to_string()));
    assert_eq!(parse_git_range("main...feature"), ("main".to_string(), "feature".to_string()));
    assert_eq!(parse_git_range("..feature"), ("HEAD".to_string(), "feature".to_string()));
    assert_eq!(parse_git_range("main.."), ("main".to_string(), "HEAD".to_string()));
    assert_eq!(parse_git_range("abc123"), ("abc123^".to_string(), "abc123".to_string()));
    assert_eq!(parse_git_range("v1.2..v1.3"), ("v1.2".to_string(), "v1.3".to_string()));
}

#[test]
fn modes_compare_endpoints() {
    assert!(matches!(resolve_compare_mode("--index", "--working-tree"), DiffMode::Unstaged));
    assert!(matches!(resolve_compare_mode("abc", "--working-tree"), DiffMode::WorkingTree(c) if c == "abc"));
    assert!(matches!(resolve_compare_mode("abc", "--staged"), DiffMode::StagedVsCommit(c) if c == "abc"));
    assert!(matches!(resolve_compare_mode("a1", "b2"), DiffMode::Range(r) if r == "a1..b2"));
}

#[test]
fn modes_scope_keys() {
    let m = DiffMode::Range("a..b".to_string());
    assert_eq!(m.scope_key(&vec![Some("111".to_string()), None]), "111:b");
    assert_eq!(DiffMode::Unstaged.scope_key(&vec![]), "INDEX:WORKTREE");
    assert_eq!(DiffMode::Staged.scope_key(&vec![None]), "HEAD:INDEX");
    assert_eq!(DiffMode::WorkingTree("c".to_string()).scope_key(&vec![Some("ccc".to_string())]), "ccc:WORKTREE");
    assert_eq!(DiffMode::StagedVsCommit("c".to_string()).scope_key(&vec![None]), "c:INDEX");
}

#[test]
fn text_truncate_marks_the_cut() {
    assert_eq!(truncate("short", 20), "short");
    assert_eq!(truncate("exactly-twenty-chars", 20), "exactly-twenty-chars");
    assert_eq!(truncate("a subject longer than twenty", 20), "a subject longer ...");
    assert_eq!(truncate("abcdef", 2), "...");
}

#[test]
fn text_short_contexts() {
    let item = CompareItem {
        rev: "abc".to_string(),
        label: "abc 2024-01-02 10:00 subject".to_string(),
        is_special: false,
        short_hash: Some("abc".to_string()),
        date: Some("2024-01-02 10:00".to_string()),
        subject: Some("subject".to_string()),
    };
    assert_eq!(short_context(&item), "abc 2024-01-02");
    assert_eq!(short_context(&special_item("--staged", "STAGED (INDEX)")), "STAGED (INDEX)");
    assert_eq!(short_context_from_label("WORKING TREE"), "WORKING TREE");
    assert_eq!(short_context_from_label("abc 2024-01-02 10:00 subject"), "abc 2024-01-02");
    assert_eq!(short_context_from_label("single"), "single");
}

#[test]
fn text_scroll_keeps_cursor_in_view() {
    assert_eq!(adjust_scroll(0, 5, 10), 0);
    assert_eq!(adjust_scroll(0, 15, 10), 6);
    assert_eq!(adjust_scroll(8, 3, 10), 3);
    assert_eq!(adjust_scroll(4, 7, 1), 7);
    assert_eq!(adjust_scroll(5, 2, 0), 2);
}

#[test]
fn text_contains_and_lowercase() {
    assert!(str_contains("Fix parser", "pars"));
    assert!(str_contains("abc", ""));
    assert!(!str_contains("abc", "abd"));
}

#[test]
fn text_split_lines_as_str_lines() {
    for s in ["", "a", "a\n", "a\nb", "a\r\nb\r\n", "\n\nx", "a\rb\n", "end\r", "\r\n", "x\n\n"] {
        let expected: Vec<String> = s.lines().map(String::from).collect();
        assert_eq!(split_lines(s), expected, "input {:?}", s);
    }
    assert_eq!(split_lines("a\r\nb"), vec!["a", "b"]);
    assert_eq!(split_lines("end\r"), vec!["end\r"]);
}
