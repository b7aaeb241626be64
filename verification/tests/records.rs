use std::hash::{Hash, Hasher};

use review_everything::difft::{highlight_named, status_named, Status};
use review_everything::text::clock_text;
use review_everything::git::{parse_log_line, parse_name_status, parse_numstat, parse_rename, parse_u64};
use review_everything::hunks::{compute_hunks, count_changed_rows};
use review_everything::review::{compute_content_hash, format_mark, parse_mark, remove_mark, reviewed_indices, ReviewMark};
use review_everything::types::{DisplayFile, FileStatus, HighlightRegion, HunkKind, Row, Side, SyntaxHighlight, FULL_LINE};

#[test]
fn records_log_line() {
    let e = parse_log_line("abcdef0123\u{1f}abcdef0\u{1f}2024-01-02 10:00\u{1f}Fix: a\u{1f}b").unwrap();
    assert_eq!(e.full_hash, "abcdef0123");
    assert_eq!(e.short_hash, "abcdef0");
    assert_eq!(e.date, "2024-01-02 10:00");
    assert_eq!(e.subject, "Fix: a\u{1f}b");
    let e = parse_log_line("h\u{1f}s\u{1f}d").unwrap();
    assert_eq!((e.date.as_str(), e.subject.as_str()), ("d", ""));
    assert!(parse_log_line("h\u{1f}s").is_none());
    assert!(parse_log_line("").is_none());
}

#[test]
fn records_name_status_and_renames() {
    let e = parse_name_status("M\tsrc/lib.rs").unwrap();
    assert_eq!((e.status.as_str(), e.old_path.as_str(), e.new_path.as_str()), ("M", "src/lib.rs", "src/lib.rs"));
    assert!(parse_name_status("garbage").is_none());
    assert_eq!(parse_rename("R095\told.rs\tnew.rs"), Some(("new.rs".to_string(), "old.rs".to_string())));
    assert_eq!(parse_rename("M\ta.rs"), None);
    assert_eq!(parse_rename("R100\tonly.rs"), None);
}

#[test]
fn records_numstat_and_numbers() {
    assert_eq!(parse_numstat("12\t3\tsrc/a.rs"), Some(("src/a.rs".to_string(), 12, 3)));
    assert_eq!(parse_numstat("-\t-\timg.png"), Some(("img.png".to_string(), 0, 0)));
    assert_eq!(parse_numstat("1\t2"), None);
    assert_eq!(parse_u64("0"), Some(0));
    assert_eq!(parse_u64("+42"), Some(42));
    assert_eq!(parse_u64("18446744073709551615"), Some(u64::MAX));
    assert_eq!(parse_u64("18446744073709551616"), None);
    assert_eq!(parse_u64(""), None);
    assert_eq!(parse_u64("+"), None);
    assert_eq!(parse_u64("4x"), None);
    assert_eq!(parse_u64("-1"), None);
    assert_eq!(parse_numstat("4294967296\t1\tbig"), Some(("big".to_string(), 0, 1)));
}

fn file(path: &str, hash: u64) -> DisplayFile {
    DisplayFile {
        path: path.to_string(),
        language: "Rust".to_string(),
        status: FileStatus::Modified,
        rows: vec![],
        aligned_lines: vec![],
        hunks: vec![],
        additions: 0,
        deletions: 0,
        moved_from: None,
        content_hash: hash,
    }
}

#[test]
fn records_mark_line_round_trip() {
    let m = ReviewMark { scope: "HEAD~1..HEAD".to_string(), path: "src/a b.rs".to_string(), hash: u64::MAX };
    let line = format_mark(&m);
    assert_eq!(line, "HEAD~1..HEAD\tsrc/a b.rs\t18446744073709551615");
    let back = parse_mark(&line).unwrap();
    assert_eq!((back.scope, back.path, back.hash), (m.scope, m.path, m.hash));
    let zero = ReviewMark { scope: "s".to_string(), path: "p".to_string(), hash: 0 };
    assert_eq!(format_mark(&zero), "s\tp\t0");
}

#[test]
fn records_review_marks() {
    let m = parse_mark("a:b\tsrc/x.rs\t77").unwrap();
    assert_eq!((m.scope.as_str(), m.path.as_str(), m.hash), ("a:b", "src/x.rs", 77));
    assert!(parse_mark("a:b\tsrc/x.rs\tnope").is_none());
    assert!(parse_mark("a:b\tsrc/x.rs").is_none());
    let marks = vec![
        ReviewMark { scope: "s".to_string(), path: "a.rs".to_string(), hash: 1 },
        ReviewMark { scope: "s".to_string(), path: "b.rs".to_string(), hash: 5 },
        ReviewMark { scope: "t".to_string(), path: "c.rs".to_string(), hash: 3 },
    ];
    let files = vec![file("a.rs", 1), file("b.rs", 2), file("c.rs", 3)];
    assert_eq!(reviewed_indices(&marks, "s", &files), vec![0]);
    assert_eq!(reviewed_indices(&marks, "t", &files), vec![2]);
    let left = remove_mark(marks, "s", "a.rs");
    let paths: Vec<&str> = left.iter().map(|m| m.path.as_str()).collect();
    assert_eq!(paths, vec!["b.rs", "c.rs"]);
}

fn row(left_changed: bool, right_changed: bool, left_filler: bool, right_filler: bool) -> Row {
    let hl = |on: bool| if on { vec![HighlightRegion { start: 0, end: FULL_LINE, highlight: None }] } else { vec![] };
    Row {
        left: Side { content: String::new(), is_filler: left_filler, highlights: hl(left_changed) },
        right: Side { content: String::new(), is_filler: right_filler, highlights: hl(right_changed) },
    }
}

#[test]
fn records_hunks_are_runs_of_changed_rows() {
    let rows = vec![
        row(false, false, false, false),
        row(false, true, true, false),
        row(false, true, true, false),
        row(false, false, false, false),
        row(true, false, false, true),
        row(false, false, false, false),
        row(true, true, false, false),
        row(false, true, true, false),
    ];
    assert_eq!(
        compute_hunks(&rows),
        vec![(1, 3, HunkKind::AddOnly), (4, 5, HunkKind::DeleteOnly), (6, 8, HunkKind::Mixed)]
    );
    assert_eq!(count_changed_rows(&rows), (4, 2));
    assert!(compute_hunks(&vec![row(false, false, false, false)]).is_empty());
}

#[test]
fn records_difftastic_names() {
    assert_eq!(status_named("changed"), Status::Changed);
    assert_eq!(status_named("created"), Status::Created);
    assert_eq!(status_named("deleted"), Status::Deleted);
    assert_eq!(status_named("unchanged"), Status::Unchanged);
    assert_eq!(status_named("other"), Status::Unchanged);
    assert_eq!(highlight_named("keyword"), SyntaxHighlight::Keyword);
    assert_eq!(highlight_named("delimiter"), SyntaxHighlight::Delimiter);
    assert_eq!(highlight_named("tree_sitter_error"), SyntaxHighlight::Normal);
}

#[test]
fn records_clock_text() {
    assert_eq!(clock_text(0), "00:00:00");
    assert_eq!(clock_text(3 * 3600 + 7 * 60 + 9), "03:07:09");
    assert_eq!(clock_text(86399), "23:59:59");
    assert_eq!(clock_text(86400 + 61), "00:01:01");
}

#[test]
fn review_content_hash_of_both_sides() {
    let old = vec!["a".to_string(), "b".to_string()];
    let new = vec!["c".to_string()];
    let mut h = std::collections::hash_map::DefaultHasher::new();
    old.hash(&mut h);
    new.hash(&mut h);
    assert_eq!(compute_content_hash(&old, &new), h.finish());
    assert_eq!(compute_content_hash(&old, &new), compute_content_hash(&old.clone(), &new.clone()));
    assert_ne!(compute_content_hash(&old, &new), compute_content_hash(&new, &old));
    assert_ne!(compute_content_hash(&[], &new), compute_content_hash(&new, &[]));
}
