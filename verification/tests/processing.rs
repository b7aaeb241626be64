use review_everything::difft::{Change, DifftFile, LineChange, SideChange, Status};
use review_everything::processor::process_file;
use review_everything::types::{FileStatus, HighlightRegion, HunkKind, SyntaxHighlight, FULL_LINE};

fn lines(ls: &[&str]) -> Vec<String> {
    ls.iter().map(|s| s.to_string()).collect()
}

#[test]
fn processing_created_file_without_chunks() {
    let file = DifftFile {
        path: "n.rs".to_string(),
        language: "Rust".to_string(),
        status: Status::Created,
        aligned_lines: vec![],
        chunks: vec![],
    };
    let d = process_file(file, vec![], lines(&["a", "b"]), None, 9);
    assert_eq!(d.status, FileStatus::Created);
    assert_eq!(d.aligned_lines, vec![(None, Some(0)), (None, Some(1))]);
    assert_eq!(d.rows.len(), 2);
    assert!(d.rows[0].left.is_filler);
    assert_eq!(d.rows[1].right.content, "b");
    assert_eq!(d.rows[1].right.highlights.len(), 1);
    assert_eq!(d.rows[1].right.highlights[0].end, FULL_LINE);
    assert_eq!(d.hunks, vec![(0, 2, HunkKind::AddOnly)]);
    assert_eq!((d.additions, d.deletions), (2, 0));
    assert_eq!(d.content_hash, 9);
}

#[test]
fn processing_changed_file_with_alignment() {
    let change = |line: u32, start: u32, end: u32| SideChange {
        line_number: line,
        changes: vec![Change { start, end, highlight: SyntaxHighlight::Keyword }],
    };
    let file = DifftFile {
        path: "m.rs".to_string(),
        language: "Rust".to_string(),
        status: Status::Changed,
        aligned_lines: vec![(Some(0), Some(0)), (Some(1), Some(1)), (None, Some(2)), (Some(2), Some(3))],
        chunks: vec![vec![
            LineChange { lhs: Some(change(1, 0, 3)), rhs: Some(change(1, 0, 4)) },
            LineChange { lhs: None, rhs: Some(change(2, 0, 2)) },
        ]],
    };
    let d = process_file(file, lines(&["x", "old", "z"]), lines(&["x", "new!", "ad", "z"]), Some((2, 1)), 0);
    assert_eq!(d.status, FileStatus::Modified);
    assert_eq!(d.rows.len(), 4);
    let h: &HighlightRegion = &d.rows[1].left.highlights[0];
    assert_eq!(d.rows[1].left.highlights.len(), 1);
    assert_eq!((h.start, h.end, h.highlight), (0, 3, Some(SyntaxHighlight::Keyword)));
    assert!(d.rows[2].left.is_filler);
    assert_eq!(d.rows[2].right.content, "ad");
    assert!(d.rows[3].right.highlights.is_empty());
    assert_eq!(d.hunks, vec![(1, 3, HunkKind::Mixed)]);
    assert_eq!((d.additions, d.deletions), (2, 1));
}

#[test]
fn processing_unchanged_file_side_by_side() {
    let file = DifftFile {
        path: "u.rs".to_string(),
        language: "Rust".to_string(),
        status: Status::Unchanged,
        aligned_lines: vec![],
        chunks: vec![],
    };
    let d = process_file(file, lines(&["a", "b"]), lines(&["a", "b", "c"]), None, 0);
    assert_eq!(d.aligned_lines, vec![(Some(0), Some(0)), (Some(1), Some(1)), (None, Some(2))]);
    assert_eq!(d.hunks, vec![(2, 3, HunkKind::Mixed)]);
}
