use review_everything::nav::{HunkJump, NavState};
use review_everything::types::{DisplayFile, FileStatus, HunkKind};

fn file(path: &str, hunks: Vec<(u32, u32, HunkKind)>) -> DisplayFile {
    DisplayFile {
        path: path.to_string(),
        language: "Rust".to_string(),
        status: FileStatus::Modified,
        rows: vec![],
        aligned_lines: vec![],
        hunks,
        additions: 0,
        deletions: 0,
        moved_from: None,
        content_hash: 0,
    }
}

#[test]
fn nav_new_starts_at_zero() {
    let nav = NavState::new(3);
    assert_eq!(nav.current_file, 0);
    assert_eq!(nav.scroll_positions, vec![0, 0, 0]);
    assert_eq!(nav.h_scroll_positions, vec![0, 0, 0]);
    assert_eq!(nav.scroll(), 0);
}

#[test]
fn nav_set_scroll_reads_back() {
    let mut nav = NavState::new(2);
    nav.set_scroll(17);
    nav.set_h_scroll(4);
    assert_eq!(nav.scroll(), 17);
    assert_eq!(nav.h_scroll(), 4);
    nav.next_file(2);
    assert_eq!(nav.scroll(), 0);
    nav.prev_file();
    assert_eq!(nav.scroll(), 17);
}

#[test]
fn nav_scroll_without_files_is_zero() {
    let mut nav = NavState::new(0);
    nav.set_scroll(9);
    assert_eq!(nav.scroll(), 0);
    assert_eq!(nav.h_scroll(), 0);
}

#[test]
fn nav_next_then_prev_file_round_trip() {
    let mut nav = NavState::new(3);
    assert!(nav.next_file(3));
    assert_eq!(nav.current_file, 1);
    assert!(nav.prev_file());
    assert_eq!(nav.current_file, 0);
    assert!(!nav.prev_file());
    nav.go_to_file(2, 3);
    assert!(!nav.next_file(3));
    assert_eq!(nav.current_file, 2);
    nav.go_to_file(7, 3);
    assert_eq!(nav.current_file, 2);
    assert!(!nav.next_file(0));
}

#[test]
fn nav_next_hunk_in_same_file_then_next_file() {
    let files = vec![
        file("a.rs", vec![(3, 5, HunkKind::Mixed), (10, 12, HunkKind::AddOnly)]),
        file("b.rs", vec![]),
        file("c.rs", vec![(7, 8, HunkKind::DeleteOnly)]),
    ];
    let mut nav = NavState::new(3);
    assert_eq!(nav.next_hunk(&files), Some(HunkJump::SameFile(3)));
    nav.set_scroll(3);
    assert_eq!(nav.next_hunk(&files), Some(HunkJump::SameFile(10)));
    nav.set_scroll(10);
    assert_eq!(nav.next_hunk(&files), Some(HunkJump::NextFile(2, 7)));
}

#[test]
fn nav_prev_hunk_wraps_backwards() {
    let files = vec![
        file("a.rs", vec![(3, 5, HunkKind::Mixed), (10, 12, HunkKind::AddOnly)]),
        file("b.rs", vec![(1, 2, HunkKind::AddOnly), (20, 21, HunkKind::Mixed)]),
    ];
    let mut nav = NavState::new(2);
    nav.set_scroll(11);
    assert_eq!(nav.prev_hunk(&files), Some(HunkJump::SameFile(10)));
    nav.set_scroll(3);
    assert_eq!(nav.prev_hunk(&files), Some(HunkJump::NextFile(1, 20)));
}

#[test]
fn nav_no_hunk_anywhere() {
    let files = vec![file("a.rs", vec![]), file("b.rs", vec![])];
    let nav = NavState::new(2);
    assert_eq!(nav.next_hunk(&files), None);
    assert_eq!(nav.prev_hunk(&files), None);
    let empty: Vec<DisplayFile> = vec![];
    assert_eq!(nav.next_hunk(&empty), None);
}

#[test]
fn nav_auto_scroll_to_first_hunk() {
    let files = vec![file("a.rs", vec![(6, 9, HunkKind::Mixed)])];
    let mut nav = NavState::new(1);
    nav.auto_scroll_to_first_hunk(&files);
    assert_eq!(nav.scroll(), 6);
    let files = vec![file("a.rs", vec![])];
    let mut nav = NavState::new(1);
    nav.auto_scroll_to_first_hunk(&files);
    assert_eq!(nav.scroll(), 0);
}
