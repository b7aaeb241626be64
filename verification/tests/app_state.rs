use std::collections::HashSet;

use review_everything::app::{
    DiffFindMatch, entries_fit, tree_fits, App, DiffMessage, DiffMode, DiffPayload, Effect, LoadingPoll, LogItem, View,
};
use review_everything::git::LogEntry;
use review_everything::input::{KeyCode, KeyInput};
use review_everything::types::{DisplayFile, FileStatus, HunkKind};

fn entry(hash: &str, subject: &str) -> LogEntry {
    LogEntry {
        full_hash: format!("{hash}0000000000"),
        short_hash: hash.to_string(),
        date: "2024-01-02 10:00:00".to_string(),
        subject: subject.to_string(),
    }
}

fn file(path: &str, hash: u64) -> DisplayFile {
    DisplayFile {
        path: path.to_string(),
        language: "Rust".to_string(),
        status: FileStatus::Modified,
        rows: vec![],
        aligned_lines: vec![],
        hunks: vec![(4, 6, HunkKind::Mixed)],
        additions: 1,
        deletions: 1,
        moved_from: None,
        content_hash: hash,
    }
}

fn ch(c: char) -> KeyInput {
    KeyInput { code: KeyCode::Char(c), modifiers: 0 }
}

fn key(code: KeyCode) -> KeyInput {
    KeyInput { code, modifiers: 0 }
}

fn loaded(files: Vec<DisplayFile>) -> App {
    let mut app = App::new();
    assert!(tree_fits(&files));
    app.apply_diff_result(DiffPayload { files }, "10:00:00".to_string(), vec![]);
    app
}

#[test]
fn app_starts_on_an_empty_log() {
    let app = App::new();
    assert!(matches!(app.view, View::Log));
    assert!(app.files.is_empty());
    assert_eq!(app.tree_width, 35);
    assert!(app.show_tree);
    assert!(app.diff_find_search_new && !app.diff_find_search_old);
    assert!(app.loading_state.is_none());
}

#[test]
fn app_log_layout_and_selection() {
    let mut app = App::new();
    let entries = vec![entry("abc1234", "Fix the parser for long input lines")];
    assert!(entries_fit(&entries));
    assert!(app.load_log(Ok(entries), true, false).is_ok());
    assert_eq!(app.log_items.len(), 3);
    assert!(matches!(app.log_items[0], LogItem::WorkingTree));
    assert!(matches!(app.log_items[1], LogItem::Separator));
    assert!(matches!(app.log_items[2], LogItem::Commit(_)));
    let eff = app.handle_key_event(ch('j'));
    assert!(matches!(eff, Effect::Nothing));
    assert_eq!(app.log_cursor, 2);
    match app.handle_key_event(key(KeyCode::Enter)) {
        Effect::LoadDiff { mode: DiffMode::Range(r), context: Some(c) } => {
            assert_eq!(r, "abc12340000000000");
            assert_eq!(c, "abc1234 2024-01-02 Fix the parser fo...");
        }
        _ => panic!("expected a diff to load"),
    }
}

#[test]
fn app_log_select_working_tree() {
    let mut app = App::new();
    app.load_log(Ok(vec![]), true, true).unwrap();
    match app.handle_key_event(key(KeyCode::Enter)) {
        Effect::LoadDiff { mode: DiffMode::Unstaged, context: Some(c) } => assert_eq!(c, "Working Tree"),
        _ => panic!("expected the working tree diff"),
    }
}

#[test]
fn app_load_log_error_changes_nothing() {
    let mut app = App::new();
    let r = app.load_log(Err("no git".to_string()), true, true);
    assert_eq!(r, Err("no git".to_string()));
    assert!(app.log_items.is_empty());
}

#[test]
fn app_quit_from_log() {
    let mut app = App::new();
    assert!(matches!(app.handle_key_event(ch('q')), Effect::Quit));
}

#[test]
fn app_first_diff_records_load_time() {
    let app = loaded(vec![file("b.rs", 1), file("a.rs", 2)]);
    assert!(matches!(app.view, View::Diff));
    assert_eq!(app.diff_loaded_time.as_deref(), Some("10:00:00"));
    assert_eq!(app.initial_file_count, 2);
    assert_eq!(app.diff_refreshed_time, None);
    assert_eq!(app.refresh_delta_text, "");
    assert_eq!(app.nav.scroll(), 4);
    assert_eq!(app.diff_cursor, 4);
    assert_eq!(app.tree_nodes.len(), 2);
    assert_eq!(app.tree_nodes[0].name, "a.rs");
    assert_eq!(app.baseline_file_paths, vec!["b.rs".to_string(), "a.rs".to_string()]);
    assert_eq!(app.baseline_file_hashes, vec![("b.rs".to_string(), 1), ("a.rs".to_string(), 2)]);
}

#[test]
fn app_refresh_summarises_changes() {
    let mut app = loaded(vec![file("a.rs", 1), file("b.rs", 2), file("c.rs", 3)]);
    let next = vec![file("a.rs", 1), file("b.rs", 20), file("d.rs", 4), file("e.rs", 5)];
    app.apply_diff_result(DiffPayload { files: next }, "10:05:00".to_string(), vec![1]);
    assert_eq!(app.refresh_delta_text, "+2 new \u{00b7} -1 removed \u{00b7} 1 changed");
    assert_eq!(app.diff_refreshed_time.as_deref(), Some("10:05:00"));
    assert_eq!(app.diff_loaded_time.as_deref(), Some("10:00:00"));
    assert_eq!(app.initial_file_count, 3);
    assert_eq!(app.reviewed, HashSet::from([1]));
}

#[test]
fn app_refresh_onto_same_diff_reports_no_changes() {
    let files = vec![file("a.rs", 1), file("b.rs", 2)];
    let mut app = loaded(files.clone());
    app.apply_diff_result(DiffPayload { files }, "10:06:00".to_string(), vec![]);
    assert_eq!(app.refresh_delta_text, "no changes");
}

#[test]
fn app_refresh_compares_paths_by_component() {
    let mut app = loaded(vec![file("src/a.rs", 1), file("src//b.rs", 2)]);
    let next = vec![file("src/./a.rs", 1), file("src/b.rs", 5)];
    app.apply_diff_result(DiffPayload { files: next }, "10:07:00".to_string(), vec![]);
    assert_eq!(app.refresh_delta_text, "1 changed");
}

#[test]
fn app_baseline_keeps_one_entry_per_path() {
    let app = loaded(vec![file("a.rs", 1), file("./a.rs", 2), file("a.rs/", 3)]);
    assert_eq!(app.baseline_file_paths, vec!["a.rs".to_string(), "./a.rs".to_string()]);
}

#[test]
fn app_unknown_hash_is_not_a_change() {
    let mut app = loaded(vec![file("a.rs", 0)]);
    app.apply_diff_result(DiffPayload { files: vec![file("a.rs", 9)] }, "t".to_string(), vec![]);
    assert_eq!(app.refresh_delta_text, "no changes");
}

#[test]
fn app_refresh_without_baseline() {
    let mut app = loaded(vec![]);
    app.apply_diff_result(DiffPayload { files: vec![file("a.rs", 1)] }, "t".to_string(), vec![]);
    assert_eq!(app.refresh_delta_text, "? missing baseline");
}

#[test]
fn app_poll_loading_steps() {
    let mut app = App::new();
    app.start_diff_loading(DiffMode::Staged, None, "scope".to_string());
    assert!(matches!(&app.view, View::Loading(m) if m == "Computing diff..."));
    assert!(!app.poll_loading(LoadingPoll::Empty, "t".to_string(), vec![]));
    assert_eq!(app.loading_state.map(|l| l.tick), Some(1));
    assert!(app.poll_loading(LoadingPoll::Received(DiffMessage::Error("boom".to_string())), "t".to_string(), vec![]));
    assert!(app.loading_state.is_none());
    assert!(matches!(&app.view, View::Error(e) if e == "boom"));
}

#[test]
fn app_poll_loading_disconnected_and_done() {
    let mut app = App::new();
    app.start_diff_loading(DiffMode::Unstaged, Some("unstaged changes".to_string()), "s".to_string());
    assert!(matches!(&app.view, View::Loading(m) if m == "unstaged changes"));
    assert!(app.poll_loading(LoadingPoll::Disconnected, "t".to_string(), vec![]));
    assert!(matches!(&app.view, View::Error(e) if e == "Diff computation failed unexpectedly"));
    app.start_diff_loading(DiffMode::Unstaged, None, "s".to_string());
    let done = LoadingPoll::Received(DiffMessage::Done(DiffPayload { files: vec![file("x.rs", 1)] }));
    assert!(app.poll_loading(done, "11:00:00".to_string(), vec![]));
    assert!(matches!(app.view, View::Diff));
    assert_eq!(app.files.len(), 1);
    assert!(app.loading_state.is_none());
}

#[test]
fn app_quit_while_loading_goes_back_to_log() {
    let mut app = App::new();
    app.start_diff_loading(DiffMode::Staged, None, "s".to_string());
    assert!(matches!(app.handle_key_event(ch('q')), Effect::CancelLoading));
    assert!(matches!(app.view, View::Log));
    assert!(app.loading_state.is_none());
    let mut app = App::new();
    app.launched_with_args = true;
    app.start_diff_loading(DiffMode::Staged, None, "s".to_string());
    assert!(matches!(app.handle_key_event(ch('q')), Effect::Quit));
}

#[test]
fn app_review_toggle_twice() {
    let mut app = loaded(vec![file("a.rs", 7)]);
    app.diff_scope = Some("scope".to_string());
    match app.handle_key_event(ch('r')) {
        Effect::MarkReviewed { scope, path, hash } => {
            assert_eq!((scope.as_str(), path.as_str(), hash), ("scope", "a.rs", 7));
        }
        _ => panic!("expected a review mark"),
    }
    assert_eq!(app.reviewed, HashSet::from([0]));
    match app.handle_key_event(ch('r')) {
        Effect::UnmarkReviewed { scope, path } => assert_eq!((scope.as_str(), path.as_str()), ("scope", "a.rs")),
        _ => panic!("expected the mark removed"),
    }
    assert!(app.reviewed.is_empty());
}

#[test]
fn app_tree_fits_limits() {
    let mut big = file("a.rs", 1);
    big.additions = u32::MAX;
    assert!(tree_fits(&[big.clone()]));
    assert!(!tree_fits(&[big.clone(), file("b.rs", 1)]));
    assert!(tree_fits(&[big.clone(), big.clone()]));
    assert!(tree_fits(&[big.clone(), file("a.rs", 2)]));
    let deep = file(&"d/".repeat(70000), 1);
    assert!(!tree_fits(&[deep]));
}

#[test]
fn app_help_returns_to_the_view_it_was_opened_from() {
    let mut app = App::new();
    assert!(app.load_log(Ok(vec![entry("abc1234", "one")]), false, false).is_ok());
    app.handle_key_event(ch('?'));
    assert!(matches!(app.view, View::Help));
    app.handle_key_event(ch('?'));
    assert!(matches!(app.view, View::Log));
    app.handle_key_event(ch('?'));
    app.handle_key_event(ch('q'));
    assert!(matches!(app.view, View::Log));

    let mut app = loaded(vec![file("a.rs", 1)]);
    assert!(matches!(app.view, View::Diff));
    app.handle_key_event(ch('?'));
    assert!(matches!(app.view, View::Help));
    app.handle_key_event(ch('?'));
    assert!(matches!(app.view, View::Diff));
}

#[test]
fn app_cancelled_load_returns_to_the_previous_view() {
    let mut app = loaded(vec![file("a.rs", 1)]);
    app.start_diff_loading(DiffMode::Unstaged, None, "scope".to_string());
    assert!(matches!(app.view, View::Loading(_)));
    assert!(matches!(app.handle_key_event(ch('q')), Effect::CancelLoading));
    assert!(matches!(app.view, View::Diff));
    assert!(app.loading_state.is_none());

    let mut app = App::new();
    app.start_diff_loading(DiffMode::Staged, Some("Staged".to_string()), "scope".to_string());
    assert!(matches!(app.handle_key_event(ch('q')), Effect::CancelLoading));
    assert!(matches!(app.view, View::Log));
}

#[test]
fn app_log_takes_any_subject_until_one_is_selected() {
    let subject = "0123456789abcdefé and more text";
    let mut app = App::new();
    let entries = vec![entry("abc1234", subject), entry("def5678", "plain subject text here ok")];
    assert!(app.load_log(Ok(entries), false, false).is_ok());
    assert_eq!(app.log_items.len(), 2);
    assert!(app.accepts_key(ch('j')));
    assert!(!app.accepts_key(key(KeyCode::Enter)));
    assert!(!app.selection_fits());
    app.handle_key_event(ch('j'));
    assert!(app.accepts_key(key(KeyCode::Enter)));
    assert!(matches!(app.handle_key_event(key(KeyCode::Enter)), Effect::LoadDiff { .. }));
}

#[test]
fn app_find_next_then_previous_returns() {
    let mut app = loaded(vec![file("a.rs", 1)]);
    app.diff_find_active = true;
    app.diff_find_matches = vec![
        DiffFindMatch { row: 3, col: 0, len: 1, is_left: false },
        DiffFindMatch { row: 40, col: 2, len: 1, is_left: true },
        DiffFindMatch { row: 80, col: 1, len: 1, is_left: false },
    ];
    app.diff_find_current = 2;
    app.handle_key_event(key(KeyCode::Down));
    assert_eq!(app.diff_find_current, 0);
    assert_eq!(app.diff_cursor, 3);
    app.handle_key_event(key(KeyCode::Up));
    assert_eq!(app.diff_find_current, 2);
    assert_eq!(app.diff_cursor, 80);
    assert!(app.nav.scroll() <= 80 && 80 < app.nav.scroll() + 30);
    app.handle_key_event(key(KeyCode::Up));
    app.handle_key_event(key(KeyCode::Down));
    assert_eq!(app.diff_find_current, 2);
    assert_eq!(app.diff_cursor, 80);
}

#[test]
fn app_next_then_prev_find_match_direct() {
    let mut app = loaded(vec![file("a.rs", 1)]);
    app.diff_find_matches = vec![
        DiffFindMatch { row: 5, col: 0, len: 1, is_left: false },
        DiffFindMatch { row: 70, col: 2, len: 1, is_left: true },
    ];
    app.diff_find_current = 0;
    app.next_diff_find_match();
    assert_eq!(app.diff_find_current, 1);
    assert_eq!(app.diff_cursor, 70);
    app.prev_diff_find_match();
    assert_eq!(app.diff_find_current, 0);
    assert_eq!(app.diff_cursor, 5);
    assert!(app.nav.scroll() <= 5 && 5 < app.nav.scroll() + 30);
    assert_eq!(app.diff_find_matches.len(), 2);
    let mut empty = loaded(vec![file("b.rs", 1)]);
    let before = (empty.diff_find_current, empty.diff_cursor);
    empty.next_diff_find_match();
    empty.prev_diff_find_match();
    assert_eq!((empty.diff_find_current, empty.diff_cursor), before);
}

#[test]
fn app_longer_search_query_narrows_results() {
    let mut app = App::new();
    let entries = vec![entry("abc1234", "Fix parser"), entry("def5678", "Add files"), entry("fff0000", "Fix docs")];
    assert!(app.load_log(Ok(entries), true, true).is_ok());
    app.handle_key_event(ch('/'));
    assert!(app.search_active);
    let all = app.search_filtered.clone();
    assert_eq!(all, vec![0, 1, 3, 4, 5]);
    let mut previous = all;
    for c in ['f', 'i', 'x', ' ', 'p'] {
        app.handle_key_event(ch(c));
        let now = app.search_filtered.clone();
        assert!(now.iter().all(|x| previous.contains(x)), "{:?} not within {:?}", now, previous);
        previous = now;
    }
    assert_eq!(previous, vec![3]);
}
