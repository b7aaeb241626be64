use review_everything::app::DiffMode;
use review_everything::difft::{DifftFile, Status};
use review_everything::pipeline::{
    apply_renames, check_diff_files, diff_args, difft_exit_ok, direct_context, direct_mode, fetch_methods,
    includes_untracked, keep_changed, sides_to_fetch, ContentFetcher, FetchMethod,
};
use review_everything::types::{DisplayFile, FileStatus};

fn file(path: &str, status: FileStatus) -> DisplayFile {
    DisplayFile {
        path: path.to_string(),
        language: "Rust".to_string(),
        status,
        rows: vec![],
        aligned_lines: vec![],
        hunks: vec![],
        additions: 0,
        deletions: 0,
        moved_from: None,
        content_hash: 0,
    }
}

fn reads(m: &FetchMethod) -> String {
    match m {
        FetchMethod::FromRef(r) => format!("ref:{r}"),
        FetchMethod::FromIndex => "index".to_string(),
        FetchMethod::FromWorkingTree => "worktree".to_string(),
    }
}

#[test]
fn pipeline_git_arguments_per_mode() {
    assert_eq!(diff_args(&DiffMode::Range("main...feature".to_string())), vec!["main..feature"]);
    assert_eq!(diff_args(&DiffMode::Range("abc".to_string())), vec!["abc^..abc"]);
    assert!(diff_args(&DiffMode::Unstaged).is_empty());
    assert_eq!(diff_args(&DiffMode::Staged), vec!["--cached"]);
    assert_eq!(diff_args(&DiffMode::WorkingTree("v1".to_string())), vec!["v1"]);
    assert_eq!(diff_args(&DiffMode::StagedVsCommit("v1".to_string())), vec!["--cached", "v1"]);
}

#[test]
fn pipeline_content_sources_per_mode() {
    let (o, n) = fetch_methods(&DiffMode::Range("..x".to_string()));
    assert_eq!((reads(&o), reads(&n)), ("ref:HEAD".to_string(), "ref:x".to_string()));
    let (o, n) = fetch_methods(&DiffMode::Unstaged);
    assert_eq!((reads(&o), reads(&n)), ("index".to_string(), "worktree".to_string()));
    let (o, n) = fetch_methods(&DiffMode::Staged);
    assert_eq!((reads(&o), reads(&n)), ("ref:HEAD".to_string(), "index".to_string()));
    let (o, n) = ContentFetcher::new(&DiffMode::StagedVsCommit("c1".to_string())).sources();
    assert_eq!((reads(&o), reads(&n)), ("ref:c1".to_string(), "index".to_string()));
    let (o, n) = ContentFetcher::new(&DiffMode::Range("a..b".to_string())).sources();
    assert_eq!((reads(&o), reads(&n)), ("ref:a".to_string(), "ref:b".to_string()));
    let (o, n) = ContentFetcher::new(&DiffMode::WorkingTree("w".to_string())).sources();
    assert_eq!((reads(&o), reads(&n)), ("ref:w".to_string(), "worktree".to_string()));
}

#[test]
fn pipeline_sides_and_exit_codes() {
    assert_eq!(sides_to_fetch("A"), (false, true));
    assert_eq!(sides_to_fetch("D"), (true, false));
    assert_eq!(sides_to_fetch("M"), (true, true));
    assert_eq!(sides_to_fetch(""), (true, true));
    assert!(difft_exit_ok(0) && difft_exit_ok(1));
    assert!(!difft_exit_ok(2) && !difft_exit_ok(-1));
}

#[test]
fn pipeline_checks_difft_output() {
    let changed = vec![("a.rs".to_string(), "A".to_string())];
    let ok = vec![DifftFile {
        path: "a.rs".to_string(),
        language: "Rust".to_string(),
        status: Status::Created,
        aligned_lines: vec![],
        chunks: vec![],
    }];
    assert!(check_diff_files(&changed, &ok).is_ok());
    let bad = vec![DifftFile {
        path: "a.rs".to_string(),
        language: "Rust".to_string(),
        status: Status::Deleted,
        aligned_lines: vec![],
        chunks: vec![],
    }];
    assert_eq!(
        check_diff_files(&changed, &bad).unwrap_err(),
        "Integrity: git says a.rs is Added but difft says Deleted"
    );
    assert_eq!(
        check_diff_files(&changed, &[]).unwrap_err(),
        "Integrity: git reported 1 files but diff produced 0"
    );
}

#[test]
fn pipeline_renames_and_unchanged_files() {
    let files = vec![
        file("new.rs", FileStatus::Modified),
        file("old.rs", FileStatus::Deleted),
        file("keep.rs", FileStatus::Unchanged),
        file("gone.rs", FileStatus::Deleted),
    ];
    let renames = vec![("new.rs".to_string(), "old.rs".to_string())];
    let out = apply_renames(files, &renames);
    let paths: Vec<&str> = out.iter().map(|f| f.path.as_str()).collect();
    assert_eq!(paths, vec!["new.rs", "keep.rs", "gone.rs"]);
    assert_eq!(out[0].moved_from.as_deref(), Some("old.rs"));
    assert_eq!(out[0].status, FileStatus::Created);
    let shown = keep_changed(out);
    let paths: Vec<&str> = shown.iter().map(|f| f.path.as_str()).collect();
    assert_eq!(paths, vec!["new.rs", "gone.rs"]);
}

#[test]
fn pipeline_renames_compare_paths_by_component() {
    let files = vec![file("src/new.rs", FileStatus::Modified), file("src/old.rs", FileStatus::Deleted)];
    let renames = vec![("src//new.rs".to_string(), "./src/old.rs".to_string())];
    let out = apply_renames(files, &renames);
    let paths: Vec<&str> = out.iter().map(|f| f.path.as_str()).collect();
    // "./src/old.rs" keeps its leading "." component, so it is not "src/old.rs".
    assert_eq!(paths, vec!["src/new.rs", "src/old.rs"]);
    assert_eq!(out[0].moved_from.as_deref(), Some("./src/old.rs"));
    assert_eq!(out[0].status, FileStatus::Created);
}

#[test]
fn pipeline_later_rename_replaces_earlier() {
    let files = vec![
        file("new.rs", FileStatus::Modified),
        file("first.rs", FileStatus::Deleted),
        file("second.rs", FileStatus::Deleted),
    ];
    let renames = vec![
        ("new.rs".to_string(), "first.rs".to_string()),
        ("new.rs/".to_string(), "second.rs".to_string()),
    ];
    let out = apply_renames(files, &renames);
    let paths: Vec<&str> = out.iter().map(|f| f.path.as_str()).collect();
    assert_eq!(paths, vec!["new.rs", "first.rs"]);
    assert_eq!(out[0].moved_from.as_deref(), Some("second.rs"));
}

#[test]
fn pipeline_command_line_modes() {
    assert!(matches!(direct_mode(true, true, Some("x".to_string())), Some(DiffMode::Staged)));
    assert!(matches!(direct_mode(false, true, None), Some(DiffMode::Unstaged)));
    assert!(matches!(direct_mode(false, false, Some("a..b".to_string())), Some(DiffMode::Range(r)) if r == "a..b"));
    assert!(direct_mode(false, false, None).is_none());
    assert_eq!(direct_context(&DiffMode::WorkingTree("c1".to_string())), "c1 vs working tree");
    assert_eq!(direct_context(&DiffMode::StagedVsCommit("c1".to_string())), "c1 vs staged");
    assert_eq!(direct_context(&DiffMode::Staged), "staged changes");
    assert!(includes_untracked(&DiffMode::Unstaged));
    assert!(includes_untracked(&DiffMode::WorkingTree("c".to_string())));
    assert!(!includes_untracked(&DiffMode::Staged));
}
