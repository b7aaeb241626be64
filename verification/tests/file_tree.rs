use review_everything::tree::{build_tree, flatten_visible, split_path, toggle_node, TreeNode};
use review_everything::types::{DisplayFile, FileStatus};

fn file(path: &str, status: FileStatus, additions: u32, deletions: u32) -> DisplayFile {
    DisplayFile {
        path: path.to_string(),
        language: "Rust".to_string(),
        status,
        rows: vec![],
        aligned_lines: vec![],
        hunks: vec![],
        additions,
        deletions,
        moved_from: None,
        content_hash: 0,
    }
}

fn names(nodes: &[TreeNode]) -> Vec<String> {
    nodes.iter().map(|n| n.name.clone()).collect()
}

#[test]
fn tree_split_path_parts() {
    assert_eq!(split_path("src/ui/a.rs"), vec!["src", "ui", "a.rs"]);
    assert_eq!(split_path("a.rs"), vec!["a.rs"]);
    assert_eq!(split_path(""), vec![""]);
    assert_eq!(split_path("/x//y"), vec!["", "x", "", "y"]);
}

#[test]
fn tree_dirs_first_then_lowercase_names() {
    let files = vec![
        file("README.md", FileStatus::Modified, 1, 1),
        file("src/a.rs", FileStatus::Modified, 3, 1),
        file("src/ui/c.rs", FileStatus::Created, 5, 0),
        file("src/ui/B.rs", FileStatus::Deleted, 0, 4),
        file("build.rs", FileStatus::Modified, 2, 2),
    ];
    let tree = build_tree(&files);
    assert_eq!(names(&tree), vec!["src", "build.rs", "README.md"]);
    let src = &tree[0];
    assert!(src.is_dir);
    assert_eq!(src.file_idx, None);
    assert_eq!(src.status, None);
    assert_eq!((src.additions, src.deletions), (8, 5));
    assert_eq!(names(&src.children), vec!["ui", "a.rs"]);
    let ui = &src.children[0];
    assert_eq!(names(&ui.children), vec!["B.rs", "c.rs"]);
    assert_eq!((ui.additions, ui.deletions), (5, 4));
    let b = &ui.children[0];
    assert!(!b.is_dir);
    assert_eq!(b.file_idx, Some(3));
    assert_eq!(b.status, Some(FileStatus::Deleted));
    assert!(b.expanded);
    assert_eq!(tree[2].file_idx, Some(0));
}

#[test]
fn tree_single_child_directories_merge() {
    let files = vec![file("a/b/c/x.rs", FileStatus::Modified, 1, 0), file("a/b/c/y.rs", FileStatus::Modified, 0, 1)];
    let tree = build_tree(&files);
    assert_eq!(names(&tree), vec!["a/b/c"]);
    assert_eq!(names(&tree[0].children), vec!["x.rs", "y.rs"]);
    assert_eq!((tree[0].additions, tree[0].deletions), (1, 1));
}

#[test]
fn tree_duplicate_path_shows_once() {
    let files = vec![file("a.rs", FileStatus::Modified, 1, 0), file("a.rs", FileStatus::Created, 7, 0)];
    let tree = build_tree(&files);
    assert_eq!(tree.len(), 1);
    assert_eq!(tree[0].file_idx, Some(0));
}

#[test]
fn tree_empty_file_list() {
    let files: Vec<DisplayFile> = vec![];
    assert!(build_tree(&files).is_empty());
}

#[test]
fn tree_flatten_and_fold() {
    let files = vec![
        file("src/a.rs", FileStatus::Modified, 1, 0),
        file("src/b.rs", FileStatus::Modified, 1, 0),
        file("top.rs", FileStatus::Modified, 1, 0),
    ];
    let mut tree = build_tree(&files);
    let lines = flatten_visible(&tree, 0);
    let shown: Vec<(String, u16)> = lines.iter().map(|l| (l.name.clone(), l.depth)).collect();
    assert_eq!(
        shown,
        vec![
            ("src".to_string(), 0),
            ("a.rs".to_string(), 1),
            ("b.rs".to_string(), 1),
            ("top.rs".to_string(), 0)
        ]
    );
    toggle_node(&mut tree, 0);
    let lines = flatten_visible(&tree, 0);
    assert_eq!(lines.len(), 2);
    assert!(!lines[0].expanded);
    toggle_node(&mut tree, 0);
    assert_eq!(flatten_visible(&tree, 0).len(), 4);
    toggle_node(&mut tree, 1);
    assert_eq!(flatten_visible(&tree, 0).len(), 4);
    toggle_node(&mut tree, 9);
    assert_eq!(flatten_visible(&tree, 0).len(), 4);
}

#[test]
fn tree_directory_shows_move_of_first_file_below() {
    let mut moved = file("lib/x.rs", FileStatus::Created, 1, 0);
    moved.moved_from = Some("old/x.rs".to_string());
    let files = vec![
        moved,
        file("lib/y.rs", FileStatus::Modified, 2, 1),
        file("doc/z.md", FileStatus::Modified, 1, 1),
    ];
    let tree = build_tree(&files);
    assert_eq!(names(&tree), vec!["doc", "lib"]);
    assert_eq!(tree[1].moved_from, Some("old/x.rs".to_string()));
    assert_eq!(tree[0].moved_from, None);
    assert_eq!(tree[1].children[0].moved_from, Some("old/x.rs".to_string()));
    assert_eq!(tree[1].children[1].moved_from, None);

    let mut later = file("lib/x.rs", FileStatus::Created, 1, 0);
    later.moved_from = Some("old/x.rs".to_string());
    let files = vec![file("lib/y.rs", FileStatus::Modified, 2, 1), later];
    let tree = build_tree(&files);
    assert_eq!(tree[0].moved_from, None);
}

#[test]
fn tree_duplicate_path_shows_first_file() {
    let files = vec![
        file("a/b.rs", FileStatus::Modified, 1, 0),
        file("a/b.rs", FileStatus::Deleted, 0, 7),
    ];
    let tree = build_tree(&files);
    assert_eq!(tree.len(), 1);
    assert_eq!(tree[0].children.len(), 1);
    assert_eq!(tree[0].children[0].file_idx, Some(0));
    assert_eq!((tree[0].additions, tree[0].deletions), (1, 0));
}

#[test]
fn tree_level_siblings_keep_first_file_order() {
    let files = vec![
        file("a.rs", FileStatus::Modified, 1, 0),
        file("A.rs", FileStatus::Modified, 1, 0),
        file("src/y.rs", FileStatus::Modified, 1, 0),
        file("Src/x.rs", FileStatus::Modified, 1, 0),
    ];
    let tree = build_tree(&files);
    assert_eq!(names(&tree), vec!["src", "Src", "a.rs", "A.rs"]);

    let files = vec![
        file("Src/x.rs", FileStatus::Modified, 1, 0),
        file("A.rs", FileStatus::Modified, 1, 0),
        file("src/y.rs", FileStatus::Modified, 1, 0),
        file("a.rs", FileStatus::Modified, 1, 0),
    ];
    let tree = build_tree(&files);
    assert_eq!(names(&tree), vec!["Src", "src", "A.rs", "a.rs"]);
}

#[test]
fn tree_counts_only_shown_files() {
    let files = vec![
        file("d/a.rs", FileStatus::Modified, u32::MAX, 0),
        file("d/a.rs", FileStatus::Modified, 5, 3),
    ];
    let tree = build_tree(&files);
    assert_eq!((tree[0].additions, tree[0].deletions), (u32::MAX, 0));
}
