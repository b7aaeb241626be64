use review_everything::difft::{DifftFile, Status};
use review_everything::git::ChangedEntry;
use review_everything::integrity::verify;

fn entry(status: &str, path: &str) -> ChangedEntry {
    ChangedEntry {
        status: status.to_string(),
        old_path: path.to_string(),
        new_path: path.to_string(),
    }
}

fn difft_file(path: &str, status: Status) -> DifftFile {
    DifftFile {
        path: path.to_string(),
        language: "Rust".to_string(),
        status,
        aligned_lines: vec![],
        chunks: vec![],
    }
}

#[test]
fn verify_matching() {
    let expected = vec![entry("M", "src/lib.rs")];
    let actual = vec![difft_file("src/lib.rs", Status::Changed)];
    assert!(verify(&expected, &actual).is_ok());
}

#[test]
fn verify_count_mismatch() {
    let expected = vec![entry("M", "a.rs"), entry("M", "b.rs")];
    let actual = vec![difft_file("a.rs", Status::Changed)];
    assert!(verify(&expected, &actual).unwrap_err().contains("2 files but diff produced 1"));
}

#[test]
fn verify_missing_path() {
    let expected = vec![entry("M", "a.rs"), entry("M", "b.rs")];
    let actual = vec![
        difft_file("a.rs", Status::Changed),
        difft_file("c.rs", Status::Changed),
    ];
    assert!(verify(&expected, &actual).unwrap_err().contains("b.rs"));
}

#[test]
fn verify_status_contradiction_added_deleted() {
    let expected = vec![entry("A", "new.rs")];
    let actual = vec![difft_file("new.rs", Status::Deleted)];
    assert!(verify(&expected, &actual).unwrap_err().contains("Added but difft says Deleted"));
}

#[test]
fn verify_status_contradiction_deleted_created() {
    let expected = vec![entry("D", "old.rs")];
    let actual = vec![difft_file("old.rs", Status::Created)];
    assert!(verify(&expected, &actual).unwrap_err().contains("Deleted but difft says Created"));
}

#[test]
fn verify_exact_messages() {
    let expected = vec![entry("M", "a.rs"), entry("M", "b.rs")];
    let actual = vec![difft_file("a.rs", Status::Changed)];
    assert_eq!(
        verify(&expected, &actual).unwrap_err(),
        "Integrity: git reported 2 files but diff produced 1"
    );
    let actual = vec![difft_file("a.rs", Status::Changed), difft_file("c.rs", Status::Changed)];
    assert_eq!(
        verify(&expected, &actual).unwrap_err(),
        "Integrity: file b.rs reported by git but missing from diff output"
    );
    let expected = vec![entry("A", "x.rs")];
    let actual = vec![difft_file("x.rs", Status::Deleted)];
    assert_eq!(
        verify(&expected, &actual).unwrap_err(),
        "Integrity: git says x.rs is Added but difft says Deleted"
    );
}

#[test]
fn verify_count_check_comes_first() {
    let expected = vec![entry("A", "x.rs")];
    let actual = vec![difft_file("y.rs", Status::Deleted), difft_file("x.rs", Status::Deleted)];
    assert!(verify(&expected, &actual).unwrap_err().contains("1 files but diff produced 2"));
}

#[test]
fn verify_added_created_is_fine() {
    let expected = vec![entry("A", "n.rs"), entry("D", "o.rs")];
    let actual = vec![difft_file("o.rs", Status::Deleted), difft_file("n.rs", Status::Created)];
    assert!(verify(&expected, &actual).is_ok());
}

#[test]
fn verify_compares_paths_by_component() {
    let expected = vec![entry("M", "src/lib.rs")];
    let actual = vec![difft_file("src//lib.rs", Status::Changed)];
    assert!(verify(&expected, &actual).is_ok());
    let actual = vec![difft_file("./src/lib.rs", Status::Changed)];
    assert!(verify(&expected, &actual).is_err());
}
