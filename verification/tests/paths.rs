use review_everything::paths::{components, paths_equal};

#[test]
fn paths_components_fold_separators_and_dots() {
    assert_eq!(components("a//b/./c/"), vec!["a", "b", "c"]);
    assert_eq!(components("/usr/./lib"), vec!["/", "usr", "lib"]);
    assert_eq!(components("./a/b"), vec![".", "a", "b"]);
    assert_eq!(components("a/../b"), vec!["a", "..", "b"]);
    assert_eq!(components(""), Vec::<String>::new());
    assert_eq!(components("."), vec!["."]);
    assert_eq!(components("/"), vec!["/"]);
}

#[test]
fn paths_equal_as_path_equality() {
    assert!(paths_equal("a//b", "a/b"));
    assert!(paths_equal("a/./b", "a/b"));
    assert!(paths_equal("a/b/", "a/b"));
    assert!(paths_equal("//a", "/a"));
    assert!(!paths_equal("./a", "a"));
    assert!(!paths_equal("/a", "a"));
    assert!(!paths_equal("a/../b", "b"));
    assert!(!paths_equal("a/bc", "a/b"));
}
