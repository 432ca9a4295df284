use clir::path::{canonicalize, prefix_workdir, SegPath};
use clir::tree::PathTree;

#[test]
fn canonicalize_glob() {
    assert_eq!(canonicalize("/tmp/..").unwrap().to_display(), "/");
    assert_eq!(
        canonicalize("/tmp//a/./../*.rs").unwrap().to_display(),
        "/tmp/*.rs"
    );
}

#[test]
fn insert_and_get() {
    let mut path_tree = PathTree::new();
    path_tree.insert(&SegPath::parse("/tmp/a/b"), 0);

    assert_eq!(path_tree.get_size_at(&SegPath::parse("/tmp/a/b")), Some(0));
}

#[test]
fn contains_subpath() {
    let mut path_tree = PathTree::new();
    path_tree.insert_with(&SegPath::parse("/tmp/a"), 1);

    assert!(!path_tree.contains_subpath("/tmp"));
    assert!(path_tree.contains_subpath("/tmp/a"));
    assert!(path_tree.contains_subpath("/tmp/a/"));
    assert!(path_tree.contains_subpath("/tmp/a/c/**/*.rs"));
}

#[test]
fn contains_parent() {
    let mut path_tree = PathTree::new();
    path_tree.insert(&SegPath::parse("/tmp/a/b"), 0);

    assert!(path_tree.contains_parent(&SegPath::parse("/")));
    assert!(path_tree.contains_parent(&SegPath::parse("/tmp")));
    assert!(path_tree.contains_parent(&SegPath::parse("/tmp/a")));
    assert!(path_tree.contains_parent(&SegPath::parse("/tmp/a/b")));
    assert!(!path_tree.contains_parent(&SegPath::parse("/tmp/a/c")));
    assert!(!path_tree.contains_parent(&SegPath::parse("tmp/a/b")));
}

#[test]
fn insert_parent_path_removes_child() {
    let mut path_tree = PathTree::new();
    path_tree.insert(&SegPath::parse("/tmp/a/b"), 0);
    path_tree.insert(&SegPath::parse("/tmp/a"), 0);

    assert_eq!(path_tree.get_size_at(&SegPath::parse("/tmp/a")), Some(0));
    assert_eq!(path_tree.get_size_at(&SegPath::parse("/tmp/a/b")), None);
}

#[test]
fn insert_child_path_is_ignored() {
    let mut path_tree = PathTree::new();
    path_tree.insert(&SegPath::parse("/tmp/a"), 0);
    path_tree.insert(&SegPath::parse("/tmp/a/b"), 0);

    assert_eq!(path_tree.get_size_at(&SegPath::parse("/tmp/a")), Some(0));
    assert_eq!(path_tree.get_size_at(&SegPath::parse("/tmp/a/b")), None);
}

#[test]
fn insert_with_correct_size() {
    let mut path_tree = PathTree::new();
    path_tree.insert_with(&SegPath::parse("/tmp/a"), 2);
    path_tree.insert_with(&SegPath::parse("/tmp/b"), 4);
    path_tree.insert_with(&SegPath::parse("/home/potato"), 8);
    path_tree.insert_with(&SegPath::parse("/tmp/d/e"), 2);

    assert_eq!(path_tree.get_size_at(&SegPath::parse("/")), Some(16));
}

#[test]
fn insert_with_overwrite() {
    let mut path_tree = PathTree::new();
    path_tree.insert_with(&SegPath::parse("/tmp/a.tmp"), 2);
    path_tree.insert_with(&SegPath::parse("/tmp/b.tmp"), 4);
    path_tree.insert_with(&SegPath::parse("/tmp/c"), 4);
    path_tree.insert_with(&SegPath::parse("/tmp/c/d.tmp"), 4);
    path_tree.insert_with(&SegPath::parse("/tmp/f/f.tmp"), 4);
    path_tree.insert_with(&SegPath::parse("/tmp"), 16);

    assert_eq!(path_tree.get_size_at(&SegPath::parse("/")), Some(16));
}

#[test]
fn canonicalize_rejects_unrooted_and_escapes() {
    assert!(canonicalize("relative/path").is_none());
    assert!(canonicalize("").is_none());
    // A `..` may never pop past the root: every accepted path stays
    // absolute.
    assert!(canonicalize("/..").is_none());
    assert!(canonicalize("/../a").is_none());
    assert!(canonicalize("/../..").is_none());
    assert!(canonicalize("/a/b/../../..").is_none());
    assert_eq!(canonicalize("/a/b/../..").unwrap().to_display(), "/");
}

#[test]
fn canonicalize_round_trips_on_normal_forms() {
    // Normalization is idempotent: the display of an accepted path is
    // accepted again, unchanged.
    for raw in ["/tmp/..", "/c/../d", "/a/./b//", "/data/**/*.log"] {
        let once = canonicalize(raw).unwrap().to_display();
        let twice = canonicalize(once.as_str()).unwrap().to_display();
        assert_eq!(once, twice);
    }
}

#[test]
fn canonicalize_keeps_wildcards() {
    assert_eq!(
        canonicalize("/data/**/*.log").unwrap().to_display(),
        "/data/**/*.log"
    );
    assert_eq!(canonicalize("/a/./b/").unwrap().to_display(), "/a/b");
}

#[test]
fn prefix_workdir_joins_relative_rules() {
    let joined = prefix_workdir(
        "/work",
        &vec!["dir/".to_string(), "/abs/x".to_string(), "a.tmp".to_string()],
    );
    assert_eq!(
        joined,
        vec![
            "/work/dir/".to_string(),
            "/abs/x".to_string(),
            "/work/a.tmp".to_string()
        ]
    );
    assert_eq!(prefix_workdir("/", &vec!["x".to_string()]), vec!["/x".to_string()]);
}

#[test]
fn insert_returns_size_delta() {
    let mut path_tree = PathTree::new();
    assert_eq!(path_tree.insert_with(&SegPath::parse("/tmp/a"), 4), Some(4));
    // Re-inserting the same leaf with a larger size returns the growth.
    assert_eq!(path_tree.insert_with(&SegPath::parse("/tmp/a"), 6), Some(6 - 4));
    // A path under an existing leaf contributes nothing.
    assert_eq!(path_tree.insert_with(&SegPath::parse("/tmp/a/b"), 9), None);
    assert_eq!(path_tree.get_size(), Some(6));
}
