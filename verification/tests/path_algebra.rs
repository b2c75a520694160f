use symlinks_database::path::{
    append_path, is_absolute, join, normalize, parent, starts_with, strip_prefix,
};

#[test]
fn normalize_resolves_dots() {
    assert_eq!(normalize("books/../docs/x.epub"), "docs/x.epub");
    assert_eq!(normalize("/a/./b//c/"), "/a/b/c");
    assert_eq!(normalize("../x"), "../x");
    assert_eq!(normalize("a/../../b"), "../b");
    assert_eq!(normalize("/../x"), "/x");
    assert_eq!(normalize("/.."), "/");
    assert_eq!(normalize(""), "");
}

#[test]
fn normalize_is_idempotent_on_examples() {
    for p in ["a/../../b", "/x/./y/../z", "..", "a//b/.", "/"] {
        let once = normalize(p);
        assert_eq!(normalize(&once), once);
    }
}

#[test]
fn strip_prefix_and_starts_with_agree() {
    assert_eq!(strip_prefix("/data/docs/x", "/data").as_deref(), Some("docs/x"));
    assert_eq!(strip_prefix("/data", "/data").as_deref(), Some(""));
    assert_eq!(strip_prefix("/database/x", "/data"), None);
    assert_eq!(strip_prefix("data/x", "/data"), None);
    assert!(starts_with("/data/docs", "/data/"));
    assert!(!starts_with("/data2", "/data"));
    assert!(starts_with("a/b", ""));
}

#[test]
fn join_appends_or_replaces() {
    assert_eq!(join("/data", "docs/x"), "/data/docs/x");
    assert_eq!(join("/data", "/etc/x"), "/etc/x");
    assert_eq!(join("", "a"), "a");
    assert_eq!(strip_prefix(&join("/data", "docs/x"), "/data").as_deref(), Some("docs/x"));
}

#[test]
fn parent_drops_last_component() {
    assert_eq!(parent("/a/b").as_deref(), Some("/a"));
    assert_eq!(parent("/a").as_deref(), Some("/"));
    assert_eq!(parent("a").as_deref(), Some(""));
    assert_eq!(parent("/"), None);
    assert_eq!(parent(""), None);
    assert!(is_absolute("/a"));
    assert!(!is_absolute("a/b"));
}

#[test]
fn stripped_and_normalized_rejoins_to_the_path() {
    let rel = strip_prefix("/h/../h/l", "/h").unwrap();
    let stored = normalize(&rel);
    assert_eq!(stored, "../h/l");
    assert_eq!(normalize(&join("/h", &stored)), normalize("/h/../h/l"));
}

#[test]
fn append_path_writes_after_the_root_as_given() {
    assert_eq!(append_path("/data", "a/l"), "/data/a/l");
    assert_eq!(append_path("/data/", "a/l"), "/data/a/l");
    assert_eq!(append_path("/data/./x", "b"), "/data/./x/b");
    assert_eq!(append_path("", "b"), "b");
    assert_eq!(append_path("/data", "/abs"), "/abs");
}
