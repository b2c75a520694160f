use symlinks_database::symlink::{LinkFacts, Symlink, SymlinkError};

const ROOT: &str = "/tmp/symlinks_db_test_0";

fn link_to(target: &str, exists: bool, canonical: Option<&str>) -> LinkFacts {
    LinkFacts {
        is_symlink: Some(true),
        link_target: Some(target.to_string()),
        canonical_target: canonical.map(|c| c.to_string()),
        target_exists: exists,
    }
}

#[test]
fn valid_symlink_is_not_broken() {
    let root = ROOT;
    let target = format!("{root}/target");
    let link = format!("{root}/link");
    let facts = link_to(&target, true, Some(&target));

    let sl = Symlink::new(root, &link, Some(root), &facts).unwrap();
    assert!(!sl.broken());
    assert_eq!(sl.path(), "link");
    assert_eq!(sl.target(), "target");
}

#[test]
fn broken_symlink_is_broken() {
    let root = ROOT;
    let link = format!("{root}/broken_link");
    let facts = link_to(&format!("{root}/missing"), false, None);

    let sl = Symlink::new(root, &link, Some(root), &facts).unwrap();
    assert!(sl.broken());
    assert_eq!(sl.path(), "broken_link");
    assert_eq!(sl.target(), "missing");
}

#[test]
fn relative_target_is_resolved_against_symlink_parent() {
    let root = ROOT;
    let link = format!("{root}/link");
    let canonical = format!("{root}/sub/target");
    let facts = link_to("sub/target", true, Some(&canonical));

    let sl = Symlink::new(root, &link, Some(root), &facts).unwrap();
    assert!(!sl.broken());
    assert_eq!(sl.path(), "link");
    assert_eq!(sl.target(), "sub/target");
}

#[test]
fn symlink_escaping_root_is_rejected() {
    let dir = ROOT;
    let root = format!("{dir}/root");
    let target = format!("{dir}/outside/target");
    let link = format!("{root}/link");
    let facts = link_to(&target, true, Some(&target));

    let err = Symlink::new(&root, &link, Some(&root), &facts).unwrap_err();
    assert!(matches!(err, SymlinkError::TargetOutsideRoot { .. }));
}

#[test]
fn non_symlink_is_rejected() {
    let root = ROOT;
    let file = format!("{root}/plain");
    let facts = LinkFacts {
        is_symlink: Some(false),
        link_target: None,
        canonical_target: None,
        target_exists: false,
    };

    let err = Symlink::new(root, &file, Some(root), &facts).unwrap_err();
    assert!(matches!(err, SymlinkError::NotASymlink(_)));
}

#[test]
fn symlink_outside_root_is_rejected() {
    let dir = ROOT;
    let root = format!("{dir}/root");
    let target = format!("{root}/target");
    let link = format!("{dir}/outside/link");
    let facts = link_to(&target, true, Some(&target));

    let err = Symlink::new(&root, &link, Some(&root), &facts).unwrap_err();
    assert!(matches!(err, SymlinkError::PathOutsideRoot { .. }));
}

#[test]
fn missing_link_is_reported_missing() {
    let facts = LinkFacts {
        is_symlink: None,
        link_target: None,
        canonical_target: None,
        target_exists: false,
    };
    let err = Symlink::new("/r", "/r/gone", Some("/r"), &facts).unwrap_err();
    assert!(matches!(err, SymlinkError::DoNotExist(ref p) if p == "/r/gone"));
    assert_eq!(err.message(), "Path do not exist: /r/gone");
}

#[test]
fn unreadable_root_is_reported_missing() {
    let facts = link_to("/r/t", true, Some("/r/t"));
    let err = Symlink::new("/r", "/r/l", None, &facts).unwrap_err();
    assert!(matches!(err, SymlinkError::DoNotExist(ref p) if p == "/r"));
}

#[test]
fn target_reached_through_symlinked_root_is_relativized_canonically() {
    // root "/d/root" is a symlink to "/d/real"; the link points at "/d/real/t.txt".
    let facts = link_to("/d/real/t.txt", true, Some("/d/real/t.txt"));
    let sl = Symlink::new("/d/root", "/d/root/l", Some("/d/real"), &facts).unwrap();
    assert_eq!(sl.path(), "l");
    assert_eq!(sl.target(), "t.txt");
    assert_eq!(sl.root(), "/d/root");
}

#[test]
fn stored_paths_are_normalized() {
    let facts = link_to("../b/./t", false, None);
    let sl = Symlink::new("/r", "/r/a/./l", Some("/r"), &facts).unwrap();
    assert_eq!(sl.path(), "a/l");
    assert_eq!(sl.target(), "b/t");
    assert!(sl.broken());
}

#[test]
fn error_messages_name_the_paths() {
    let e = SymlinkError::TargetOutsideRoot {
        path: "/r/l".to_string(),
        target: "/x".to_string(),
        root: "/r".to_string(),
    };
    assert_eq!(e.message(), "Target of symlink /r/l resolves outside root /r: /x");
    let e = SymlinkError::PathOutsideRoot { path: "/o/l".to_string(), root: "/r".to_string() };
    assert_eq!(e.message(), "Symlink path /o/l is outside root /r");
    let e = SymlinkError::NotASymlink("/r/f".to_string());
    assert_eq!(e.message(), "Path is not a symlink: /r/f");
}

#[test]
fn stored_forms_are_normalized_before_stripping() {
    // A link spelled through `..` is stored under its real location.
    let facts = link_to("/h/t", true, Some("/h/t"));
    let sl = Symlink::new("/h", "/h/../h/l", Some("/h"), &facts).unwrap();
    assert_eq!(sl.path(), "l");
    assert_eq!(sl.target(), "t");

    // A relative target climbing above the link's directory and back.
    let facts = link_to("../../h/x", true, Some("/h/x"));
    let sl = Symlink::new("/h", "/h/a/l", Some("/h"), &facts).unwrap();
    assert_eq!(sl.path(), "a/l");
    assert_eq!(sl.target(), "x");
}

#[test]
fn missing_target_escaping_through_parent_steps_is_rejected() {
    let facts = link_to("../x", false, None);
    let err = Symlink::new("/h", "/h/l", Some("/h"), &facts).unwrap_err();
    assert!(matches!(err, SymlinkError::TargetOutsideRoot { .. }));
}
