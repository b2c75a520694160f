use symlinks_database::skip::Skip;
use symlinks_database::symlink::{LinkFacts, SymlinkError};
use symlinks_database::walker::{EntryOutcome, ScanEntry, Walker, WalkerError};

const DIR: &str = "/tmp/symlinks_db_walker_test_0";

fn link(path: String, target: &str, exists: bool, depth: usize) -> ScanEntry {
    ScanEntry::Link {
        path,
        depth,
        facts: LinkFacts {
            is_symlink: Some(true),
            link_target: Some(target.to_string()),
            canonical_target: if exists { Some(target.to_string()) } else { None },
            target_exists: exists,
        },
    }
}

fn found_path(w: &Walker, canonical_root: &str, e: &ScanEntry) -> Option<String> {
    match w.examine(canonical_root, e) {
        EntryOutcome::Found(s) => Some(s.path().to_string()),
        _ => None,
    }
}

#[test]
fn subroot_must_be_inside_root() {
    let root = format!("{DIR}/root");
    let outside = format!("{DIR}/outside");
    assert!(Walker::new(root.clone(), true, Some(outside), true).is_err());
    assert!(Walker::new(root, true, None, false).is_ok());
}

#[test]
fn root_must_be_a_directory() {
    let file = format!("{DIR}/file");
    assert!(matches!(Walker::new(file, false, None, false), Err(WalkerError::RootIsNotADir(_))));
}

#[test]
fn subroot_walk_records_links_relative_to_root() {
    let root = format!("{DIR}/root");
    let inside = format!("{root}/inside");
    let target = format!("{inside}/target");
    let walker = Walker::new(root.clone(), true, Some(inside.clone()), true).unwrap();
    assert_eq!(walker.subroot(), inside);
    assert_eq!(walker.root(), root);
    let found: Vec<String> = [
        ScanEntry::Other { depth: 0 },
        ScanEntry::Other { depth: 1 },
        link(format!("{inside}/in_link"), &target, true, 1),
    ]
    .iter()
    .filter_map(|e| found_path(&walker, &root, e))
    .collect();
    assert_eq!(found.len(), 1);
    assert_eq!(found[0], "inside/in_link");
}

#[test]
fn skips_symlinks_escaping_root() {
    let root = format!("{DIR}/root");
    let target = format!("{DIR}/outside/target");
    let walker = Walker::new(root.clone(), true, None, false).unwrap();
    let outcome = walker.examine(&root, &link(format!("{root}/esc"), &target, true, 1));
    match outcome {
        EntryOutcome::Failed(m) => assert!(m.starts_with("Target of symlink")),
        _ => panic!("escaping link was not refused"),
    }
}

#[test]
fn skip_predicate_excludes_matching_entries() {
    let root = format!("{DIR}/root");
    let target = format!("{root}/target.txt");
    let walker = Walker::new(root.clone(), true, None, false)
        .unwrap()
        .with_skip(Skip::new(&[".venv/".to_string(), "node_modules/".to_string()]));
    assert!(!walker.admits(&format!("{root}/.venv"), 1, true));
    assert!(!walker.admits(&format!("{root}/node_modules"), 1, true));
    assert!(walker.admits(&format!("{root}/good_link"), 1, false));
    assert!(walker.admits(&root, 0, true));
    let found = found_path(&walker, &root, &link(format!("{root}/good_link"), &target, true, 1));
    assert_eq!(found.as_deref(), Some("good_link"));
}

#[test]
fn symlinked_root_is_not_recorded() {
    let real = format!("{DIR}/real");
    let root = format!("{DIR}/root");
    let walker = Walker::new(root.clone(), true, None, false).unwrap();
    let entries = [
        link(root.clone(), &real, true, 0),
        link(format!("{root}/l"), &format!("{real}/t.txt"), true, 1),
    ];
    let found: Vec<String> = entries.iter().filter_map(|e| found_path(&walker, &real, e)).collect();
    assert_eq!(found.len(), 1);
    assert_eq!(found[0], "l");
}

#[test]
fn parallel_search_finds_all_symlinks() {
    let root = format!("{DIR}/root");
    let target = format!("{root}/t.txt");
    let walker = Walker::new(root.clone(), true, None, false).unwrap();
    let entries = [
        link(format!("{root}/l0"), &target, true, 1),
        ScanEntry::Other { depth: 1 },
        link(format!("{root}/a/l1"), &target, true, 2),
        ScanEntry::Other { depth: 1 },
        link(format!("{root}/b/l2"), &target, true, 2),
    ];
    let mut paths: Vec<String> = entries.iter().filter_map(|e| found_path(&walker, &root, e)).collect();
    paths.sort();
    assert_eq!(paths, vec!["a/l1", "b/l2", "l0"]);
}

#[test]
fn unreadable_entries_are_reported() {
    let walker = Walker::new("/r".to_string(), true, None, false).unwrap();
    match walker.examine("/r", &ScanEntry::Unreadable("permission denied".to_string())) {
        EntryOutcome::Failed(m) => assert_eq!(m, "permission denied"),
        _ => panic!("error was not reported"),
    }
}

#[test]
fn subroot_that_is_no_directory_is_refused() {
    let r = Walker::new("/r".to_string(), true, Some("/r/file".to_string()), false);
    assert!(matches!(r, Err(WalkerError::RootIsNotADir(ref p)) if p == "/r/file"));
}

#[test]
fn walker_errors_describe_themselves() {
    assert_eq!(
        WalkerError::SubrootNotInRoot("/elsewhere".to_string()).message(),
        "Subroot is not inside root: /elsewhere"
    );
    assert_eq!(
        WalkerError::RootIsNotADir("/file".to_string()).message(),
        "Root of walker does not exist or isn't a directory: /file"
    );
    assert_eq!(
        WalkerError::Symlink(SymlinkError::NotASymlink("/r/plain".to_string())).message(),
        "Symlink Error: Path is not a symlink: /r/plain"
    );
}
