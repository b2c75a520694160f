use symlinks_database::database::Database;
use symlinks_database::symlink::{LinkFacts, Symlink};
use symlinks_database::walker::{EntryOutcome, ScanEntry, Walker};

const ROOT: &str = "/tmp/symlinks_db_broken_test_0/root";

/// The entries a walk of a root holding `target.txt`, `good_link` (to it)
/// and `broken_link` (to the missing `missing.txt`) visits.
fn root_with_mixed_links() -> Vec<ScanEntry> {
    let target = format!("{ROOT}/target.txt");
    vec![
        ScanEntry::Other { depth: 0 },
        ScanEntry::Other { depth: 1 },
        ScanEntry::Link {
            path: format!("{ROOT}/good_link"),
            depth: 1,
            facts: LinkFacts {
                is_symlink: Some(true),
                link_target: Some(target.clone()),
                canonical_target: Some(target),
                target_exists: true,
            },
        },
        ScanEntry::Link {
            path: format!("{ROOT}/broken_link"),
            depth: 1,
            facts: LinkFacts {
                is_symlink: Some(true),
                link_target: Some(format!("{ROOT}/missing.txt")),
                canonical_target: None,
                target_exists: false,
            },
        },
    ]
}

fn scan(walker: &Walker, entries: &[ScanEntry]) -> Vec<Symlink> {
    entries
        .iter()
        .filter_map(|e| match walker.examine(ROOT, e) {
            EntryOutcome::Found(s) => Some(s),
            _ => None,
        })
        .collect()
}

#[test]
fn walker_finds_broken_symlinks_within_root() {
    let walker = Walker::new(ROOT.to_string(), true, None, false).unwrap();
    let found = scan(&walker, &root_with_mixed_links());
    assert_eq!(found.len(), 2);

    let broken = found.iter().find(|s| s.path() == "broken_link").unwrap();
    assert!(broken.broken());

    let good = found.iter().find(|s| s.path() == "good_link").unwrap();
    assert!(!good.broken());
}

#[test]
fn sync_keeps_broken_symlinks() {
    let mut db = Database::new(":memory:").unwrap();

    let walker = Walker::new(ROOT.to_string(), true, None, false).unwrap();
    let found = scan(&walker, &root_with_mixed_links());
    db.import_many(&found).unwrap();

    let found_paths: Vec<String> = found.iter().map(|s| s.path().to_string()).collect();
    let deleted = db.remove_missing(&found_paths, None).unwrap();
    assert_eq!(deleted, 0);

    let broken = db.find_by_path("broken_link").unwrap().unwrap();
    assert!(broken.broken);
    assert_eq!(db.count().unwrap(), 2);
}
