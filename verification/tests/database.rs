use symlinks_database::database::{Database, ImportResult, ImportSummary};
use symlinks_database::symlink::{LinkFacts, Symlink};

const ROOT: &str = "/tmp/symlinks_db_db_test/root";

fn open() -> Database {
    Database::new(":memory:").unwrap()
}

/// The symlink `ROOT/name` pointing at `ROOT/name_target`, as the filesystem
/// would report it.
fn symlink(name: &str, broken: bool) -> Symlink {
    let target = format!("{ROOT}/{name}_target");
    let facts = LinkFacts {
        is_symlink: Some(true),
        link_target: Some(target.clone()),
        canonical_target: if broken { None } else { Some(target) },
        target_exists: !broken,
    };
    Symlink::new(ROOT, &format!("{ROOT}/{name}"), Some(ROOT), &facts).unwrap()
}

#[test]
fn import_inserts_new_item() {
    let mut db = open();
    let sl = symlink("a", false);
    assert_eq!(db.import(&sl).unwrap(), ImportResult::Inserted);
    assert_eq!(db.count().unwrap(), 1);
    let rec = db.find_by_path(sl.path()).unwrap().unwrap();
    assert_eq!(rec.path, sl.path());
    assert_eq!(rec.target, sl.target());
    assert!(!rec.broken);
    assert!(rec.added_at > 0);
}

#[test]
fn import_many_reports_insert_updated_unchanged() {
    let mut db = open();

    let first = db.import_many(&[symlink("a", false), symlink("b", false)]).unwrap();
    assert_eq!(first, ImportSummary { inserted: 2, updated: 0, unchanged: 0 });

    let second = db.import_many(&[symlink("a", false), symlink("b", false)]).unwrap();
    assert_eq!(second, ImportSummary { inserted: 0, updated: 0, unchanged: 2 });

    // The target of "a" was removed.
    let third = db.import_many(&[symlink("a", true), symlink("b", false)]).unwrap();
    assert_eq!(third, ImportSummary { inserted: 0, updated: 1, unchanged: 1 });
}

#[test]
fn import_skips_unchanged_item() {
    let mut db = open();
    let sl = symlink("a", false);
    db.import(&sl).unwrap();
    assert_eq!(db.import(&sl).unwrap(), ImportResult::Unchanged);
    assert_eq!(db.count().unwrap(), 1);
}

#[test]
fn import_updates_broken_status() {
    let mut db = open();
    let mut sl = symlink("a", false);
    db.import(&sl).unwrap();
    assert!(!db.find_by_path(sl.path()).unwrap().unwrap().broken);

    sl = symlink("a", true);
    assert_eq!(db.import(&sl).unwrap(), ImportResult::Updated);
    assert!(db.find_by_path(sl.path()).unwrap().unwrap().broken);
    assert_eq!(db.count().unwrap(), 1);
}

#[test]
fn remove_missing_deletes_absent_items() {
    let mut db = open();
    let sl1 = symlink("a", false);
    let sl2 = symlink("b", false);
    db.import(&sl1).unwrap();
    db.import(&sl2).unwrap();

    let found = vec![sl1.path().to_string()];
    let deleted = db.remove_missing(&found, None).unwrap();
    assert_eq!(deleted, 1);
    assert!(db.find_by_path(sl2.path()).unwrap().is_none());
    assert!(db.find_by_path(sl1.path()).unwrap().is_some());
}

#[test]
fn remove_missing_respects_scope() {
    let mut db = open();
    let sl1 = symlink("a", false);
    let sl2 = symlink("b", false);
    db.import(&sl1).unwrap();
    db.import(&sl2).unwrap();

    let found: Vec<String> = Vec::new();
    let deleted = db.remove_missing(&found, Some("a")).unwrap();
    assert_eq!(deleted, 1);
    assert!(db.find_by_path(sl1.path()).unwrap().is_none());
    assert!(db.find_by_path(sl2.path()).unwrap().is_some());
}

#[test]
fn find_by_target_returns_matching_items() {
    let mut db = open();
    let sl = symlink("a", false);
    db.import(&sl).unwrap();

    let matches = db.find_by_target(sl.target()).unwrap();
    assert_eq!(matches.len(), 1);
    assert_eq!(matches[0].path, sl.path());
    assert!(db.find_by_target("/nonexistent").unwrap().is_empty());
}

#[test]
fn new_in_memory_database_is_empty() {
    let db = Database::new(":memory:").unwrap();
    assert_eq!(db.count().unwrap(), 0);
}

#[test]
fn reimport_keeps_first_import_time_and_id() {
    let mut db = open();
    db.import(&symlink("a", false)).unwrap();
    let first = db.find_by_path("a").unwrap().unwrap();
    db.import(&symlink("a", true)).unwrap();
    let second = db.find_by_path("a").unwrap().unwrap();
    assert_eq!(first.id, second.id);
    assert_eq!(first.added_at, second.added_at);
    assert!(second.broken);
}

#[test]
fn all_lists_every_row_once() {
    let mut db = open();
    db.import_many(&[symlink("a", false), symlink("b", true), symlink("c", false)]).unwrap();
    let mut paths: Vec<String> = db.all().unwrap().into_iter().map(|r| r.path).collect();
    paths.sort();
    assert_eq!(paths, vec!["a", "b", "c"]);
    assert_eq!(db.count().unwrap(), 3);
}

#[test]
fn sync_rebuilds_from_scan_whatever_was_stored() {
    let mut db = open();
    db.import_many(&[symlink("old", false), symlink("a", true)]).unwrap();
    let scan = [symlink("a", false), symlink("b", false)];
    let summary = db.import_many(&scan).unwrap();
    assert_eq!(summary, ImportSummary { inserted: 1, updated: 1, unchanged: 0 });
    let found: Vec<String> = scan.iter().map(|s| s.path().to_string()).collect();
    assert_eq!(db.remove_missing(&found, None).unwrap(), 1);
    let mut rows: Vec<(String, bool)> =
        db.all().unwrap().into_iter().map(|r| (r.path, r.broken)).collect();
    rows.sort();
    assert_eq!(rows, vec![("a".to_string(), false), ("b".to_string(), false)]);
}

#[test]
fn duplicate_links_in_a_batch_count_as_new_each_time() {
    let mut db = open();
    let summary = db.import_many(&[symlink("a", false), symlink("a", true)]).unwrap();
    assert_eq!(summary, ImportSummary { inserted: 2, updated: 0, unchanged: 0 });
    assert!(db.find_by_path("a").unwrap().unwrap().broken);
    assert_eq!(db.count().unwrap(), 1);
}

#[test]
fn remove_missing_with_nothing_stale_deletes_nothing() {
    let mut db = open();
    db.import(&symlink("a", false)).unwrap();
    assert_eq!(db.remove_missing(&["a".to_string()], None).unwrap(), 0);
    assert_eq!(db.remove_missing(&[], Some("b")).unwrap(), 0);
    assert_eq!(db.count().unwrap(), 1);
}

#[test]
fn count_matches_listing_after_changes() {
    let mut db = open();
    db.import_many(&[symlink("a", false), symlink("b", true), symlink("c", false)]).unwrap();
    assert_eq!(db.count().unwrap(), db.all().unwrap().len());
    db.remove_missing(&["a".to_string()], None).unwrap();
    assert_eq!(db.count().unwrap(), db.all().unwrap().len());
    assert_eq!(db.count().unwrap(), 1);
}
