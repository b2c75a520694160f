use symlinks_database::cli::{
    bold, find_lines, import_line, list_lines, relativize, resolve_target, summary_line, sync_index,
    sync_scope,
};
use symlinks_database::database::{Database, ImportResult, ImportSummary, Record};
use symlinks_database::symlink::{LinkFacts, Symlink};

#[test]
fn relativize_in_root_strips_root() {
    let root = "/data";
    let target = "/data/docs/books/x.epub";
    assert_eq!(relativize(target, root, None, None), "docs/books/x.epub");
}

#[test]
fn relativize_outside_root_keeps_absolute() {
    let root = "/data";
    let target = "/home/user/x.epub";
    assert_eq!(relativize(target, root, None, None), target.to_string());
}

#[test]
fn relativize_normalizes_components() {
    let root = "/data";
    assert_eq!(relativize("/data/../data/x", "/data", None, None), "x");
    let target = "/data/books/../docs/x.epub";
    assert_eq!(relativize(target, root, None, None), "docs/x.epub");
}

#[test]
fn resolve_target_absolute_relativizes() {
    let root = "/data";
    let target = "/data/docs/x.epub";
    assert_eq!(resolve_target(target, root, "/somewhere", None, None), "docs/x.epub");
}

#[test]
fn relativize_handles_symlinked_root() {
    // "<dir>/root" is a symlink to "<dir>/real".
    let dir = "/tmp/lndb_relativize_0";
    let link = format!("{dir}/root");
    let real = format!("{dir}/real");
    let target = format!("{real}/docs/books/x.epub");
    assert_eq!(
        relativize(&target, &link, Some(&real), Some(&target)),
        "docs/books/x.epub"
    );
}

#[test]
fn resolve_target_relative_uses_working_directory() {
    assert_eq!(resolve_target("x.epub", "/data", "/data/docs", None, None), "docs/x.epub");
    assert_eq!(resolve_target("../y", "/data", "/data/docs", None, None), "y");
}

#[test]
fn bold_wraps_the_number() {
    assert_eq!(bold(0), "\x1b[1m0\x1b[0m");
    assert_eq!(bold(1203), "\x1b[1m1203\x1b[0m");
}

#[test]
fn summary_line_counts_imports() {
    let s = ImportSummary { inserted: 2, updated: 1, unchanged: 4 };
    assert_eq!(
        summary_line(&s, 3),
        "Imported \x1b[1m3\x1b[0m symlinks (\x1b[1m2\x1b[0m new, \x1b[1m1\x1b[0m updated), \x1b[1m4\x1b[0m unchanged, removed \x1b[1m3\x1b[0m stale entries"
    );
}

#[test]
fn import_line_names_the_outcome() {
    assert_eq!(import_line("a/l", ImportResult::Inserted), "Imported a/l (new)");
    assert_eq!(import_line("a/l", ImportResult::Updated), "Imported a/l (updated)");
    assert_eq!(import_line("a/l", ImportResult::Unchanged), "Imported a/l (unchanged)");
}

#[test]
fn sync_scope_is_subroot_relative_to_root() {
    assert_eq!(sync_scope(Some("/data/docs"), "/data").as_deref(), Some("docs"));
    assert_eq!(sync_scope(None, "/data"), None);
    assert_eq!(sync_scope(Some("/elsewhere"), "/data"), None);
}

fn rec(path: &str, broken: bool) -> Record {
    Record { id: 1, path: path.to_string(), target: "t".to_string(), broken, added_at: 5 }
}

#[test]
fn find_lines_mark_broken_links() {
    let records = vec![rec("a/l", false), rec("b/l", true)];
    assert_eq!(find_lines(&records, "t", "/data", false), vec!["a/l", "b/l (broken)"]);
    assert_eq!(find_lines(&records, "t", "/data", true), vec!["/data/a/l", "/data/b/l (broken)"]);
    assert_eq!(find_lines(&[], "docs/x", "/data", false), vec!["no symlinks found for target docs/x"]);
}

#[test]
fn list_lines_filter_and_mark() {
    let records = vec![rec("a", false), rec("b", true)];
    assert_eq!(list_lines(&records, "/data", false, false), vec!["a", "b (broken)"]);
    assert_eq!(list_lines(&records, "/data", true, false), vec!["b"]);
    assert_eq!(list_lines(&records, "/data", true, true), vec!["/data/b"]);
    assert_eq!(list_lines(&records, "/data/./", true, true), vec!["/data/./b"]);
}

#[test]
fn sync_index_imports_then_prunes_within_scope() {
    let link = |name: &str| {
        let facts = LinkFacts {
            is_symlink: Some(true),
            link_target: Some("/data/t".to_string()),
            canonical_target: Some("/data/t".to_string()),
            target_exists: true,
        };
        Symlink::new("/data", &format!("/data/{name}"), Some("/data"), &facts).unwrap()
    };
    let mut db = Database::new(":memory:").unwrap();
    sync_index(&mut db, &[link("a/x"), link("b/y")], None, "/data", || {}).unwrap();

    // Rescan only /data/a, where x is gone and z is new: b/y stays.
    let (summary, deleted) = sync_index(&mut db, &[link("a/z")], Some("/data/a"), "/data", || {}).unwrap();
    assert_eq!(summary, ImportSummary { inserted: 1, updated: 0, unchanged: 0 });
    assert_eq!(deleted, 1);
    let mut paths: Vec<String> = db.all().unwrap().into_iter().map(|r| r.path).collect();
    paths.sort();
    assert_eq!(paths, vec!["a/z", "b/y"]);

    // A full rescan leaves exactly the scanned links.
    let (_, deleted) = sync_index(&mut db, &[link("c")], None, "/data", || {}).unwrap();
    assert_eq!(deleted, 2);
    let paths: Vec<String> = db.all().unwrap().into_iter().map(|r| r.path).collect();
    assert_eq!(paths, vec!["c"]);
}
