//! Persistence of validated symlinks: import with change detection, batch
//! import with a summary, pruning of entries the filesystem no longer has,
//! and the queries.
//!
//! Contracts speak of `Database::rows`, the table as a map from stored path
//! to (target, broken flag, first-import timestamp, id).
use vstd::prelude::*;

use rusqlite::Connection;
use vstd::hash_set::StringHashSet;

use crate::clock::unix_time_now;
use crate::path::{path_abs, path_comps, starts_with, starts_with_path};
use crate::sqlite::{
    begin_transaction, commit_transaction, committed_rows, count_rows, create_table, delete_row,
    has_table, in_transaction, insert_row, lists_rows, open_connection, opened_file,
    rollback_transaction, select_all, select_by_target, select_row, table_rows, update_row,
    StoredRow,
};
use crate::symlink::{LinkRecord, Symlink};
use crate::text::{owned, str_eq};

verus! {

/// A stored row: (target, broken flag, added_at, id).
pub type Row = (Seq<char>, i64, i64, i64);

/// Why a database operation failed.
#[derive(Debug)]
pub enum DatabaseError {
    /// The directory that should hold the database file could not be made.
    CreateParentDir(String),
    /// SQLite reported an error.
    Sqlite(rusqlite::Error),
}

/// The symlink index.
pub struct Database {
    conn: Connection,
}

/// One stored symlink, as returned by the queries.
#[derive(Debug)]
pub struct Record {
    pub id: i64,
    pub path: String,
    pub target: String,
    pub broken: bool,
    pub added_at: i64,
}

/// A record as mathematical values.
pub struct RecordView {
    pub id: i64,
    pub path: Seq<char>,
    pub target: Seq<char>,
    pub broken: bool,
    pub added_at: i64,
}

impl View for Record {
    type V = RecordView;

    open spec fn view(&self) -> RecordView {
        RecordView {
            id: self.id,
            path: self.path@,
            target: self.target@,
            broken: self.broken,
            added_at: self.added_at,
        }
    }
}

/// The record for the row stored under `path`.
pub open spec fn record_of(path: Seq<char>, row: Row) -> RecordView {
    RecordView { id: row.3, path, target: row.0, broken: row.1 != 0, added_at: row.2 }
}

/// What importing one symlink did to its row.
#[derive(Debug, PartialEq, Eq, Structural, Clone, Copy)]
pub enum ImportResult {
    Inserted,
    Updated,
    Unchanged,
}

/// How many symlinks of a batch were new, changed and unchanged.
#[derive(Debug, PartialEq, Eq, Structural)]
pub struct ImportSummary {
    pub inserted: usize,
    pub updated: usize,
    pub unchanged: usize,
}

impl Default for ImportSummary {
    fn default() -> (r: Self)
        ensures
            r.inserted == 0 && r.updated == 0 && r.unchanged == 0,
    {
        ImportSummary { inserted: 0, updated: 0, unchanged: 0 }
    }
}

/// The stored form of the broken status.
pub open spec fn broken_flag(b: bool) -> i64 {
    if b {
        1
    } else {
        0
    }
}

/// The outcome of importing one link into `rows`: new when its path is not
/// stored, unchanged when target and broken status are as stored.
pub open spec fn import_result(
    rows: Map<Seq<char>, Row>,
    path: Seq<char>,
    target: Seq<char>,
    broken: bool,
) -> ImportResult {
    if !rows.contains_key(path) {
        ImportResult::Inserted
    } else if rows[path].0 == target && (rows[path].1 != 0) == broken {
        ImportResult::Unchanged
    } else {
        ImportResult::Updated
    }
}

/// `after` is `before` with `path` stored with `target` and `broken`; a row
/// that existed keeps its id and timestamp, other rows are untouched.
pub open spec fn stores_link(
    before: Map<Seq<char>, Row>,
    after: Map<Seq<char>, Row>,
    path: Seq<char>,
    target: Seq<char>,
    broken: bool,
) -> bool {
    &&& after.dom() == before.dom().insert(path)
    &&& forall|p: Seq<char>| p != path && #[trigger] before.contains_key(p) ==> after[p] == before[p]
    &&& after[path].0 == target
    &&& after[path].1 == broken_flag(broken)
    &&& before.contains_key(path) ==> after[path].2 == before[path].2 && after[path].3
        == before[path].3
}

/// The views of a list of symlinks.
pub open spec fn link_views(s: Seq<Symlink>) -> Seq<LinkRecord> {
    s.map_values(|l: Symlink| l@)
}

/// Whether some link of the list has path `p`.
pub open spec fn mentions(links: Seq<LinkRecord>, p: Seq<char>) -> bool {
    exists|i: int| 0 <= i < links.len() && (#[trigger] links[i]).path == p
}

/// The (target, broken flag) stored for `p` after importing `links` in
/// order into `before`: that of the last link with path `p`, else what
/// `before` holds.
pub open spec fn current_entry(
    before: Map<Seq<char>, Row>,
    links: Seq<LinkRecord>,
    p: Seq<char>,
) -> Option<(Seq<char>, i64)>
    decreases links.len(),
{
    if links.len() == 0 {
        if before.contains_key(p) {
            Some((before[p].0, before[p].1))
        } else {
            None
        }
    } else if links.last().path == p {
        Some((links.last().target, broken_flag(links.last().broken)))
    } else {
        current_entry(before, links.drop_last(), p)
    }
}

/// (inserted, updated, unchanged) for importing `links` in order into
/// `before`: a link is new when its path was not stored before the batch,
/// unchanged when its target and broken flag equal what is stored at its
/// turn, updated otherwise.
pub open spec fn batch_counts(before: Map<Seq<char>, Row>, links: Seq<LinkRecord>) -> (nat, nat, nat)
    decreases links.len(),
{
    if links.len() == 0 {
        (0, 0, 0)
    } else {
        let c = batch_counts(before, links.drop_last());
        let l = links.last();
        if !before.contains_key(l.path) {
            (c.0 + 1, c.1, c.2)
        } else if current_entry(before, links.drop_last(), l.path) == Some(
            (l.target, broken_flag(l.broken)),
        ) {
            (c.0, c.1, c.2 + 1)
        } else {
            (c.0, c.1 + 1, c.2)
        }
    }
}

/// `after` is `before` with all of `links` imported in order: every
/// mentioned path stored with its last link's target and broken status,
/// existing rows keeping id and timestamp, unmentioned rows untouched.
pub open spec fn stores_batch(
    before: Map<Seq<char>, Row>,
    after: Map<Seq<char>, Row>,
    links: Seq<LinkRecord>,
) -> bool {
    &&& forall|p: Seq<char>| #[trigger]
        after.contains_key(p) <==> before.contains_key(p) || mentions(links, p)
    &&& forall|p: Seq<char>| #[trigger]
        after.contains_key(p) ==> current_entry(before, links, p) == Some((after[p].0, after[p].1))
    &&& forall|p: Seq<char>| #[trigger]
        before.contains_key(p) ==> after[p].2 == before[p].2 && after[p].3 == before[p].3
    &&& forall|p: Seq<char>| #[trigger]
        before.contains_key(p) && !mentions(links, p) ==> after[p] == before[p]
}

/// The paths of a list of strings, as a set.
pub open spec fn path_set(found: Seq<String>) -> Set<Seq<char>> {
    Set::new(|p: Seq<char>| exists|i: int| 0 <= i < found.len() && (#[trigger] found[i])@ == p)
}

/// Whether `p` lies in the pruning scope (everything when there is none).
pub open spec fn in_scope(p: Seq<char>, scope: Option<Seq<char>>) -> bool {
    match scope {
        None => true,
        Some(s) => starts_with_path(p, s),
    }
}

/// The stored paths that pruning removes: in scope and not found.
pub open spec fn stale_paths(
    rows: Map<Seq<char>, Row>,
    found: Set<Seq<char>>,
    scope: Option<Seq<char>>,
) -> Set<Seq<char>> {
    rows.dom().filter(|p: Seq<char>| in_scope(p, scope) && !found.contains(p))
}

/// `v` lists, once each, exactly the records of the rows whose path
/// satisfies `keep`.
pub open spec fn lists_records(
    v: Seq<Record>,
    rows: Map<Seq<char>, Row>,
    keep: spec_fn(Seq<char>) -> bool,
) -> bool {
    &&& forall|i: int|
        0 <= i < v.len() ==> #[trigger] rows.contains_key(v[i]@.path) && v[i]@ == record_of(
            v[i]@.path,
            rows[v[i]@.path],
        ) && keep(v[i]@.path)
    &&& forall|i: int, j: int|
        0 <= i < j < v.len() ==> (#[trigger] v[i]@.path) != (#[trigger] v[j]@.path)
    &&& forall|p: Seq<char>|
        #[trigger] rows.contains_key(p) && keep(p) ==> exists|i: int|
            0 <= i < v.len() && (#[trigger] v[i]@.path) == p
}

fn record_from(row: &StoredRow) -> (r: Record)
    ensures
        r@ == record_of(row@.0, row@.1),
{
    Record {
        id: row.id,
        path: owned(row.path.as_str()),
        target: owned(row.target.as_str()),
        broken: row.broken != 0,
        added_at: row.added_at,
    }
}

/// Turns listed rows into records, keeping the listing property.
fn records_from(
    rows: &Vec<StoredRow>,
    Ghost(m): Ghost<Map<Seq<char>, Row>>,
    Ghost(keep): Ghost<spec_fn(Seq<char>) -> bool>,
) -> (r: Vec<Record>)
    requires
        lists_rows(rows@, m, keep),
    ensures
        lists_records(r@, m, keep),
{
    let mut out: Vec<Record> = Vec::new();
    let mut i: usize = 0;
    while i < rows.len()
        invariant
            i <= rows.len(),
            out@.len() == i,
            lists_rows(rows@, m, keep),
            forall|k: int| 0 <= k < i ==> (#[trigger] out@[k])@ == record_of(rows@[k]@.0, rows@[k]@.1),
        decreases rows.len() - i,
    {
        let rec = record_from(&rows[i]);
        out.push(rec);
        i += 1;
    }
    assert forall|i: int| 0 <= i < out@.len() implies #[trigger] m.contains_key(out@[i]@.path)
        && out@[i]@ == record_of(out@[i]@.path, m[out@[i]@.path]) && keep(out@[i]@.path) by {
        assert(out@[i]@.path == rows@[i]@.0);
        assert(m.contains_key(rows@[i]@.0));
    }
    assert forall|i: int, j: int| 0 <= i < j < out@.len() implies (#[trigger] out@[i]@.path) != (
    #[trigger] out@[j]@.path) by {
        assert(out@[i]@.path == rows@[i]@.0);
        assert(out@[j]@.path == rows@[j]@.0);
    }
    assert forall|p: Seq<char>| #[trigger] m.contains_key(p) && keep(p) implies exists|i: int|
        0 <= i < out@.len() && (#[trigger] out@[i]@.path) == p by {
        let i = choose|i: int| 0 <= i < rows@.len() && (#[trigger] rows@[i]@.0) == p;
        assert(out@[i]@.path == p);
    }
    out
}

/// Wraps an SQLite error into the library's error.
fn sql<T>(r: Result<T, rusqlite::Error>) -> (out: Result<T, DatabaseError>)
    ensures
        r matches Ok(v) ==> out matches Ok(w) && w == v,
        r is Err ==> out matches Err(DatabaseError::Sqlite(_)),
{
    match r {
        Ok(v) => Ok(v),
        Err(e) => Err(DatabaseError::Sqlite(e)),
    }
}

impl Database {
    /// The stored rows, keyed by path.
    pub closed spec fn rows(&self) -> Map<Seq<char>, Row> {
        table_rows(self.conn)
    }

    /// The rows the database file durably holds.
    pub closed spec fn committed(&self) -> Map<Seq<char>, Row> {
        committed_rows(self.conn)
    }

    /// Whether a transaction is open.
    pub closed spec fn in_transaction(&self) -> bool {
        in_transaction(self.conn)
    }

    /// No transaction is open and every row is committed.
    pub open spec fn durable(&self) -> bool {
        !self.in_transaction() && self.committed() == self.rows()
    }

    /// Whether the symlink table exists.
    pub closed spec fn has_table(&self) -> bool {
        has_table(self.conn)
    }

    /// The path of the database file.
    pub closed spec fn file(&self) -> Seq<char> {
        opened_file(self.conn)
    }

    /// Opens (creating when needed) the database file at `path` and makes
    /// sure the symlink table exists. The directory that holds the file must
    /// exist. The rows are those the file already holds; `:memory:` opens a
    /// new, empty in-memory database.
    pub fn new(path: &str) -> (r: Result<Self, DatabaseError>)
        ensures
            r matches Ok(db) ==> {
                &&& db.rows().dom().finite()
                &&& db.file() == path@
                &&& db.has_table()
                &&& db.durable()
                &&& path@ == ":memory:"@ ==> db.rows() == Map::<Seq<char>, Row>::empty()
            },
            r matches Err(e) ==> e is Sqlite,
    {
        let mut conn = sql(open_connection(path))?;
        sql(create_table(&mut conn))?;
        Ok(Database { conn })
    }

    /// Stores `path` with `target` and `broken`, given the row read for it
    /// just before: a new row when there was none, else an update.
    fn store(&mut self, path: &str, target: &str, broken: bool, prev: &Option<StoredRow>) -> (r:
        Result<(), DatabaseError>)
        requires
            match prev {
                Some(row) => old(self).rows().contains_key(path@) && row@ == (
                    path@,
                    old(self).rows()[path@],
                ),
                None => !old(self).rows().contains_key(path@),
            },
        ensures
            r is Ok ==> stores_link(old(self).rows(), final(self).rows(), path@, target@, broken),
            r is Ok && old(self).durable() ==> final(self).durable(),
            r is Err ==> final(self).committed() == old(self).committed(),
            final(self).rows().dom().finite(),
            r matches Err(e) ==> e is Sqlite,
    {
        let flag: i64 = if broken {
            1
        } else {
            0
        };
        match prev {
            None => {
                let now = unix_time_now();
                sql(insert_row(&mut self.conn, path, target, flag, now))?;
            },
            Some(_) => {
                sql(update_row(&mut self.conn, path, target, flag))?;
            },
        }
        Ok(())
    }

    /// Imports one symlink: inserts its row, or updates target and broken
    /// status of the row stored under its path. Reports whether the row is
    /// new, changed or as it was.
    pub fn import(&mut self, symlink: &Symlink) -> (r: Result<ImportResult, DatabaseError>)
        ensures
            r matches Ok(res) ==> {
                &&& res == import_result(
                    old(self).rows(),
                    symlink@.path,
                    symlink@.target,
                    symlink@.broken,
                )
                &&& stores_link(
                    old(self).rows(),
                    final(self).rows(),
                    symlink@.path,
                    symlink@.target,
                    symlink@.broken,
                )
            },
            r is Ok && old(self).durable() ==> final(self).durable(),
            r is Err ==> final(self).committed() == old(self).committed(),
            old(self).rows().dom().finite() ==> final(self).rows().dom().finite(),
            r matches Err(e) ==> e is Sqlite,
    {
        let path = symlink.path();
        let target = symlink.target();
        let broken = symlink.broken();
        let prev = sql(select_row(&self.conn, path))?;
        let result = match &prev {
            None => ImportResult::Inserted,
            Some(row) => {
                if str_eq(row.target.as_str(), target) && (row.broken != 0) == broken {
                    ImportResult::Unchanged
                } else {
                    ImportResult::Updated
                }
            },
        };
        self.store(path, target, broken, &prev)?;
        Ok(result)
    }

    /// Imports all `symlinks` in one transaction; see `import_many_with`.
    pub fn import_many(&mut self, symlinks: &[Symlink]) -> (r: Result<ImportSummary, DatabaseError>)
        ensures
            r matches Ok(sum) ==> {
                let c = batch_counts(old(self).rows(), link_views(symlinks@));
                &&& sum.inserted == c.0
                &&& sum.updated == c.1
                &&& sum.unchanged == c.2
                &&& stores_batch(old(self).rows(), final(self).rows(), link_views(symlinks@))
                &&& final(self).durable()
            },
            r is Err ==> final(self).committed() == old(self).committed(),
            old(self).rows().dom().finite() ==> final(self).rows().dom().finite(),
            r matches Err(e) ==> e is Sqlite,
    {
        self.import_many_with(symlinks, || {})
    }

    /// Imports all `symlinks`, in order and in one transaction, calling
    /// `on_import` after each. A link counts as new when its path was not
    /// stored before the batch, as updated when its target or broken flag
    /// differ from what is stored at its turn, as unchanged otherwise; only
    /// new and updated links are written.
    pub fn import_many_with(&mut self, symlinks: &[Symlink], on_import: impl Fn()) -> (r: Result<
        ImportSummary,
        DatabaseError,
    >)
        requires
            on_import.requires(()),
        ensures
            r matches Ok(sum) ==> {
                let c = batch_counts(old(self).rows(), link_views(symlinks@));
                &&& sum.inserted == c.0
                &&& sum.updated == c.1
                &&& sum.unchanged == c.2
                &&& stores_batch(old(self).rows(), final(self).rows(), link_views(symlinks@))
                &&& final(self).durable()
            },
            r is Err ==> final(self).committed() == old(self).committed(),
            old(self).rows().dom().finite() ==> final(self).rows().dom().finite(),
            r matches Err(e) ==> e is Sqlite,
    {
        let ghost before = self.rows();
        let all = sql(select_all(&self.conn))?;
        let mut existing = StringHashSet::new();
        let mut k: usize = 0;
        while k < all.len()
            invariant
                k <= all.len(),
                self.rows() == before,
                lists_rows(all@, before, |p: Seq<char>| true),
                forall|p: Seq<char>|
                    #[trigger] existing@.contains(p) <==> exists|j: int|
                        0 <= j < k && (#[trigger] all@[j])@.0 == p,
            decreases all.len() - k,
        {
            let p = owned(all[k].path.as_str());
            existing.insert(p);
            proof {
                assert forall|q: Seq<char>| #[trigger] existing@.contains(q) <==> exists|j: int|
                    0 <= j < k + 1 && (#[trigger] all@[j])@.0 == q by {
                    if q == all@[k as int]@.0 {
                        assert(all@[k as int]@.0 == q);
                    }
                }
            }
            k += 1;
        }
        proof {
            assert forall|p: Seq<char>| #[trigger] existing@.contains(p) <==> before.contains_key(p) by {
                if before.contains_key(p) {
                    let j = choose|j: int| 0 <= j < all@.len() && (#[trigger] all@[j])@.0 == p;
                }
            }
        }
        let ghost c0 = self.committed();
        sql(begin_transaction(&mut self.conn))?;
        let ghost links = link_views(symlinks@);
        let mut inserted: usize = 0;
        let mut updated: usize = 0;
        let mut unchanged: usize = 0;
        let mut i: usize = 0;
        while i < symlinks.len()
            invariant
                i <= symlinks.len(),
                links == link_views(symlinks@),
                on_import.requires(()),
                forall|p: Seq<char>| #[trigger] existing@.contains(p) <==> before.contains_key(p),
                stores_batch(before, self.rows(), links.take(i as int)),
                batch_counts(before, links.take(i as int)) == (
                    inserted as nat,
                    updated as nat,
                    unchanged as nat,
                ),
                inserted + updated + unchanged == i,
                in_transaction(self.conn),
                self.committed() == c0,
                c0 == old(self).committed(),
                self.rows().dom().finite(),
            decreases symlinks.len() - i,
        {
            let link = &symlinks[i];
            let path = link.path();
            let target = link.target();
            let broken = link.broken();
            let ghost rows_now = self.rows();
            let ghost pre = links.take(i as int);
            let prev = match select_row(&self.conn, path) {
                Ok(p) => p,
                Err(e) => {
                    let _ = rollback_transaction(&mut self.conn);
                    return Err(DatabaseError::Sqlite(e));
                },
            };
            let flag: i64 = if broken {
                1
            } else {
                0
            };
            let changed = match &prev {
                None => true,
                Some(row) => !(str_eq(row.target.as_str(), target) && row.broken == flag),
            };
            proof {
                assert(links[i as int] == symlinks@[i as int]@);
                assert(links.take(i + 1).drop_last() =~= pre);
                assert(links.take(i + 1).last() == links[i as int]);
                lemma_current_entry_stored(before, rows_now, pre, path@);
            }
            if changed {
                let stored = match prev {
                    None => {
                        let now = unix_time_now();
                        sql(insert_row(&mut self.conn, path, target, flag, now))
                    },
                    Some(_) => sql(update_row(&mut self.conn, path, target, flag)),
                };
                if stored.is_err() {
                    let _ = rollback_transaction(&mut self.conn);
                    return Err(stored.unwrap_err());
                }
            }
            proof {
                lemma_batch_step(before, rows_now, self.rows(), pre, links[i as int], changed);
            }
            if existing.contains(path) {
                if changed {
                    updated += 1;
                } else {
                    unchanged += 1;
                }
            } else {
                inserted += 1;
            }
            on_import();
            i += 1;
        }
        proof {
            assert(links.take(symlinks.len() as int) =~= links);
        }
        match commit_transaction(&mut self.conn) {
            Ok(()) => {},
            Err(e) => {
                let _ = rollback_transaction(&mut self.conn);
                return Err(DatabaseError::Sqlite(e));
            },
        }
        Ok(ImportSummary { inserted, updated, unchanged })
    }
}

/// The set of the given paths, for fast membership tests.
fn found_path_set(found: &[String]) -> (set: StringHashSet)
    ensures
        set@ == path_set(found@),
{
    let mut set = StringHashSet::new();
    let mut k: usize = 0;
    while k < found.len()
        invariant
            k <= found.len(),
            forall|p: Seq<char>|
                #[trigger] set@.contains(p) <==> exists|j: int| 0 <= j < k && (#[trigger] found@[j])@ == p,
        decreases found.len() - k,
    {
        set.insert(owned(found[k].as_str()));
        proof {
            assert forall|q: Seq<char>| #[trigger] set@.contains(q) <==> exists|j: int|
                0 <= j < k + 1 && (#[trigger] found@[j])@ == q by {
                if q == found@[k as int]@ {
                    assert(found@[k as int]@ == q);
                }
            }
        }
        k += 1;
    }
    assert(set@ =~= path_set(found@));
    set
}

/// Whether `p` lies in the pruning scope.
fn scope_holds(p: &str, scope: Option<&str>) -> (r: bool)
    ensures
        r == in_scope(
            p@,
            match scope {
                Some(s) => Some(s@),
                None => None,
            },
        ),
{
    match scope {
        None => true,
        Some(s) => starts_with(p, s),
    }
}

proof fn lemma_stale_member(
    rows: Map<Seq<char>, Row>,
    found: Set<Seq<char>>,
    scope: Option<Seq<char>>,
    p: Seq<char>,
)
    ensures
        stale_paths(rows, found, scope).contains(p) == (rows.contains_key(p) && in_scope(p, scope)
            && !found.contains(p)),
{
}

/// The paths of `s` that are in scope and not found, in order.
pub open spec fn stale_in(
    s: Seq<Seq<char>>,
    found: Set<Seq<char>>,
    scope: Option<Seq<char>>,
) -> Seq<Seq<char>>
    decreases s.len(),
{
    if s.len() == 0 {
        Seq::empty()
    } else {
        let r = stale_in(s.drop_last(), found, scope);
        if in_scope(s.last(), scope) && !found.contains(s.last()) {
            r.push(s.last())
        } else {
            r
        }
    }
}

proof fn lemma_stale_in(s: Seq<Seq<char>>, found: Set<Seq<char>>, scope: Option<Seq<char>>)
    ensures
        forall|p: Seq<char>|
            #[trigger] stale_in(s, found, scope).contains(p) <==> s.contains(p) && in_scope(p, scope)
                && !found.contains(p),
        s.no_duplicates() ==> stale_in(s, found, scope).no_duplicates(),
    decreases s.len(),
{
    if s.len() > 0 {
        let d = s.drop_last();
        lemma_stale_in(d, found, scope);
        let r = stale_in(d, found, scope);
        assert forall|p: Seq<char>| s.contains(p) <==> d.contains(p) || p == s.last() by {
            if s.contains(p) {
                let k = choose|k: int| 0 <= k < s.len() && s[k] == p;
                if k < d.len() {
                    assert(d[k] == p);
                }
            }
            if d.contains(p) {
                let k = choose|k: int| 0 <= k < d.len() && d[k] == p;
                assert(s[k] == p);
            }
            if p == s.last() {
                assert(s[s.len() - 1] == p);
            }
        }
        if in_scope(s.last(), scope) && !found.contains(s.last()) {
            assert forall|p: Seq<char>| #[trigger] r.push(s.last()).contains(p) <==> r.contains(p)
                || p == s.last() by {
                if r.push(s.last()).contains(p) {
                    let k = choose|k: int| 0 <= k < r.len() + 1 && r.push(s.last())[k] == p;
                    if k < r.len() {
                        assert(r[k] == p);
                    }
                }
                if r.contains(p) {
                    let k = choose|k: int| 0 <= k < r.len() && r[k] == p;
                    assert(r.push(s.last())[k] == p);
                }
                if p == s.last() {
                    assert(r.push(s.last())[r.len() as int] == p);
                }
            }
            if s.no_duplicates() {
                assert(d.no_duplicates()) by {
                    assert forall|i: int, j: int|
                        0 <= i < d.len() && 0 <= j < d.len() && i != j implies d[i] != d[j] by {
                        assert(d[i] == s[i] && d[j] == s[j]);
                    }
                }
                assert(!d.contains(s.last())) by {
                    if d.contains(s.last()) {
                        let k = choose|k: int| 0 <= k < d.len() && d[k] == s.last();
                        assert(s[k] == s[s.len() - 1]);
                    }
                }
                assert(!r.contains(s.last()));
                let rp = r.push(s.last());
                assert forall|i: int, j: int|
                    0 <= i < rp.len() && 0 <= j < rp.len() && i != j implies rp[i] != rp[j] by {
                    if i < r.len() && j < r.len() {
                        assert(rp[i] == r[i] && rp[j] == r[j]);
                    } else if i < r.len() {
                        assert(rp[i] == r[i]);
                    } else if j < r.len() {
                        assert(rp[j] == r[j]);
                    }
                }
            }
        } else {
            if s.no_duplicates() {
                assert(d.no_duplicates()) by {
                    assert forall|i: int, j: int|
                        0 <= i < d.len() && 0 <= j < d.len() && i != j implies d[i] != d[j] by {
                        assert(d[i] == s[i] && d[j] == s[j]);
                    }
                }
            }
        }
    }
}

/// The paths of the listed rows.
pub open spec fn row_paths(v: Seq<StoredRow>) -> Seq<Seq<char>> {
    v.map_values(|r: StoredRow| r@.0)
}

/// The listed paths that are in scope and not found, each once.
fn collect_stale(
    all: &Vec<StoredRow>,
    found_set: &StringHashSet,
    scope: Option<&str>,
    Ghost(rows): Ghost<Map<Seq<char>, Row>>,
) -> (stale: Vec<String>)
    requires
        lists_rows(all@, rows, |p: Seq<char>| true),
    ensures
        ({
            let sv = stale@.map_values(|x: String| x@);
            let sc = match scope {
                Some(s) => Some(s@),
                None => None,
            };
            &&& sv.no_duplicates()
            &&& sv.to_set() == stale_paths(rows, found_set@, sc)
        }),
{
    let ghost sc: Option<Seq<char>> = match scope {
        Some(s) => Some(s@),
        None => None,
    };
    let ghost paths = row_paths(all@);
    let mut stale: Vec<String> = Vec::new();
    let mut i: usize = 0;
    proof {
        assert(stale@.map_values(|x: String| x@) =~= stale_in(paths.take(0), found_set@, sc));
    }
    while i < all.len()
        invariant
            i <= all.len(),
            paths == row_paths(all@),
            sc == match scope {
                Some(s) => Some(s@),
                None => None,
            },
            stale@.map_values(|x: String| x@) == stale_in(paths.take(i as int), found_set@, sc),
        decreases all.len() - i,
    {
        let p = all[i].path.as_str();
        let keep_it = scope_holds(p, scope) && !found_set.contains(p);
        let ghost before = stale@;
        proof {
            assert(paths[i as int] == all@[i as int]@.0);
            assert(paths.take(i + 1).drop_last() =~= paths.take(i as int));
            assert(paths.take(i + 1).last() == p@);
            assert(keep_it == (in_scope(p@, sc) && !found_set@.contains(p@)));
            assert(stale_in(paths.take(i + 1), found_set@, sc) == if keep_it {
                stale_in(paths.take(i as int), found_set@, sc).push(p@)
            } else {
                stale_in(paths.take(i as int), found_set@, sc)
            });
        }
        if keep_it {
            stale.push(owned(p));
            proof {
                assert(stale@.map_values(|x: String| x@) =~= before.map_values(|x: String| x@).push(
                    p@,
                ));
            }
        }
        i += 1;
    }
    let ghost sv = stale@.map_values(|x: String| x@);
    proof {
        assert(paths.take(all.len() as int) =~= paths);
        lemma_stale_in(paths, found_set@, sc);
        assert(paths.no_duplicates()) by {
            assert forall|a: int, b: int|
                0 <= a < paths.len() && 0 <= b < paths.len() && a != b implies paths[a] != paths[b] by {
                if a < b {
                    assert(all@[a]@.0 != all@[b]@.0);
                } else {
                    assert(all@[b]@.0 != all@[a]@.0);
                }
            }
        }
        assert forall|p: Seq<char>| sv.to_set().contains(p) <==> stale_paths(
            rows,
            found_set@,
            sc,
        ).contains(p) by {
            lemma_stale_member(rows, found_set@, sc, p);
            if rows.contains_key(p) {
                let m = choose|m: int| 0 <= m < all@.len() && (#[trigger] all@[m])@.0 == p;
                assert(paths[m] == p);
            }
            if paths.contains(p) {
                let m = choose|m: int| 0 <= m < paths.len() && paths[m] == p;
                assert(all@[m]@.0 == p);
                assert(rows.contains_key(all@[m]@.0));
            }
        }
        assert(sv.to_set() =~= stale_paths(rows, found_set@, sc));
    }
    stale
}

proof fn lemma_take_push_set(sv: Seq<Seq<char>>, d: int)
    requires
        0 <= d < sv.len(),
    ensures
        sv.take(d + 1).to_set() == sv.take(d).to_set().insert(sv[d]),
{
    assert forall|p: Seq<char>| sv.take(d + 1).to_set().contains(p) <==> sv.take(d).to_set().insert(
        sv[d],
    ).contains(p) by {
        if sv.take(d + 1).contains(p) {
            let k = choose|k: int| 0 <= k < d + 1 && #[trigger] sv.take(d + 1)[k] == p;
            if k < d {
                assert(sv.take(d)[k] == p);
            }
        }
        if sv.take(d).contains(p) {
            let k = choose|k: int| 0 <= k < d && #[trigger] sv.take(d)[k] == p;
            assert(sv.take(d + 1)[k] == p);
        }
        if p == sv[d] {
            assert(sv.take(d + 1)[d] == p);
        }
    }
    assert(sv.take(d + 1).to_set() =~= sv.take(d).to_set().insert(sv[d]));
}

impl Database {
    /// Deletes the rows whose path is in scope (below `scope`, or anywhere
    /// when there is none) and not among `found`, in one transaction.
    /// Returns how many rows were deleted.
    pub fn remove_missing(&mut self, found: &[String], scope: Option<&str>) -> (r: Result<
        usize,
        DatabaseError,
    >)
        ensures
            r matches Ok(n) ==> {
                let stale = stale_paths(
                    old(self).rows(),
                    path_set(found@),
                    match scope {
                        Some(s) => Some(s@),
                        None => None,
                    },
                );
                &&& final(self).rows() == old(self).rows().remove_keys(stale)
                &&& n == stale.len()
            },
            r is Ok && old(self).durable() ==> final(self).durable(),
            r is Err ==> final(self).committed() == old(self).committed(),
            old(self).rows().dom().finite() ==> final(self).rows().dom().finite(),
            r matches Err(e) ==> e is Sqlite,
    {
        let ghost before = self.rows();
        let all = sql(select_all(&self.conn))?;
        let found_set = found_path_set(found);
        let stale = collect_stale(&all, &found_set, scope, Ghost(before));
        let ghost sv = stale@.map_values(|x: String| x@);
        proof {
            sv.unique_seq_to_set();
        }
        if stale.len() == 0 {
            proof {
                assert(sv.to_set() =~= Set::<Seq<char>>::empty());
                assert(before.remove_keys(sv.to_set()) =~= before);
            }
            return Ok(0);
        }
        let ghost c0 = self.committed();
        sql(begin_transaction(&mut self.conn))?;
        let mut d: usize = 0;
        proof {
            assert(sv.take(0).to_set() =~= Set::<Seq<char>>::empty());
            assert(before.remove_keys(sv.take(0).to_set()) =~= before);
        }
        while d < stale.len()
            invariant
                d <= stale.len(),
                sv == stale@.map_values(|x: String| x@),
                self.rows() == before.remove_keys(sv.take(d as int).to_set()),
                in_transaction(self.conn),
                self.committed() == c0,
                c0 == old(self).committed(),
            decreases stale.len() - d,
        {
            match delete_row(&mut self.conn, stale[d].as_str()) {
                Ok(_) => {},
                Err(e) => {
                    let _ = rollback_transaction(&mut self.conn);
                    return Err(DatabaseError::Sqlite(e));
                },
            }
            proof {
                lemma_take_push_set(sv, d as int);
                assert(self.rows() =~= before.remove_keys(sv.take(d + 1).to_set()));
            }
            d += 1;
        }
        proof {
            assert(sv.take(stale.len() as int) =~= sv);
        }
        match commit_transaction(&mut self.conn) {
            Ok(()) => {},
            Err(e) => {
                let _ = rollback_transaction(&mut self.conn);
                return Err(DatabaseError::Sqlite(e));
            },
        }
        Ok(stale.len())
    }

    /// The rows whose target is `target`, each once, in an order SQLite
    /// chooses.
    pub fn find_by_target(&self, target: &str) -> (r: Result<Vec<Record>, DatabaseError>)
        ensures
            r matches Ok(v) ==> lists_records(
                v@,
                self.rows(),
                |p: Seq<char>| self.rows()[p].0 == target@,
            ),
            r matches Err(e) ==> e is Sqlite,
    {
        let rows = sql(select_by_target(&self.conn, target))?;
        Ok(records_from(&rows, Ghost(self.rows()), Ghost(|p: Seq<char>| self.rows()[p].0 == target@)))
    }

    /// The row stored under `path`, if any.
    pub fn find_by_path(&self, path: &str) -> (r: Result<Option<Record>, DatabaseError>)
        ensures
            r matches Ok(o) ==> match o {
                Some(rec) => self.rows().contains_key(path@) && rec@ == record_of(
                    path@,
                    self.rows()[path@],
                ),
                None => !self.rows().contains_key(path@),
            },
            r matches Err(e) ==> e is Sqlite,
    {
        match sql(select_row(&self.conn, path))? {
            Some(row) => Ok(Some(record_from(&row))),
            None => Ok(None),
        }
    }

    /// Every row, once, in an order SQLite chooses.
    pub fn all(&self) -> (r: Result<Vec<Record>, DatabaseError>)
        ensures
            r matches Ok(v) ==> lists_records(v@, self.rows(), |p: Seq<char>| true),
            r matches Err(e) ==> e is Sqlite,
    {
        let rows = sql(select_all(&self.conn))?;
        Ok(records_from(&rows, Ghost(self.rows()), Ghost(|p: Seq<char>| true)))
    }

    /// The number of rows.
    pub fn count(&self) -> (r: Result<usize, DatabaseError>)
        ensures
            r matches Ok(n) ==> self.rows().len() <= usize::MAX ==> n == self.rows().len(),
            r matches Err(e) ==> e is Sqlite,
    {
        let n = sql(count_rows(&self.conn))?;
        let c: usize = #[verifier::truncate]
        (n as usize);
        Ok(c)
    }
}

/// During a batch, a path that is stored has the (target, flag) that the
/// batch so far says, and a path that is not stored is neither in `before`
/// nor mentioned.
proof fn lemma_current_entry_stored(
    before: Map<Seq<char>, Row>,
    rows: Map<Seq<char>, Row>,
    links: Seq<LinkRecord>,
    p: Seq<char>,
)
    requires
        stores_batch(before, rows, links),
    ensures
        rows.contains_key(p) ==> current_entry(before, links, p) == Some((rows[p].0, rows[p].1)),
        !rows.contains_key(p) ==> !before.contains_key(p) && current_entry(before, links, p) is None,
{
    if !rows.contains_key(p) {
        lemma_current_entry_none(before, links, p);
    }
}

/// A path that is neither stored before nor mentioned has no entry.
proof fn lemma_current_entry_none(before: Map<Seq<char>, Row>, links: Seq<LinkRecord>, p: Seq<char>)
    requires
        !before.contains_key(p),
        !mentions(links, p),
    ensures
        current_entry(before, links, p) is None,
    decreases links.len(),
{
    if links.len() > 0 {
        assert(links[links.len() - 1] == links.last());
        assert(!mentions(links.drop_last(), p)) by {
            if mentions(links.drop_last(), p) {
                let i = choose|i: int| 0 <= i < links.drop_last().len() && (#[trigger] links.drop_last()[i]).path == p;
                assert(links[i] == links.drop_last()[i]);
            }
        }
        lemma_current_entry_none(before, links.drop_last(), p);
    }
}

/// One step of a batch keeps `stores_batch`.
proof fn lemma_batch_step(
    before: Map<Seq<char>, Row>,
    rows: Map<Seq<char>, Row>,
    after: Map<Seq<char>, Row>,
    links: Seq<LinkRecord>,
    l: LinkRecord,
    changed: bool,
)
    requires
        stores_batch(before, rows, links),
        changed ==> stores_link(rows, after, l.path, l.target, l.broken),
        !changed ==> after == rows && rows.contains_key(l.path) && rows[l.path].0 == l.target
            && rows[l.path].1 == broken_flag(l.broken),
    ensures
        stores_batch(before, after, links.push(l)),
{
    let nl = links.push(l);
    assert(nl.drop_last() =~= links);
    assert(nl.last() == l);
    assert forall|p: Seq<char>| #[trigger] mentions(nl, p) <==> mentions(links, p) || p == l.path by {
        if mentions(nl, p) {
            let i = choose|i: int| 0 <= i < nl.len() && (#[trigger] nl[i]).path == p;
            if i < links.len() {
                assert(nl[i] == links[i]);
            }
        }
        if mentions(links, p) {
            let i = choose|i: int| 0 <= i < links.len() && (#[trigger] links[i]).path == p;
            assert(nl[i] == links[i]);
        }
        if p == l.path {
            assert(nl[links.len() as int] == l);
        }
    }
    assert forall|p: Seq<char>| #[trigger] after.contains_key(p) implies current_entry(
        before,
        nl,
        p,
    ) == Some((after[p].0, after[p].1)) by {
        if p != l.path {
            if changed {
                assert(rows.contains_key(p));
            }
        }
    }
    assert forall|p: Seq<char>| #[trigger] before.contains_key(p) implies after[p].2 == before[p].2
        && after[p].3 == before[p].3 by {
        assert(rows.contains_key(p));
    }
    assert forall|p: Seq<char>| #[trigger]
        after.contains_key(p) <==> before.contains_key(p) || mentions(nl, p) by {
        if changed {
            assert(after.dom().contains(p) == rows.dom().insert(l.path).contains(p));
        }
    }
    assert forall|p: Seq<char>| #[trigger]
        before.contains_key(p) && !mentions(nl, p) implies after[p] == before[p] by {
        assert(rows.contains_key(p));
        assert(p != l.path);
    }
}

} // verus!

verus! {

// ---------------------------------------------------------------------------
// Laws

/// After a link is stored, reading its path back gives the stored target
/// and broken status.
pub proof fn law_import_read_back(
    before: Map<Seq<char>, Row>,
    after: Map<Seq<char>, Row>,
    path: Seq<char>,
    target: Seq<char>,
    broken: bool,
)
    requires
        stores_link(before, after, path, target, broken),
    ensures
        after.contains_key(path),
        record_of(path, after[path]).target == target,
        record_of(path, after[path]).broken == broken,
        record_of(path, after[path]).path == path,
{
    assert(after.dom().contains(path));
}

/// Importing the same link a second time reports it unchanged and leaves
/// the table exactly as the first import left it.
pub proof fn law_reimport_changes_nothing(
    before: Map<Seq<char>, Row>,
    mid: Map<Seq<char>, Row>,
    after: Map<Seq<char>, Row>,
    path: Seq<char>,
    target: Seq<char>,
    broken: bool,
)
    requires
        stores_link(before, mid, path, target, broken),
        stores_link(mid, after, path, target, broken),
    ensures
        import_result(mid, path, target, broken) == ImportResult::Unchanged,
        after == mid,
{
    assert(mid.dom().contains(path));
    assert(after.dom() =~= mid.dom());
    assert(after[path] == mid[path]);
    assert(after =~= mid);
}

/// Importing one link reports `Inserted` exactly for a path with no row.
/// For a stored row, the report is `Unchanged` only when the stored target
/// and the stored broken status both equal the link's; a stored row whose
/// target differs, or whose broken status differs, is reported `Updated`.
pub proof fn law_import_reports_changes(
    rows: Map<Seq<char>, Row>,
    path: Seq<char>,
    target: Seq<char>,
    broken: bool,
)
    ensures
        (import_result(rows, path, target, broken) == ImportResult::Inserted) <==> !rows.contains_key(
            path,
        ),
        rows.contains_key(path) && rows[path].0 != target ==> import_result(
            rows,
            path,
            target,
            broken,
        ) == ImportResult::Updated,
        rows.contains_key(path) && (rows[path].1 != 0) != broken ==> import_result(
            rows,
            path,
            target,
            broken,
        ) == ImportResult::Updated,
        import_result(rows, path, target, broken) == ImportResult::Unchanged ==> {
            &&& rows.contains_key(path)
            &&& rows[path].0 == target
            &&& (rows[path].1 != 0) == broken
        },
{
}

/// How one more link changes the counts of a batch, in terms of the table
/// the batch so far has left (`mid`): a path not stored before the batch is
/// new; a stored one is unchanged only when the target and broken flag
/// stored at its turn both equal the link's, and updated when either
/// differs.
pub proof fn law_batch_counts_step(
    before: Map<Seq<char>, Row>,
    mid: Map<Seq<char>, Row>,
    links: Seq<LinkRecord>,
    l: LinkRecord,
)
    requires
        stores_batch(before, mid, links),
    ensures
        ({
            let c = batch_counts(before, links);
            let d = batch_counts(before, links.push(l));
            &&& !before.contains_key(l.path) ==> d == (c.0 + 1, c.1, c.2)
            &&& before.contains_key(l.path) && (mid[l.path].0 != l.target || mid[l.path].1
                != broken_flag(l.broken)) ==> d == (c.0, c.1 + 1, c.2)
            &&& before.contains_key(l.path) && mid[l.path].0 == l.target && mid[l.path].1
                == broken_flag(l.broken) ==> d == (c.0, c.1, c.2 + 1)
        }),
{
    let nl = links.push(l);
    assert(nl.drop_last() =~= links);
    assert(nl.last() == l);
    lemma_current_entry_stored(before, mid, links, l.path);
}

/// Pruning with a scope deletes only rows whose path lies in the scope's
/// subtree: same rootedness, and the scope's components are the first
/// components of the row's path (so scope `docs` never deletes
/// `docs-old/l`); and only rows whose path was not found.
pub proof fn law_prune_stays_in_scope(
    before: Map<Seq<char>, Row>,
    after: Map<Seq<char>, Row>,
    found: Set<Seq<char>>,
    scope: Seq<char>,
)
    requires
        after == before.remove_keys(stale_paths(before, found, Some(scope))),
    ensures
        forall|p: Seq<char>| #[trigger] before.contains_key(p) && !after.contains_key(p) ==> {
            &&& path_abs(p) == path_abs(scope)
            &&& path_comps(scope).len() <= path_comps(p).len()
            &&& path_comps(p).take(path_comps(scope).len() as int) == path_comps(scope)
            &&& !found.contains(p)
        },
{
    assert forall|p: Seq<char>| #[trigger] before.contains_key(p) && !after.contains_key(p) implies {
        &&& path_abs(p) == path_abs(scope)
        &&& path_comps(scope).len() <= path_comps(p).len()
        &&& path_comps(p).take(path_comps(scope).len() as int) == path_comps(scope)
        &&& !found.contains(p)
    } by {
        lemma_stale_member(before, found, Some(scope), p);
    }
}

/// Every link of a batch is counted exactly once.
pub proof fn law_batch_counts_total(before: Map<Seq<char>, Row>, links: Seq<LinkRecord>)
    ensures
        batch_counts(before, links).0 + batch_counts(before, links).1 + batch_counts(
            before,
            links,
        ).2 == links.len(),
    decreases links.len(),
{
    if links.len() > 0 {
        law_batch_counts_total(before, links.drop_last());
    }
}

/// For a path that some link mentions, the stored entry is the last such
/// link's, whatever the table held before.
proof fn lemma_entry_of_mentioned(
    before: Map<Seq<char>, Row>,
    links: Seq<LinkRecord>,
    p: Seq<char>,
)
    requires
        mentions(links, p),
    ensures
        current_entry(before, links, p) == current_entry(Map::empty(), links, p),
        current_entry(before, links, p) is Some,
    decreases links.len(),
{
    if links.last().path != p {
        let i = choose|i: int| 0 <= i < links.len() && (#[trigger] links[i]).path == p;
        assert(i != links.len() - 1);
        assert(links.drop_last()[i] == links[i]);
        lemma_entry_of_mentioned(before, links.drop_last(), p);
    }
}

/// Pruning leaves no in-scope row whose path was not found, and leaves
/// every other row as it was.
pub proof fn law_prune_leaves_only_found(
    before: Map<Seq<char>, Row>,
    after: Map<Seq<char>, Row>,
    found: Set<Seq<char>>,
    scope: Option<Seq<char>>,
)
    requires
        after == before.remove_keys(stale_paths(before, found, scope)),
    ensures
        forall|p: Seq<char>| #[trigger] after.contains_key(p) && in_scope(p, scope) ==> found.contains(p),
        forall|p: Seq<char>|
            #[trigger] before.contains_key(p) && (!in_scope(p, scope) || found.contains(p))
                ==> after.contains_key(p) && after[p] == before[p],
{
    assert forall|p: Seq<char>| #[trigger] after.contains_key(p) && in_scope(p, scope) implies found.contains(p) by {
        lemma_stale_member(before, found, scope, p);
    }
    assert forall|p: Seq<char>|
        #[trigger] before.contains_key(p) && (!in_scope(p, scope) || found.contains(p))
            implies after.contains_key(p) && after[p] == before[p] by {
        lemma_stale_member(before, found, scope, p);
    }
}

/// The table is derived state: importing the links of a full scan and then
/// pruning everything the scan did not find leaves exactly one row per
/// scanned path, holding its last link's target and broken status, no
/// matter what the table held before.
pub proof fn law_sync_rebuilds_index(
    before: Map<Seq<char>, Row>,
    mid: Map<Seq<char>, Row>,
    after: Map<Seq<char>, Row>,
    links: Seq<LinkRecord>,
    found: Set<Seq<char>>,
)
    requires
        stores_batch(before, mid, links),
        forall|p: Seq<char>| #[trigger] found.contains(p) <==> mentions(links, p),
        after == mid.remove_keys(stale_paths(mid, found, None)),
    ensures
        forall|p: Seq<char>| #[trigger] after.contains_key(p) <==> mentions(links, p),
        forall|p: Seq<char>|
            #[trigger] after.contains_key(p) ==> current_entry(Map::empty(), links, p) == Some(
                (after[p].0, after[p].1),
            ),
{
    law_prune_leaves_only_found(mid, after, found, None);
    assert forall|p: Seq<char>| #[trigger] after.contains_key(p) <==> mentions(links, p) by {
        lemma_stale_member(mid, found, None, p);
    }
    assert forall|p: Seq<char>| #[trigger] after.contains_key(p) implies current_entry(
        Map::empty(),
        links,
        p,
    ) == Some((after[p].0, after[p].1)) by {
        lemma_stale_member(mid, found, None, p);
        lemma_entry_of_mentioned(before, links, p);
    }
}

/// An entry that a batch alone gives a path comes from a link with that path.
pub proof fn lemma_entry_from_link(links: Seq<LinkRecord>, p: Seq<char>)
    requires
        current_entry(Map::empty(), links, p) is Some,
    ensures
        exists|i: int|
            0 <= i < links.len() && (#[trigger] links[i]).path == p && links[i].target == (current_entry(
                Map::empty(),
                links,
                p,
            )->0).0,
    decreases links.len(),
{
    if links.len() > 0 {
        if links.last().path == p {
            assert(links[links.len() - 1] == links.last());
        } else {
            lemma_entry_from_link(links.drop_last(), p);
            let i = choose|i: int|
                0 <= i < links.drop_last().len() && (#[trigger] links.drop_last()[i]).path == p
                    && links.drop_last()[i].target == (current_entry(
                    Map::empty(),
                    links.drop_last(),
                    p,
                )->0).0;
            assert(links[i] == links.drop_last()[i]);
        }
    }
}

/// A path that no link mentions keeps the entry the table gives it.
proof fn lemma_entry_unmentioned(m: Map<Seq<char>, Row>, links: Seq<LinkRecord>, p: Seq<char>)
    requires
        !mentions(links, p),
    ensures
        current_entry(m, links, p) == if m.contains_key(p) {
            Some((m[p].0, m[p].1))
        } else {
            None
        },
    decreases links.len(),
{
    if links.len() > 0 {
        assert(links[links.len() - 1] == links.last());
        assert(!mentions(links.drop_last(), p)) by {
            if mentions(links.drop_last(), p) {
                let i = choose|i: int|
                    0 <= i < links.drop_last().len() && (#[trigger] links.drop_last()[i]).path == p;
                assert(links[i] == links.drop_last()[i]);
            }
        }
        lemma_entry_unmentioned(m, links.drop_last(), p);
    }
}

/// The entry of a path that exactly one link mentions is that link's.
proof fn lemma_entry_unique(before: Map<Seq<char>, Row>, links: Seq<LinkRecord>, k: int)
    requires
        0 <= k < links.len(),
        forall|j: int| 0 <= j < links.len() && j != k ==> (#[trigger] links[j]).path != links[k].path,
    ensures
        current_entry(before, links, links[k].path) == Some(
            (links[k].target, broken_flag(links[k].broken)),
        ),
    decreases links.len(),
{
    if k != links.len() - 1 {
        let d = links.drop_last();
        assert(links[links.len() - 1] == links.last());
        assert(d[k] == links[k]);
        assert forall|j: int| 0 <= j < d.len() && j != k implies (#[trigger] d[j]).path != d[k].path by {
            assert(d[j] == links[j]);
        }
        lemma_entry_unique(before, d, k);
    }
}

proof fn lemma_reimport_prefix(
    before: Map<Seq<char>, Row>,
    mid: Map<Seq<char>, Row>,
    links: Seq<LinkRecord>,
    n: int,
)
    requires
        stores_batch(before, mid, links),
        forall|i: int, j: int|
            0 <= i < links.len() && 0 <= j < links.len() && i != j ==> (#[trigger] links[i]).path
                != (#[trigger] links[j]).path,
        0 <= n <= links.len(),
    ensures
        batch_counts(mid, links.take(n)) == (0nat, 0nat, n as nat),
    decreases n,
{
    if n > 0 {
        lemma_reimport_prefix(before, mid, links, n - 1);
        let pre = links.take(n - 1);
        let l = links[n - 1];
        assert(links.take(n).drop_last() =~= pre);
        assert(links.take(n).last() == l);
        assert(mentions(links, l.path));
        assert(mid.contains_key(l.path));
        assert(!mentions(pre, l.path)) by {
            if mentions(pre, l.path) {
                let i = choose|i: int| 0 <= i < pre.len() && (#[trigger] pre[i]).path == l.path;
                assert(pre[i] == links[i]);
            }
        }
        lemma_entry_unmentioned(mid, pre, l.path);
        lemma_entry_unique(before, links, n - 1);
    }
}

/// Importing a batch whose links have distinct paths a second time reports
/// every link unchanged.
pub proof fn law_reimport_batch_unchanged(
    before: Map<Seq<char>, Row>,
    mid: Map<Seq<char>, Row>,
    links: Seq<LinkRecord>,
)
    requires
        stores_batch(before, mid, links),
        forall|i: int, j: int|
            0 <= i < links.len() && 0 <= j < links.len() && i != j ==> (#[trigger] links[i]).path
                != (#[trigger] links[j]).path,
    ensures
        batch_counts(mid, links) == (0nat, 0nat, links.len()),
{
    lemma_reimport_prefix(before, mid, links, links.len() as int);
    assert(links.take(links.len() as int) =~= links);
}

/// In a state with finitely many rows, the number `count` reports equals
/// the length of the full listing.
pub proof fn law_count_matches_listing(v: Seq<Record>, rows: Map<Seq<char>, Row>, n: usize)
    requires
        lists_records(v, rows, |p: Seq<char>| true),
        rows.dom().finite(),
        rows.len() <= usize::MAX ==> n == rows.len(),
        v.len() <= usize::MAX,
    ensures
        n == v.len(),
{
    law_listing_counts_rows(v, rows);
}

/// A full listing holds as many records as the table has rows.
pub proof fn law_listing_counts_rows(v: Seq<Record>, rows: Map<Seq<char>, Row>)
    requires
        lists_records(v, rows, |p: Seq<char>| true),
        rows.dom().finite(),
    ensures
        v.len() == rows.len(),
{
    let ps = v.map_values(|r: Record| r@.path);
    assert(ps.no_duplicates()) by {
        assert forall|a: int, b: int| 0 <= a < ps.len() && 0 <= b < ps.len() && a != b implies ps[a]
            != ps[b] by {
            if a < b {
                assert(v[a]@.path != v[b]@.path);
            } else {
                assert(v[b]@.path != v[a]@.path);
            }
        }
    }
    ps.unique_seq_to_set();
    assert forall|p: Seq<char>| ps.to_set().contains(p) <==> rows.dom().contains(p) by {
        if rows.contains_key(p) {
            let i = choose|i: int| 0 <= i < v.len() && (#[trigger] v[i]@.path) == p;
            assert(ps[i] == p);
        }
        if ps.contains(p) {
            let i = choose|i: int| 0 <= i < ps.len() && ps[i] == p;
            assert(rows.contains_key(v[i]@.path));
        }
    }
    assert(ps.to_set() =~= rows.dom());
}

} // verus!
