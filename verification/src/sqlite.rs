//! The SQLite table of symlinks, reached through `rusqlite`.
//!
//! The table is modelled by `table_rows`: for each stored path, the row's
//! target, broken flag, first-import timestamp and id, as this connection
//! sees them (including the writes of an open transaction). Beside it,
//! `committed_rows` is what the file durably holds, `in_transaction` whether
//! a transaction is open (the connection is out of autocommit mode),
//! `has_table` whether the table exists, and `opened_file` the file the
//! connection was opened on. Each item below runs one SQL statement of this
//! library; its contract says what that statement does to, or reads from,
//! the model as SQLite defines it (a statement that fails inside a
//! transaction never commits it; outside one, a successful write commits at
//! once). The model assumes that no other connection writes to the same
//! file meanwhile, and that a `symlinks` table found in an existing file has
//! the schema `create_table` defines (in particular, unique paths):
//! `CREATE TABLE IF NOT EXISTS` leaves a table of another shape in place.
use vstd::prelude::*;

use rusqlite::{Connection, OptionalExtension};

verus! {

#[verifier::external_type_specification]
#[verifier::external_body]
pub struct ExConnection(rusqlite::Connection);

#[verifier::external_type_specification]
#[verifier::external_body]
pub struct ExSqliteError(rusqlite::Error);

/// The rows of the `symlinks` table as seen through a connection, keyed by
/// path: (target, broken flag, added_at, id). A missing table has no rows.
/// The model holds for the table that `create_table` defines, whose paths
/// are unique.
pub uninterp spec fn table_rows(conn: Connection) -> Map<Seq<char>, (Seq<char>, i64, i64, i64)>;

/// The rows of the `symlinks` table that the database file durably holds:
/// those of `table_rows` minus the writes of a transaction still open.
pub uninterp spec fn committed_rows(conn: Connection) -> Map<Seq<char>, (Seq<char>, i64, i64, i64)>;

/// Whether a transaction is open on the connection (`!Connection::is_autocommit`).
pub uninterp spec fn in_transaction(conn: Connection) -> bool;

/// Whether the `symlinks` table exists in the connection's database.
pub uninterp spec fn has_table(conn: Connection) -> bool;

/// The path of the database file the connection was opened on.
pub uninterp spec fn opened_file(conn: Connection) -> Seq<char>;

/// One row as read back from the table.
pub struct StoredRow {
    pub id: i64,
    pub path: String,
    pub target: String,
    pub broken: i64,
    pub added_at: i64,
}

impl View for StoredRow {
    type V = (Seq<char>, (Seq<char>, i64, i64, i64));

    open spec fn view(&self) -> Self::V {
        (self.path@, (self.target@, self.broken, self.added_at, self.id))
    }
}

/// `v` lists, once each and in some order, exactly the rows of `rows`
/// whose key satisfies `keep`.
pub open spec fn lists_rows(
    v: Seq<StoredRow>,
    rows: Map<Seq<char>, (Seq<char>, i64, i64, i64)>,
    keep: spec_fn(Seq<char>) -> bool,
) -> bool {
    &&& forall|i: int|
        0 <= i < v.len() ==> #[trigger] rows.contains_key(v[i]@.0) && rows[v[i]@.0] == v[i]@.1
            && keep(v[i]@.0)
    &&& forall|i: int, j: int| 0 <= i < j < v.len() ==> (#[trigger] v[i]@.0) != (#[trigger] v[j]@.0)
    &&& forall|p: Seq<char>|
        #[trigger] rows.contains_key(p) && keep(p) ==> exists|i: int|
            0 <= i < v.len() && (#[trigger] v[i]@.0) == p
}

/// `Connection::open`: opens the SQLite database file at `path`, creating
/// it when it does not exist, in autocommit mode. Its rows are whatever the
/// file holds (finitely many), all of them committed. The name `:memory:`
/// opens a new, empty, private in-memory database (rusqlite's own
/// `open_in_memory` is `open_with_flags(":memory:", ..)`).
#[verifier::external_body]
pub(crate) fn open_connection(path: &str) -> (r: Result<Connection, rusqlite::Error>)
    ensures
        r matches Ok(c) ==> {
            &&& table_rows(c).dom().finite()
            &&& opened_file(c) == path@
            &&& !in_transaction(c)
            &&& committed_rows(c) == table_rows(c)
            &&& path@ == ":memory:"@ ==> table_rows(c) == Map::<
                Seq<char>,
                (Seq<char>, i64, i64, i64),
            >::empty()
        },
{
    Connection::open(path)
}

/// `Connection::execute_batch` with the schema statement
/// `CREATE TABLE IF NOT EXISTS symlinks (...)`: on success the table exists
/// and the rows are the same as before (a table that did not exist is
/// created empty). No row is written either way, and the connection stays
/// on its file.
#[verifier::external_body]
pub(crate) fn create_table(conn: &mut Connection) -> (r: Result<(), rusqlite::Error>)
    ensures
        r is Ok ==> {
            &&& table_rows(*final(conn)) == table_rows(*old(conn))
            &&& has_table(*final(conn))
            &&& in_transaction(*final(conn)) == in_transaction(*old(conn))
        },
        committed_rows(*final(conn)) == committed_rows(*old(conn)),
        opened_file(*final(conn)) == opened_file(*old(conn)),
        table_rows(*final(conn)).dom().finite(),
{
    conn.execute_batch(
        "CREATE TABLE IF NOT EXISTS symlinks (
            id       INTEGER PRIMARY KEY AUTOINCREMENT,
            path     TEXT UNIQUE NOT NULL,
            target   TEXT NOT NULL,
            broken   INTEGER NOT NULL,
            added_at INTEGER NOT NULL
        );",
    )
}

/// `Connection::execute_batch` with `BEGIN`: opens a transaction. It
/// succeeds only outside a transaction, where every row is committed; the
/// rows are unchanged and nothing is committed either way.
#[verifier::external_body]
pub(crate) fn begin_transaction(conn: &mut Connection) -> (r: Result<(), rusqlite::Error>)
    ensures
        r is Ok ==> {
            &&& table_rows(*final(conn)) == table_rows(*old(conn))
            &&& committed_rows(*final(conn)) == table_rows(*old(conn))
            &&& in_transaction(*final(conn))
        },
        committed_rows(*final(conn)) == committed_rows(*old(conn)),
        table_rows(*final(conn)).dom().finite(),
{
    conn.execute_batch("BEGIN")
}

/// `Connection::execute_batch` with `COMMIT`: makes the transaction's
/// changes durable, all at once, and ends it; the rows are unchanged. A
/// commit that fails commits nothing.
#[verifier::external_body]
pub(crate) fn commit_transaction(conn: &mut Connection) -> (r: Result<(), rusqlite::Error>)
    ensures
        r is Ok ==> {
            &&& table_rows(*final(conn)) == table_rows(*old(conn))
            &&& committed_rows(*final(conn)) == table_rows(*old(conn))
            &&& !in_transaction(*final(conn))
        },
        r is Err ==> committed_rows(*final(conn)) == committed_rows(*old(conn)),
        table_rows(*final(conn)).dom().finite(),
{
    conn.execute_batch("COMMIT")
}

/// `Connection::execute_batch` with `ROLLBACK`: undoes the open
/// transaction, so that the rows are the committed ones again, and ends it.
/// It fails when no transaction is open. Nothing is committed either way.
#[verifier::external_body]
pub(crate) fn rollback_transaction(conn: &mut Connection) -> (r: Result<(), rusqlite::Error>)
    ensures
        r is Ok ==> {
            &&& table_rows(*final(conn)) == committed_rows(*old(conn))
            &&& !in_transaction(*final(conn))
        },
        committed_rows(*final(conn)) == committed_rows(*old(conn)),
        table_rows(*final(conn)).dom().finite(),
{
    conn.execute_batch("ROLLBACK")
}

/// `Connection::query_row` (made optional) with
/// `SELECT id, path, target, broken, added_at FROM symlinks WHERE path = ?1`:
/// the row stored under `path`, if any.
#[verifier::external_body]
pub(crate) fn select_row(conn: &Connection, path: &str) -> (r: Result<Option<StoredRow>, rusqlite::Error>)
    ensures
        r matches Ok(o) ==> match o {
            Some(row) => table_rows(*conn).contains_key(path@) && row@ == (
                path@,
                table_rows(*conn)[path@],
            ),
            None => !table_rows(*conn).contains_key(path@),
        },
{
    conn.query_row(
        "SELECT id, path, target, broken, added_at FROM symlinks WHERE path = ?1",
        (path,),
        |r| Ok(StoredRow { id: r.get(0)?, path: r.get(1)?, target: r.get(2)?, broken: r.get(3)?, added_at: r.get(4)? }),
    ).optional()
}

/// `Statement::query_map` with
/// `SELECT id, path, target, broken, added_at FROM symlinks`, collected:
/// every row once, in an order SQLite chooses.
#[verifier::external_body]
pub(crate) fn select_all(conn: &Connection) -> (r: Result<Vec<StoredRow>, rusqlite::Error>)
    ensures
        r matches Ok(v) ==> lists_rows(v@, table_rows(*conn), |p: Seq<char>| true),
{
    let mut stmt = conn.prepare("SELECT id, path, target, broken, added_at FROM symlinks")?;
    let rows = stmt.query_map([], |r| Ok(StoredRow { id: r.get(0)?, path: r.get(1)?, target: r.get(2)?, broken: r.get(3)?, added_at: r.get(4)? }))?;
    rows.collect()
}

/// `Statement::query_map` with
/// `SELECT id, path, target, broken, added_at FROM symlinks WHERE target = ?1`,
/// collected: every row whose target is `target`, once, in an order SQLite
/// chooses.
#[verifier::external_body]
pub(crate) fn select_by_target(conn: &Connection, target: &str) -> (r: Result<Vec<StoredRow>, rusqlite::Error>)
    ensures
        r matches Ok(v) ==> lists_rows(
            v@,
            table_rows(*conn),
            |p: Seq<char>| table_rows(*conn)[p].0 == target@,
        ),
{
    let mut stmt = conn.prepare("SELECT id, path, target, broken, added_at FROM symlinks WHERE target = ?1")?;
    let rows = stmt.query_map((target,), |r| Ok(StoredRow { id: r.get(0)?, path: r.get(1)?, target: r.get(2)?, broken: r.get(3)?, added_at: r.get(4)? }))?;
    rows.collect()
}

/// `Connection::query_row` with `SELECT COUNT(*) FROM symlinks`: the number
/// of rows.
#[verifier::external_body]
pub(crate) fn count_rows(conn: &Connection) -> (r: Result<i64, rusqlite::Error>)
    ensures
        r matches Ok(n) ==> n == table_rows(*conn).len(),
{
    conn.query_row("SELECT COUNT(*) FROM symlinks", [], |r| r.get(0))
}

/// `CachedStatement::execute` with
/// `INSERT INTO symlinks (path, target, broken, added_at) VALUES (?1, ?2, ?3, ?4)`:
/// adds a row for a path that has none (a stored path makes the statement
/// fail on the `UNIQUE` constraint); the new row gets a fresh id.
#[verifier::external_body]
pub(crate) fn insert_row(conn: &mut Connection, path: &str, target: &str, broken: i64, added_at: i64) -> (r:
    Result<usize, rusqlite::Error>)
    ensures
        r is Ok ==> {
            &&& !table_rows(*old(conn)).contains_key(path@)
            &&& table_rows(*final(conn)) == table_rows(*old(conn)).insert(
                path@,
                (target@, broken, added_at, table_rows(*final(conn))[path@].3),
            )
        },
        in_transaction(*old(conn)) || r is Err ==> committed_rows(*final(conn)) == committed_rows(
            *old(conn),
        ),
        r is Ok ==> in_transaction(*final(conn)) == in_transaction(*old(conn)),
        r is Ok && !in_transaction(*old(conn)) ==> committed_rows(*final(conn)) == table_rows(
            *final(conn),
        ),
        table_rows(*final(conn)).dom().finite(),
{
    conn.prepare_cached(
        "INSERT INTO symlinks (path, target, broken, added_at) VALUES (?1, ?2, ?3, ?4)",
    )?.execute((path, target, broken, added_at))
}

/// `CachedStatement::execute` with
/// `UPDATE symlinks SET target = ?2, broken = ?3 WHERE path = ?1`: sets the
/// target and broken flag of the row stored under `path`, if any, keeping
/// its id and timestamp.
#[verifier::external_body]
pub(crate) fn update_row(conn: &mut Connection, path: &str, target: &str, broken: i64) -> (r: Result<
    usize,
    rusqlite::Error,
>)
    ensures
        r is Ok ==> table_rows(*final(conn)) == if table_rows(*old(conn)).contains_key(path@) {
            table_rows(*old(conn)).insert(
                path@,
                (
                    target@,
                    broken,
                    table_rows(*old(conn))[path@].2,
                    table_rows(*old(conn))[path@].3,
                ),
            )
        } else {
            table_rows(*old(conn))
        },
        in_transaction(*old(conn)) || r is Err ==> committed_rows(*final(conn)) == committed_rows(
            *old(conn),
        ),
        r is Ok ==> in_transaction(*final(conn)) == in_transaction(*old(conn)),
        r is Ok && !in_transaction(*old(conn)) ==> committed_rows(*final(conn)) == table_rows(
            *final(conn),
        ),
        table_rows(*final(conn)).dom().finite(),
{
    conn.prepare_cached("UPDATE symlinks SET target = ?2, broken = ?3 WHERE path = ?1")?.execute(
        (path, target, broken),
    )
}

/// `CachedStatement::execute` with `DELETE FROM symlinks WHERE path = ?1`:
/// removes the row stored under `path`, if any.
#[verifier::external_body]
pub(crate) fn delete_row(conn: &mut Connection, path: &str) -> (r: Result<usize, rusqlite::Error>)
    ensures
        r is Ok ==> table_rows(*final(conn)) == table_rows(*old(conn)).remove(path@),
        in_transaction(*old(conn)) || r is Err ==> committed_rows(*final(conn)) == committed_rows(
            *old(conn),
        ),
        r is Ok ==> in_transaction(*final(conn)) == in_transaction(*old(conn)),
        r is Ok && !in_transaction(*old(conn)) ==> committed_rows(*final(conn)) == table_rows(
            *final(conn),
        ),
        table_rows(*final(conn)).dom().finite(),
{
    conn.prepare_cached("DELETE FROM symlinks WHERE path = ?1")?.execute((path,))
}

} // verus!
