# symlinks_database

`lndb` indexes every symlink found under a root directory into a SQLite
table. The filesystem is authoritative: the table is derived state that a
`sync` can rebuild at any time, and the tool never changes the filesystem.

The library under `src/` is written in Verus; each public function carries a
`requires`/`ensures` contract proved by the verifier.

```
src/text.rs      character-level string helpers
src/path.rs      lexical path algebra (parse, render, strip, join, normalize)
src/symlink.rs   validation of one link from what the filesystem reported
src/skip.rs      gitignore-style skip patterns (`*`, `**`, `/` anchors, `!`)
src/walker.rs    subroot checks and the per-entry decisions of a scan
src/sqlite.rs    the `symlinks` table, reached through rusqlite
src/clock.rs     the first-import timestamp
src/database.rs  import with change detection, batch import, pruning, queries
src/config.rs    `$VAR` and `~` expansion of the configured paths
src/cli.rs       sync orchestration and the text the commands print
app/             the `lndb` binary: arguments, config file, filesystem walk,
                 progress bars and paging
tests/           tests of the library
```

Statements about several functions at once (a second import of the same link
changes nothing, a full sync leaves exactly the scanned links, normalizing is
idempotent, a stored relative path joined onto the root leads back to the
link, the last matching skip pattern decides, ...) are the public `law_*`
proof functions of each module.

The SQLite table is modelled by `sqlite::table_rows`, a map from stored path
to (target, broken flag, first-import timestamp, id) as the connection sees
it, beside `committed_rows` (what the file durably holds), `in_transaction`,
`has_table` and `opened_file`. The contract of each SQL statement in
`sqlite.rs` says how it reads or changes that model; batch imports and
pruning run in one transaction each, so a failure leaves the committed rows
as they were. The model assumes that no other process writes to the
database file while `lndb` runs, and that a `symlinks` table already present
in the file has the schema this crate creates (one row per unique path).
