//! What the commands compute: target resolution for `find`, the scope of a
//! `sync`, and the lines the commands print.
use vstd::prelude::*;

use crate::database::{
    batch_counts, current_entry, in_scope, law_sync_rebuilds_index, lemma_entry_from_link,
    link_views, mentions,
    path_set, stale_paths, stores_batch, Database, DatabaseError, ImportResult, ImportSummary,
    Record, RecordView,
};
use crate::path::{
    append_path, appended, dot_dot, is_absolute, join, joined, normalize, normalized, path_abs,
    path_comps, starts_with_path, strip_prefix, stripped,
};
use crate::symlink::{stored_form, Symlink};
use crate::text::{owned, push_char};

verus! {

/// The character of a decimal digit.
pub open spec fn digit_char(d: nat) -> char {
    if d == 0 {
        '0'
    } else if d == 1 {
        '1'
    } else if d == 2 {
        '2'
    } else if d == 3 {
        '3'
    } else if d == 4 {
        '4'
    } else if d == 5 {
        '5'
    } else if d == 6 {
        '6'
    } else if d == 7 {
        '7'
    } else if d == 8 {
        '8'
    } else {
        '9'
    }
}

/// The decimal spelling of `n`.
pub open spec fn decimal(n: nat) -> Seq<char>
    decreases n,
{
    if n < 10 {
        seq![digit_char(n)]
    } else {
        decimal(n / 10).push(digit_char(n % 10))
    }
}

fn digit(d: usize) -> (c: char)
    requires
        d < 10,
    ensures
        c == digit_char(d as nat),
{
    if d == 0 {
        '0'
    } else if d == 1 {
        '1'
    } else if d == 2 {
        '2'
    } else if d == 3 {
        '3'
    } else if d == 4 {
        '4'
    } else if d == 5 {
        '5'
    } else if d == 6 {
        '6'
    } else if d == 7 {
        '7'
    } else if d == 8 {
        '8'
    } else {
        '9'
    }
}

/// Appends the decimal spelling of `n`.
pub fn push_decimal(s: &mut String, n: usize)
    ensures
        final(s)@ == old(s)@ + decimal(n as nat),
    decreases n,
{
    if n >= 10 {
        push_decimal(s, n / 10);
    }
    push_char(s, digit(n % 10));
    proof {
        if n >= 10 {
            assert(old(s)@ + decimal(n as nat) =~= old(s)@ + decimal((n / 10) as nat) + seq![
                digit_char((n % 10) as nat),
            ]);
        } else {
            assert(old(s)@ + decimal(n as nat) =~= old(s)@.push(digit_char(n as nat)));
        }
    }
}

/// The escape sequence that starts bold text.
pub open spec fn bold_on() -> Seq<char> {
    seq!['\x1b', '[', '1', 'm']
}

/// The escape sequence that ends bold text.
pub open spec fn bold_off() -> Seq<char> {
    seq!['\x1b', '[', '0', 'm']
}

fn push_bold_on(s: &mut String)
    ensures
        final(s)@ == old(s)@ + bold_on(),
{
    push_char(s, '\x1b');
    push_char(s, '[');
    push_char(s, '1');
    push_char(s, 'm');
    assert(final(s)@ =~= old(s)@ + bold_on());
}

fn push_bold_off(s: &mut String)
    ensures
        final(s)@ == old(s)@ + bold_off(),
{
    push_char(s, '\x1b');
    push_char(s, '[');
    push_char(s, '0');
    push_char(s, 'm');
    assert(final(s)@ =~= old(s)@ + bold_off());
}

/// The number `n` in bold, for the terminal.
pub open spec fn bold_text(n: nat) -> Seq<char> {
    bold_on() + decimal(n) + bold_off()
}

/// The number `n` in bold, for the terminal.
pub fn bold(n: usize) -> (r: String)
    ensures
        r@ == bold_text(n as nat),
{
    let mut s = String::new();
    push_bold_on(&mut s);
    push_decimal(&mut s, n);
    push_bold_off(&mut s);
    assert(s@ =~= bold_text(n as nat));
    s
}

/// The form of `target` stored in the database: relative to `root` when it
/// lies under it (lexically, or else canonically), in normal form.
pub open spec fn relativized(
    target: Seq<char>,
    root: Seq<char>,
    canonical_root: Option<Seq<char>>,
    canonical_target: Option<Seq<char>>,
) -> Seq<char> {
    match stripped(normalized(target), normalized(root)) {
        Some(rel) => normalized(rel),
        None => match (canonical_root, canonical_target) {
            (Some(cr), Some(ct)) => match stripped(normalized(ct), normalized(cr)) {
                Some(rel) => normalized(rel),
                None => normalized(target),
            },
            _ => normalized(target),
        },
    }
}

/// The optional string as an optional character sequence.
pub open spec fn opt_str(o: Option<&str>) -> Option<Seq<char>> {
    match o {
        Some(s) => Some(s@),
        None => None,
    }
}

/// Strips `root` from `target`, both in normal form; when the lexical
/// spelling differs (for instance a root reached through a symlink), strips
/// the canonical root from the canonical target instead (each `None` when
/// it could not be canonicalized); keeps `target` otherwise. The result is
/// in normal form.
pub fn relativize(
    target: &str,
    root: &str,
    canonical_root: Option<&str>,
    canonical_target: Option<&str>,
) -> (r: String)
    ensures
        r@ == relativized(target@, root@, opt_str(canonical_root), opt_str(canonical_target)),
{
    let ntarget = normalize(target);
    let nroot = normalize(root);
    if let Some(rel) = strip_prefix(ntarget.as_str(), nroot.as_str()) {
        return normalize(rel.as_str());
    }
    match (canonical_root, canonical_target) {
        (Some(cr), Some(ct)) => match strip_prefix(normalize(ct).as_str(), normalize(cr).as_str()) {
            Some(rel) => normalize(rel.as_str()),
            None => normalize(target),
        },
        _ => normalize(target),
    }
}

/// `target` made absolute against the working directory `cwd`.
pub open spec fn absolute_of(target: Seq<char>, cwd: Seq<char>) -> Seq<char> {
    if path_abs(target) {
        target
    } else {
        joined(cwd, target)
    }
}

/// `target` made absolute against the working directory `cwd`.
pub fn absolute_target(target: &str, cwd: &str) -> (r: String)
    ensures
        r@ == absolute_of(target@, cwd@),
{
    if is_absolute(target) {
        owned(target)
    } else {
        join(cwd, target)
    }
}

/// The stored form of a target given on the command line: made absolute
/// against `cwd`, then relativized against `root` (the canonical forms are
/// those of `root` and of the absolute target).
pub fn resolve_target(
    target: &str,
    root: &str,
    cwd: &str,
    canonical_root: Option<&str>,
    canonical_target: Option<&str>,
) -> (r: String)
    ensures
        r@ == relativized(
            absolute_of(target@, cwd@),
            root@,
            opt_str(canonical_root),
            opt_str(canonical_target),
        ),
{
    let abs = absolute_target(target, cwd);
    relativize(abs.as_str(), root, canonical_root, canonical_target)
}

/// The pruning scope of a sync: the subroot relative to the root, when a
/// subroot is given and lies under the root.
pub fn sync_scope(subroot: Option<&str>, root: &str) -> (r: Option<String>)
    ensures
        opt_string(r) == match subroot {
            Some(s) => stripped(s@, root@),
            None => None,
        },
{
    match subroot {
        Some(s) => strip_prefix(s, root),
        None => None,
    }
}

/// The optional string as an optional character sequence.
pub open spec fn opt_string(o: Option<String>) -> Option<Seq<char>> {
    match o {
        Some(s) => Some(s@),
        None => None,
    }
}

/// The paths of the scanned symlinks, in order (each, like its target, in
/// stored form).
pub fn found_paths(symlinks: &[Symlink]) -> (r: Vec<String>)
    ensures
        r@.len() == symlinks@.len(),
        forall|i: int| 0 <= i < r@.len() ==> (#[trigger] r@[i])@ == symlinks@[i]@.path,
        forall|i: int| 0 <= i < symlinks@.len() ==> stored_form(#[trigger] symlinks@[i]@),
{
    let mut out: Vec<String> = Vec::new();
    let mut i: usize = 0;
    while i < symlinks.len()
        invariant
            i <= symlinks.len(),
            out@.len() == i,
            forall|k: int| 0 <= k < i ==> (#[trigger] out@[k])@ == symlinks@[k]@.path,
            forall|k: int| 0 <= k < i ==> stored_form(#[trigger] symlinks@[k]@),
        decreases symlinks.len() - i,
    {
        out.push(owned(symlinks[i].path()));
        i += 1;
    }
    out
}

/// The database side of a sync: imports the scanned `symlinks`, then
/// deletes the rows the scan did not find, within the scanned subtree
/// (everywhere when there is no subroot, or when the subroot does not lie
/// under the root, which a walker's subroot always does). Returns the
/// import summary and the number of deleted rows. After a full sync the
/// table holds exactly the scanned links. Each of the two steps is one
/// transaction: after a failure the file holds either what it held before
/// or the completed import.
pub fn sync_index(
    db: &mut Database,
    symlinks: &[Symlink],
    subroot: Option<&str>,
    root: &str,
    on_import: impl Fn(),
) -> (r: Result<(ImportSummary, usize), DatabaseError>)
    requires
        on_import.requires(()),
    ensures
        r matches Ok((sum, deleted)) ==> {
            let links = link_views(symlinks@);
            let c = batch_counts(old(db).rows(), links);
            let scope = match subroot {
                Some(s) => stripped(s@, root@),
                None => None,
            };
            &&& sum.inserted == c.0 && sum.updated == c.1 && sum.unchanged == c.2
            &&& exists|mid: Map<Seq<char>, (Seq<char>, i64, i64, i64)>|
                {
                    &&& stores_batch(old(db).rows(), mid, links)
                    &&& #[trigger] final(db).rows() == mid.remove_keys(
                        stale_paths(mid, path_set_of_links(links), scope),
                    )
                    &&& deleted == stale_paths(mid, path_set_of_links(links), scope).len()
                }
            &&& subroot is None ==> forall|p: Seq<char>|
                #[trigger] final(db).rows().contains_key(p) <==> mentions(links, p)
            &&& subroot is None ==> forall|p: Seq<char>|
                #[trigger] final(db).rows().contains_key(p) ==> current_entry(
                    Map::empty(),
                    links,
                    p,
                ) == Some((final(db).rows()[p].0, final(db).rows()[p].1))
            &&& subroot is None ==> forall|p: Seq<char>|
                #[trigger] final(db).rows().contains_key(p) ==> {
                    &&& !path_abs(p)
                    &&& normalized(p) == p
                    &&& !path_abs(final(db).rows()[p].0)
                    &&& normalized(final(db).rows()[p].0) == final(db).rows()[p].0
                }
            &&& final(db).durable()
        },
        r is Err ==> final(db).committed() == old(db).committed() || stores_batch(
            old(db).rows(),
            final(db).committed(),
            link_views(symlinks@),
        ),
        old(db).rows().dom().finite() ==> final(db).rows().dom().finite(),
        r matches Err(e) ==> e is Sqlite,
{
    let summary = db.import_many_with(symlinks, on_import)?;
    let ghost mid = db.rows();
    let found = found_paths(symlinks);
    let scope = sync_scope(subroot, root);
    proof {
        let links = link_views(symlinks@);
        assert forall|p: Seq<char>| #[trigger] path_set(found@).contains(p) <==> path_set_of_links(
            links,
        ).contains(p) by {
            if path_set(found@).contains(p) {
                let i = choose|i: int| 0 <= i < found@.len() && (#[trigger] found@[i])@ == p;
                assert(links[i].path == p);
            }
            if path_set_of_links(links).contains(p) {
                let i = choose|i: int| 0 <= i < links.len() && (#[trigger] links[i]).path == p;
                assert(found@[i]@ == p);
            }
        }
        assert(path_set(found@) =~= path_set_of_links(links));
    }
    let scope_ref: Option<&str> = match &scope {
        Some(s) => Some(s.as_str()),
        None => None,
    };
    let deleted = db.remove_missing(&found, scope_ref)?;
    proof {
        let links = link_views(symlinks@);
        if subroot is None {
            law_sync_rebuilds_index(old(db).rows(), mid, db.rows(), links, path_set_of_links(links));
            let rows = db.rows();
            assert forall|p: Seq<char>| #[trigger] rows.contains_key(p) implies {
                &&& !path_abs(p)
                &&& normalized(p) == p
                &&& !path_abs(rows[p].0)
                &&& normalized(rows[p].0) == rows[p].0
            } by {
                lemma_entry_from_link(links, p);
                let i = choose|i: int|
                    0 <= i < links.len() && (#[trigger] links[i]).path == p && links[i].target
                        == rows[p].0;
                assert(links[i] == symlinks@[i]@);
            }
        }
    }
    Ok((summary, deleted))
}

/// The paths that a list of links mentions.
pub open spec fn path_set_of_links(links: Seq<crate::symlink::LinkRecord>) -> Set<Seq<char>> {
    Set::new(|p: Seq<char>| mentions(links, p))
}

/// The summary a sync prints.
pub open spec fn summary_text(inserted: nat, updated: nat, unchanged: nat, deleted: nat) -> Seq<
    char,
> {
    "Imported "@ + bold_text(inserted + updated) + " symlinks ("@ + bold_text(inserted) + " new, "@
        + bold_text(updated) + " updated), "@ + bold_text(unchanged) + " unchanged, removed "@
        + bold_text(deleted) + " stale entries"@
}

/// The summary a sync prints.
pub fn summary_line(summary: &ImportSummary, deleted: usize) -> (r: String)
    requires
        summary.inserted + summary.updated <= usize::MAX,
    ensures
        r@ == summary_text(
            summary.inserted as nat,
            summary.updated as nat,
            summary.unchanged as nat,
            deleted as nat,
        ),
{
    let mut s = String::new();
    s.append("Imported ");
    s.append(bold(summary.inserted + summary.updated).as_str());
    s.append(" symlinks (");
    s.append(bold(summary.inserted).as_str());
    s.append(" new, ");
    s.append(bold(summary.updated).as_str());
    s.append(" updated), ");
    s.append(bold(summary.unchanged).as_str());
    s.append(" unchanged, removed ");
    s.append(bold(deleted).as_str());
    s.append(" stale entries");
    assert(s@ =~= summary_text(
        summary.inserted as nat,
        summary.updated as nat,
        summary.unchanged as nat,
        deleted as nat,
    ));
    s
}

/// The word `import` prints for an outcome.
pub open spec fn status_word(r: ImportResult) -> Seq<char> {
    match r {
        ImportResult::Inserted => "new"@,
        ImportResult::Updated => "updated"@,
        ImportResult::Unchanged => "unchanged"@,
    }
}

/// The line `import` prints.
pub fn import_line(path: &str, result: ImportResult) -> (r: String)
    ensures
        r@ == "Imported "@ + path@ + " ("@ + status_word(result) + ")"@,
{
    let mut s = String::new();
    s.append("Imported ");
    s.append(path);
    s.append(" (");
    match result {
        ImportResult::Inserted => s.append("new"),
        ImportResult::Updated => s.append("updated"),
        ImportResult::Unchanged => s.append("unchanged"),
    }
    s.append(")");
    assert(s@ =~= "Imported "@ + path@ + " ("@ + status_word(result) + ")"@);
    s
}

/// How a record's path is printed: written after the root as configured
/// when absolute paths are asked for, else as stored.
pub open spec fn shown_path(rec: RecordView, root: Seq<char>, absolute: bool) -> Seq<char> {
    if absolute {
        appended(root, rec.path)
    } else {
        rec.path
    }
}

fn shown(rec: &Record, root: &str, absolute: bool) -> (r: String)
    ensures
        r@ == shown_path(rec@, root@, absolute),
{
    if absolute {
        append_path(root, rec.path.as_str())
    } else {
        owned(rec.path.as_str())
    }
}

/// The line `find` prints for a record: its path, marked when broken.
pub open spec fn find_text(rec: RecordView, root: Seq<char>, absolute: bool) -> Seq<char> {
    shown_path(rec, root, absolute) + if rec.broken {
        " (broken)"@
    } else {
        Seq::empty()
    }
}

/// The lines `find` prints: one per record, or a notice that there is none.
pub open spec fn find_texts(
    records: Seq<RecordView>,
    target: Seq<char>,
    root: Seq<char>,
    absolute: bool,
) -> Seq<Seq<char>> {
    if records.len() == 0 {
        seq!["no symlinks found for target "@ + target]
    } else {
        records.map_values(|r: RecordView| find_text(r, root, absolute))
    }
}

/// The views of a list of records.
pub open spec fn record_views(v: Seq<Record>) -> Seq<RecordView> {
    v.map_values(|r: Record| r@)
}

/// The views of a list of strings.
pub open spec fn string_views(v: Seq<String>) -> Seq<Seq<char>> {
    v.map_values(|s: String| s@)
}

/// The lines `find` prints.
pub fn find_lines(records: &[Record], target: &str, root: &str, absolute: bool) -> (r: Vec<String>)
    ensures
        string_views(r@) == find_texts(record_views(records@), target@, root@, absolute),
{
    let mut out: Vec<String> = Vec::new();
    if records.len() == 0 {
        let mut s = String::new();
        s.append("no symlinks found for target ");
        s.append(target);
        out.push(s);
        proof {
            assert(string_views(out@) =~= find_texts(
                record_views(records@),
                target@,
                root@,
                absolute,
            ));
        }
        return out;
    }
    let mut i: usize = 0;
    while i < records.len()
        invariant
            i <= records.len(),
            out@.len() == i,
            forall|k: int|
                0 <= k < i ==> (#[trigger] out@[k])@ == find_text(records@[k]@, root@, absolute),
        decreases records.len() - i,
    {
        let mut s = shown(&records[i], root, absolute);
        if records[i].broken {
            s.append(" (broken)");
        }
        proof {
            if !records@[i as int].broken {
                assert(s@ =~= find_text(records@[i as int]@, root@, absolute));
            }
        }
        out.push(s);
        i += 1;
    }
    assert(string_views(out@) =~= find_texts(record_views(records@), target@, root@, absolute));
    out
}

/// The line `list` prints for a record: its path, marked when broken unless
/// only broken links are listed.
pub open spec fn list_text(rec: RecordView, root: Seq<char>, broken_only: bool, absolute: bool) -> Seq<
    char,
> {
    shown_path(rec, root, absolute) + if !broken_only && rec.broken {
        " (broken)"@
    } else {
        Seq::empty()
    }
}

/// The lines `list` prints, in record order: every record, or only the
/// broken ones.
pub open spec fn list_texts(
    records: Seq<RecordView>,
    root: Seq<char>,
    broken_only: bool,
    absolute: bool,
) -> Seq<Seq<char>>
    decreases records.len(),
{
    if records.len() == 0 {
        Seq::empty()
    } else {
        let r = list_texts(records.drop_last(), root, broken_only, absolute);
        let rec = records.last();
        if broken_only && !rec.broken {
            r
        } else {
            r.push(list_text(rec, root, broken_only, absolute))
        }
    }
}

/// The lines `list` prints.
pub fn list_lines(records: &[Record], root: &str, broken_only: bool, absolute: bool) -> (r: Vec<
    String,
>)
    ensures
        string_views(r@) == list_texts(record_views(records@), root@, broken_only, absolute),
{
    let ghost rv = record_views(records@);
    let mut out: Vec<String> = Vec::new();
    let mut i: usize = 0;
    proof {
        assert(string_views(out@) =~= list_texts(rv.take(0), root@, broken_only, absolute));
    }
    while i < records.len()
        invariant
            i <= records.len(),
            rv == record_views(records@),
            string_views(out@) == list_texts(rv.take(i as int), root@, broken_only, absolute),
        decreases records.len() - i,
    {
        proof {
            assert(rv.take(i + 1).drop_last() =~= rv.take(i as int));
            assert(rv.take(i + 1).last() == records@[i as int]@);
        }
        if !(broken_only && !records[i].broken) {
            let mut s = shown(&records[i], root, absolute);
            if !broken_only && records[i].broken {
                s.append(" (broken)");
            }
            proof {
                if !(!broken_only && records@[i as int].broken) {
                    assert(s@ =~= list_text(records@[i as int]@, root@, broken_only, absolute));
                }
            }
            let ghost before = out@;
            out.push(s);
            proof {
                assert(string_views(out@) =~= string_views(before).push(s@));
            }
        }
        i += 1;
    }
    proof {
        assert(rv.take(records.len() as int) =~= rv);
    }
    out
}

/// A target under the root (both in normal form) is looked up in its stored
/// form: relative to the root, in normal form, leading back to the target
/// when joined onto the root, and, below an absolute root, free of `..`,
/// whatever the canonical forms are.
pub proof fn law_target_under_root_is_stored_relative(
    target: Seq<char>,
    root: Seq<char>,
    canonical_root: Option<Seq<char>>,
    canonical_target: Option<Seq<char>>,
)
    requires
        stripped(normalized(target), normalized(root)) is Some,
    ensures
        relativized(target, root, canonical_root, canonical_target) == normalized(
            stripped(normalized(target), normalized(root))->0,
        ),
        !path_abs(relativized(target, root, canonical_root, canonical_target)),
        normalized(relativized(target, root, canonical_root, canonical_target)) == relativized(
            target,
            root,
            canonical_root,
            canonical_target,
        ),
        normalized(joined(root, relativized(target, root, canonical_root, canonical_target)))
            == normalized(target),
        path_abs(root) ==> forall|i: int|
            0 <= i < path_comps(relativized(target, root, canonical_root, canonical_target)).len()
                ==> #[trigger] path_comps(
                relativized(target, root, canonical_root, canonical_target),
            )[i] != dot_dot(),
{
    let nt = normalized(target);
    let nroot = normalized(root);
    let rel = stripped(nt, nroot)->0;
    crate::path::law_stripped_is_relative(nt, nroot);
    crate::path::law_normalized_is_normal(rel);
    crate::path::law_normalized_is_normal(root);
    crate::path::law_normalize_idempotent(rel);
    crate::path::law_normalize_idempotent(target);
    crate::path::law_rejoin_normalized(nt, nroot);
    crate::path::law_join_normalized_base(root, normalized(rel));
    if path_abs(root) {
        crate::path::law_stripped_below_absolute_has_no_parent_steps(target, nroot);
    }
}

/// A target that lies under the root only canonically (for instance when
/// reached through a symlinked directory) is looked up by its canonical
/// form: the result is relative, in normal form, and joined onto the
/// canonical root it leads to the canonical target.
pub proof fn law_target_found_through_canonical_forms(
    target: Seq<char>,
    root: Seq<char>,
    canonical_root: Seq<char>,
    canonical_target: Seq<char>,
)
    requires
        !starts_with_path(normalized(target), normalized(root)),
        starts_with_path(normalized(canonical_target), normalized(canonical_root)),
    ensures
        ({
            let r = relativized(target, root, Some(canonical_root), Some(canonical_target));
            &&& !path_abs(r)
            &&& normalized(r) == r
            &&& normalized(joined(canonical_root, r)) == normalized(canonical_target)
        }),
{
    let nct = normalized(canonical_target);
    let ncr = normalized(canonical_root);
    let rel = stripped(nct, ncr)->0;
    crate::path::law_stripped_is_relative(nct, ncr);
    crate::path::law_normalized_is_normal(rel);
    crate::path::law_normalize_idempotent(rel);
    crate::path::law_normalize_idempotent(canonical_target);
    crate::path::law_rejoin_normalized(nct, ncr);
    crate::path::law_join_normalized_base(canonical_root, normalized(rel));
}

} // verus!
