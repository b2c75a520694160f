//! Lexical path algebra on `/`-separated strings.
//!
//! A path is modelled by two things: whether it starts at the filesystem
//! root, and its list of components. Components are the pieces between
//! separators; empty pieces (from `//` or a trailing `/`) and `.` pieces are
//! not components, so `a//./b/` and `a/b` are the same path. `..` is kept as
//! a component: only `normalize` resolves it.
use vstd::prelude::*;

use crate::text::{chars_eq, chars_of, copy_chars, owned, push_char, push_chars};

verus! {

/// The pieces of `s` between separators, empty pieces included.
pub open spec fn segments(s: Seq<char>) -> Seq<Seq<char>>
    decreases s.len(),
{
    if s.len() == 0 {
        seq![Seq::<char>::empty()]
    } else {
        let r = segments(s.drop_last());
        if s.last() == '/' {
            r.push(Seq::<char>::empty())
        } else {
            r.update(r.len() - 1, r.last().push(s.last()))
        }
    }
}

/// The single-dot piece, which names the current directory.
pub open spec fn dot() -> Seq<char> {
    seq!['.']
}

/// The double-dot piece, which names the parent directory.
pub open spec fn dot_dot() -> Seq<char> {
    seq!['.', '.']
}

/// Whether a piece counts as a component.
pub open spec fn is_component(c: Seq<char>) -> bool {
    c.len() > 0 && c != dot()
}

/// A piece that can stand as a component of a rendered path.
pub open spec fn valid_component(c: Seq<char>) -> bool {
    is_component(c) && !c.contains('/')
}

/// The components among a list of pieces, in order.
pub open spec fn keep_components(segs: Seq<Seq<char>>) -> Seq<Seq<char>>
    decreases segs.len(),
{
    if segs.len() == 0 {
        Seq::empty()
    } else {
        let r = keep_components(segs.drop_last());
        if is_component(segs.last()) {
            r.push(segs.last())
        } else {
            r
        }
    }
}

/// The components of the path `s`.
pub open spec fn path_comps(s: Seq<char>) -> Seq<Seq<char>> {
    keep_components(segments(s))
}

/// Whether the path `s` starts at the filesystem root.
pub open spec fn path_abs(s: Seq<char>) -> bool {
    s.len() > 0 && s[0] == '/'
}

/// Components joined by single separators.
pub open spec fn join_comps(cs: Seq<Seq<char>>) -> Seq<char>
    decreases cs.len(),
{
    if cs.len() == 0 {
        Seq::empty()
    } else if cs.len() == 1 {
        cs[0]
    } else {
        join_comps(cs.drop_last()) + seq!['/'] + cs.last()
    }
}

/// The canonical spelling of a path: a leading `/` when it is absolute,
/// then its components joined by single separators.
pub open spec fn render(abs: bool, cs: Seq<Seq<char>>) -> Seq<char> {
    if abs {
        seq!['/'] + join_comps(cs)
    } else {
        join_comps(cs)
    }
}

/// `path` begins with `base`: both absolute or both relative, and the
/// components of `base` are the first components of `path`.
pub open spec fn starts_with_path(path: Seq<char>, base: Seq<char>) -> bool {
    &&& path_abs(path) == path_abs(base)
    &&& path_comps(base).len() <= path_comps(path).len()
    &&& path_comps(path).take(path_comps(base).len() as int) == path_comps(base)
}

/// What is left of `path` after the components of `base`, as a relative path.
pub open spec fn stripped(path: Seq<char>, base: Seq<char>) -> Option<Seq<char>> {
    if starts_with_path(path, base) {
        Some(render(false, path_comps(path).skip(path_comps(base).len() as int)))
    } else {
        None
    }
}

/// `rel` appended to `base`; an absolute `rel` replaces `base`.
pub open spec fn joined(base: Seq<char>, rel: Seq<char>) -> Seq<char> {
    if path_abs(rel) {
        render(true, path_comps(rel))
    } else {
        render(path_abs(base), path_comps(base) + path_comps(rel))
    }
}

/// The path without its last component; none when it has no component.
pub open spec fn parent_of(path: Seq<char>) -> Option<Seq<char>> {
    if path_comps(path).len() == 0 {
        None
    } else {
        Some(render(path_abs(path), path_comps(path).drop_last()))
    }
}

/// One step of lexical resolution: a `..` removes the component before it;
/// with nothing to remove it is dropped at the root of an absolute path and
/// kept in a relative one (where it climbs above the start).
pub open spec fn norm_step(abs: bool, r: Seq<Seq<char>>, c: Seq<char>) -> Seq<Seq<char>> {
    if c == dot_dot() {
        if r.len() > 0 && r.last() != dot_dot() {
            r.drop_last()
        } else if abs {
            r
        } else {
            r.push(c)
        }
    } else {
        r.push(c)
    }
}

/// Lexical resolution of `..` over the components `cs` of a path that is
/// absolute when `abs` holds.
pub open spec fn norm_comps(abs: bool, cs: Seq<Seq<char>>) -> Seq<Seq<char>>
    decreases cs.len(),
{
    if cs.len() == 0 {
        Seq::empty()
    } else {
        norm_step(abs, norm_comps(abs, cs.drop_last()), cs.last())
    }
}

/// Components in normal form: `..` only in front of all others, and never
/// in an absolute path.
pub open spec fn normal_comps(abs: bool, cs: Seq<Seq<char>>) -> bool {
    &&& forall|i: int| 0 <= i < cs.len() && #[trigger] cs[i] == dot_dot() ==> !abs
    &&& forall|i: int, j: int|
        0 <= i < j < cs.len() && #[trigger] cs[j] == dot_dot() ==> #[trigger] cs[i] == dot_dot()
}

/// The normal form of a path: same rootedness, `..` resolved lexically.
pub open spec fn normalized(path: Seq<char>) -> Seq<char> {
    render(path_abs(path), norm_comps(path_abs(path), path_comps(path)))
}

/// A path split into its rootedness and its components.
pub struct PathParts {
    pub absolute: bool,
    pub parts: Vec<Vec<char>>,
}

/// The views of a list of character vectors.
pub open spec fn views_of(v: Seq<Vec<char>>) -> Seq<Seq<char>> {
    v.map_values(|x: Vec<char>| x@)
}

impl PathParts {
    /// The components as character sequences.
    pub open spec fn comps(&self) -> Seq<Seq<char>> {
        views_of(self.parts@)
    }
}

// ---------------------------------------------------------------------------
// Lemmas on the model

proof fn lemma_segments_nonempty(s: Seq<char>)
    ensures
        segments(s).len() >= 1,
    decreases s.len(),
{
    if s.len() > 0 {
        lemma_segments_nonempty(s.drop_last());
    }
}

proof fn lemma_segments_step(s: Seq<char>, c: char)
    ensures
        segments(s.push(c)) == (if c == '/' {
            segments(s).push(Seq::<char>::empty())
        } else {
            segments(s).update(segments(s).len() - 1, segments(s).last().push(c))
        }),
{
    assert(s.push(c).drop_last() =~= s);
}

proof fn lemma_keep_push(segs: Seq<Seq<char>>, x: Seq<char>)
    ensures
        keep_components(segs.push(x)) == (if is_component(x) {
            keep_components(segs).push(x)
        } else {
            keep_components(segs)
        }),
{
    assert(segs.push(x).drop_last() =~= segs);
}

/// Splitting `a/c`, where `c` holds no separator, adds `c` as a last piece.
proof fn lemma_segments_after_sep(a: Seq<char>, c: Seq<char>)
    requires
        !c.contains('/'),
    ensures
        segments(a + seq!['/'] + c) == segments(a).push(c),
    decreases c.len(),
{
    if c.len() == 0 {
        assert(a + seq!['/'] + c =~= a.push('/'));
        assert(c =~= Seq::<char>::empty());
        lemma_segments_step(a, '/');
    } else {
        let c0 = c.drop_last();
        let x = c.last();
        assert(!c0.contains('/')) by {
            if c0.contains('/') {
                let k = choose|k: int| 0 <= k < c0.len() && c0[k] == '/';
                assert(c[k] == '/');
            }
        }
        assert(x != '/') by {
            assert(c[c.len() - 1] == x);
        }
        assert(c0.push(x) =~= c);
        lemma_segments_after_sep(a, c0);
        assert(a + seq!['/'] + c =~= (a + seq!['/'] + c0).push(x));
        lemma_segments_step(a + seq!['/'] + c0, x);
        let r = segments(a).push(c0);
        assert(r.last() == c0);
        assert(r.len() - 1 == segments(a).len());
        assert(r.update(segments(a).len() as int, c0.push(x)) =~= segments(a).push(c));
        assert(segments(a + seq!['/'] + c) == r.update(r.len() - 1, r.last().push(x)));
        assert(c0.push(x) =~= c);
    }
}

/// A piece without separators splits into itself.
proof fn lemma_segments_plain(c: Seq<char>)
    requires
        !c.contains('/'),
    ensures
        segments(c) == seq![c],
    decreases c.len(),
{
    if c.len() > 0 {
        let c0 = c.drop_last();
        assert(!c0.contains('/')) by {
            if c0.contains('/') {
                let k = choose|k: int| 0 <= k < c0.len() && c0[k] == '/';
                assert(c[k] == '/');
            }
        }
        assert(c[c.len() - 1] != '/');
        lemma_segments_plain(c0);
        assert(c0.push(c.last()) =~= c);
        lemma_segments_step(c0, c.last());
        assert(seq![c0].update(0, c0.push(c.last())) =~= seq![c]);
    } else {
        assert(c =~= Seq::<char>::empty());
    }
}

/// Rendering then splitting gives back the components.
pub proof fn lemma_comps_of_render(abs: bool, cs: Seq<Seq<char>>)
    requires
        forall|i: int| 0 <= i < cs.len() ==> valid_component(#[trigger] cs[i]),
    ensures
        path_comps(render(abs, cs)) == cs,
        path_abs(render(abs, cs)) == abs,
    decreases cs.len(),
{
    let pre: Seq<char> = if abs {
        seq!['/']
    } else {
        Seq::empty()
    };
    assert(render(abs, cs) =~= pre + join_comps(cs));
    if cs.len() == 0 {
        if abs {
            assert(seq!['/'] + join_comps(cs) =~= Seq::<char>::empty().push('/'));
            lemma_segments_step(Seq::<char>::empty(), '/');
            lemma_keep_push(seq![Seq::<char>::empty()], Seq::<char>::empty());
            lemma_keep_push(Seq::empty(), Seq::<char>::empty());
            assert(seq![Seq::<char>::empty()] =~= Seq::<Seq<char>>::empty().push(
                Seq::<char>::empty(),
            ));
        } else {
            lemma_keep_push(Seq::empty(), Seq::<char>::empty());
            assert(seq![Seq::<char>::empty()] =~= Seq::<Seq<char>>::empty().push(
                Seq::<char>::empty(),
            ));
        }
        assert(path_comps(render(abs, cs)) =~= cs);
    } else if cs.len() == 1 {
        let c = cs[0];
        assert(valid_component(c));
        if abs {
            assert(seq!['/'] + c =~= Seq::<char>::empty() + seq!['/'] + c);
            lemma_segments_after_sep(Seq::empty(), c);
            assert(segments(Seq::<char>::empty()).push(c) =~= seq![Seq::<char>::empty()].push(c));
            lemma_keep_push(seq![Seq::<char>::empty()], c);
            lemma_keep_push(Seq::empty(), Seq::<char>::empty());
            assert(seq![Seq::<char>::empty()] =~= Seq::<Seq<char>>::empty().push(
                Seq::<char>::empty(),
            ));
            assert(Seq::<Seq<char>>::empty().push(c) =~= cs);
        } else {
            assert(render(abs, cs) =~= c);
            lemma_segments_plain(c);
            lemma_keep_push(Seq::empty(), c);
            assert(seq![c] =~= Seq::<Seq<char>>::empty().push(c));
            assert(Seq::<Seq<char>>::empty().push(c) =~= cs);
            assert(c.len() > 0);
            assert(c[0] != '/') by {
                assert(!c.contains('/'));
            }
        }
    } else {
        let dl = cs.drop_last();
        let last = cs.last();
        assert(forall|i: int| 0 <= i < dl.len() ==> valid_component(#[trigger] dl[i])) by {
            assert forall|i: int| 0 <= i < dl.len() implies valid_component(#[trigger] dl[i]) by {
                assert(dl[i] == cs[i]);
            }
        }
        assert(valid_component(last)) by {
            assert(cs[cs.len() - 1] == last);
        }
        lemma_comps_of_render(abs, dl);
        assert(render(abs, dl) =~= pre + join_comps(dl));
        assert(pre + join_comps(cs) =~= (pre + join_comps(dl)) + seq!['/'] + last);
        lemma_segments_after_sep(pre + join_comps(dl), last);
        lemma_keep_push(segments(pre + join_comps(dl)), last);
        assert(dl.push(last) =~= cs);
        assert(render(abs, cs)[0] == render(abs, dl)[0]) by {
            assert(render(abs, dl).len() > 0) by {
                if !abs {
                    assert(dl[0].len() > 0);
                    assert(join_comps(dl).len() > 0) by {
                        lemma_join_comps_first(dl);
                    }
                }
            }
        }
    }
}

/// Joining nonempty components starts with the first component.
proof fn lemma_join_comps_first(cs: Seq<Seq<char>>)
    requires
        cs.len() > 0,
    ensures
        join_comps(cs).len() >= cs[0].len(),
        forall|k: int| 0 <= k < cs[0].len() ==> join_comps(cs)[k] == cs[0][k],
    decreases cs.len(),
{
    if cs.len() > 1 {
        lemma_join_comps_first(cs.drop_last());
    }
}

/// The components of any path are valid components.
pub proof fn lemma_path_comps_valid(s: Seq<char>)
    ensures
        forall|i: int| 0 <= i < path_comps(s).len() ==> valid_component(#[trigger] path_comps(s)[i]),
{
    lemma_segments_no_sep(s);
    lemma_keep_valid(segments(s));
}

proof fn lemma_segments_no_sep(s: Seq<char>)
    ensures
        forall|i: int| 0 <= i < segments(s).len() ==> !(#[trigger] segments(s)[i]).contains('/'),
    decreases s.len(),
{
    if s.len() > 0 {
        let s0 = s.drop_last();
        lemma_segments_no_sep(s0);
        lemma_segments_nonempty(s0);
        let r = segments(s0);
        assert(s0.push(s.last()) =~= s);
        lemma_segments_step(s0, s.last());
        if s.last() != '/' {
            let n = r.last().push(s.last());
            assert(!n.contains('/')) by {
                if n.contains('/') {
                    let k = choose|k: int| 0 <= k < n.len() && n[k] == '/';
                    if k < r.last().len() {
                        assert(r.last()[k] == '/');
                        assert(r[r.len() - 1] == r.last());
                    }
                }
            }
        } else {
            assert(!Seq::<char>::empty().contains('/'));
        }
    }
}

proof fn lemma_keep_valid(segs: Seq<Seq<char>>)
    requires
        forall|i: int| 0 <= i < segs.len() ==> !(#[trigger] segs[i]).contains('/'),
    ensures
        forall|i: int|
            0 <= i < keep_components(segs).len() ==> valid_component(
                #[trigger] keep_components(segs)[i],
            ),
    decreases segs.len(),
{
    if segs.len() > 0 {
        let dl = segs.drop_last();
        assert forall|i: int| 0 <= i < dl.len() implies !(#[trigger] dl[i]).contains('/') by {
            assert(dl[i] == segs[i]);
        }
        lemma_keep_valid(dl);
        assert(!segs[segs.len() - 1].contains('/'));
        let k = keep_components(segs);
        let kd = keep_components(dl);
        assert forall|i: int| 0 <= i < k.len() implies valid_component(#[trigger] k[i]) by {
            if is_component(segs.last()) {
                assert(k == kd.push(segs.last()));
                if i < kd.len() {
                    assert(k[i] == kd[i]);
                } else {
                    assert(k[i] == segs.last());
                }
            } else {
                assert(k == kd);
            }
        }
    }
}

proof fn lemma_norm_valid(abs: bool, cs: Seq<Seq<char>>)
    requires
        forall|i: int| 0 <= i < cs.len() ==> valid_component(#[trigger] cs[i]),
    ensures
        forall|i: int| 0 <= i < norm_comps(abs, cs).len() ==> valid_component(
            #[trigger] norm_comps(abs, cs)[i],
        ),
        normal_comps(abs, norm_comps(abs, cs)),
        norm_comps(abs, cs).len() <= cs.len(),
    decreases cs.len(),
{
    if cs.len() > 0 {
        let dl = cs.drop_last();
        assert forall|i: int| 0 <= i < dl.len() implies valid_component(#[trigger] dl[i]) by {
            assert(dl[i] == cs[i]);
        }
        lemma_norm_valid(abs, dl);
        let r = norm_comps(abs, dl);
        let x = cs.last();
        assert(valid_component(cs[cs.len() - 1]));
        let n = norm_comps(abs, cs);
        assert(n == norm_step(abs, r, x));
        if x == dot_dot() && r.len() > 0 && r.last() != dot_dot() {
            assert forall|i: int| 0 <= i < n.len() implies valid_component(#[trigger] n[i]) by {
                assert(n[i] == r[i]);
            }
            assert forall|i: int| 0 <= i < n.len() && #[trigger] n[i] == dot_dot() implies !abs by {
                assert(n[i] == r[i]);
            }
            assert forall|i: int, j: int|
                0 <= i < j < n.len() && #[trigger] n[j] == dot_dot() implies #[trigger] n[i]
                == dot_dot() by {
                assert(n[i] == r[i] && n[j] == r[j]);
            }
        } else if x == dot_dot() && !abs && !(r.len() > 0 && r.last() != dot_dot()) {
            // r is all `..`: its last one is, and `..` only precedes `..`.
            assert forall|i: int| 0 <= i < r.len() implies #[trigger] r[i] == dot_dot() by {
                if i < r.len() - 1 {
                    assert(r[r.len() - 1] == dot_dot());
                }
            }
            assert forall|i: int| 0 <= i < n.len() implies valid_component(#[trigger] n[i]) by {
                if i < r.len() {
                    assert(n[i] == r[i]);
                }
            }
            assert forall|i: int, j: int|
                0 <= i < j < n.len() && #[trigger] n[j] == dot_dot() implies #[trigger] n[i]
                == dot_dot() by {
                assert(n[i] == r[i]);
            }
        } else if x == dot_dot() {
        } else {
            assert forall|i: int| 0 <= i < n.len() implies valid_component(#[trigger] n[i]) by {
                if i < r.len() {
                    assert(n[i] == r[i]);
                }
            }
            assert forall|i: int| 0 <= i < n.len() && #[trigger] n[i] == dot_dot() implies !abs by {
                assert(i < r.len());
                assert(n[i] == r[i]);
            }
            assert forall|i: int, j: int|
                0 <= i < j < n.len() && #[trigger] n[j] == dot_dot() implies #[trigger] n[i]
                == dot_dot() by {
                assert(j < r.len());
                assert(n[i] == r[i] && n[j] == r[j]);
            }
        }
    }
}

proof fn lemma_norm_fixed(abs: bool, cs: Seq<Seq<char>>)
    requires
        normal_comps(abs, cs),
    ensures
        norm_comps(abs, cs) == cs,
    decreases cs.len(),
{
    if cs.len() > 0 {
        let dl = cs.drop_last();
        assert forall|i: int| 0 <= i < dl.len() && #[trigger] dl[i] == dot_dot() implies !abs by {
            assert(cs[i] == dl[i]);
        }
        assert forall|i: int, j: int|
            0 <= i < j < dl.len() && #[trigger] dl[j] == dot_dot() implies #[trigger] dl[i]
            == dot_dot() by {
            assert(cs[i] == dl[i] && cs[j] == dl[j]);
        }
        lemma_norm_fixed(abs, dl);
        if cs.last() == dot_dot() {
            assert(cs[cs.len() - 1] == dot_dot());
            assert(!abs);
            if dl.len() > 0 {
                assert(dl.last() == cs[dl.len() - 1]);
            }
        }
        assert(dl.push(cs.last()) =~= cs);
    }
}

/// Applies the components `b`, one by one, to the resolved components `acc`.
pub open spec fn norm_run(abs: bool, acc: Seq<Seq<char>>, b: Seq<Seq<char>>) -> Seq<Seq<char>>
    decreases b.len(),
{
    if b.len() == 0 {
        acc
    } else {
        norm_step(abs, norm_run(abs, acc, b.drop_last()), b.last())
    }
}

proof fn lemma_norm_concat(abs: bool, a: Seq<Seq<char>>, b: Seq<Seq<char>>)
    ensures
        norm_comps(abs, a + b) == norm_run(abs, norm_comps(abs, a), b),
    decreases b.len(),
{
    if b.len() == 0 {
        assert(a + b =~= a);
    } else {
        lemma_norm_concat(abs, a, b.drop_last());
        assert((a + b).drop_last() =~= a + b.drop_last());
        assert((a + b).last() == b.last());
    }
}

/// Resolving the components of a relative path first changes nothing about
/// where they lead from any starting point.
proof fn lemma_run_normalized(abs: bool, acc: Seq<Seq<char>>, b: Seq<Seq<char>>)
    ensures
        norm_run(abs, acc, norm_comps(false, b)) == norm_run(abs, acc, b),
    decreases b.len(),
{
    if b.len() > 0 {
        let dl = b.drop_last();
        let x = b.last();
        lemma_run_normalized(abs, acc, dl);
        let n = norm_comps(false, dl);
        if x == dot_dot() && n.len() > 0 && n.last() != dot_dot() {
            let nd = n.drop_last();
            assert(nd.push(n.last()) =~= n);
            assert(n.drop_last() =~= nd);
        } else {
            assert(n.push(x).drop_last() =~= n);
        }
    }
}

// ---------------------------------------------------------------------------
// Laws

/// Normalizing a normalized path changes nothing.
pub proof fn law_normalize_idempotent(s: Seq<char>)
    ensures
        normalized(normalized(s)) == normalized(s),
{
    lemma_path_comps_valid(s);
    lemma_norm_valid(path_abs(s), path_comps(s));
    let n = norm_comps(path_abs(s), path_comps(s));
    lemma_comps_of_render(path_abs(s), n);
    lemma_norm_fixed(path_abs(s), n);
}

/// A normalized path keeps the rootedness of the input, has no `.`
/// component, has `..` components only in front of all others and only when
/// it is relative, and has at most as many components.
pub proof fn law_normalized_is_normal(s: Seq<char>)
    ensures
        path_abs(normalized(s)) == path_abs(s),
        forall|i: int|
            0 <= i < path_comps(normalized(s)).len() ==> #[trigger] path_comps(normalized(s))[i]
                != dot(),
        normal_comps(path_abs(s), path_comps(normalized(s))),
        path_comps(normalized(s)).len() <= path_comps(s).len(),
{
    lemma_path_comps_valid(s);
    lemma_norm_valid(path_abs(s), path_comps(s));
    lemma_comps_of_render(path_abs(s), norm_comps(path_abs(s), path_comps(s)));
}

/// A relative path that lies below `base`, normalized and joined back onto
/// `base`, leads where the path itself leads: normalizing the relative
/// form loses nothing.
pub proof fn law_rejoin_normalized(path: Seq<char>, base: Seq<char>)
    requires
        stripped(path, base) is Some,
    ensures
        normalized(joined(base, normalized(stripped(path, base)->0))) == normalized(path),
{
    let abs = path_abs(base);
    let pc = path_comps(path);
    let bc = path_comps(base);
    let rest = pc.skip(bc.len() as int);
    lemma_path_comps_valid(path);
    lemma_path_comps_valid(base);
    assert forall|i: int| 0 <= i < rest.len() implies valid_component(#[trigger] rest[i]) by {
        assert(rest[i] == pc[i + bc.len()]);
    }
    lemma_comps_of_render(false, rest);
    let rel = render(false, rest);
    assert(stripped(path, base)->0 == rel);
    lemma_norm_valid(false, rest);
    let nr = norm_comps(false, rest);
    lemma_comps_of_render(false, nr);
    assert(normalized(rel) == render(false, nr));
    assert forall|i: int| 0 <= i < (bc + nr).len() implies valid_component(#[trigger] (bc + nr)[i]) by {
        if i < bc.len() {
            assert((bc + nr)[i] == bc[i]);
        } else {
            assert((bc + nr)[i] == nr[i - bc.len()]);
        }
    }
    lemma_comps_of_render(abs, bc + nr);
    let j = joined(base, render(false, nr));
    assert(path_comps(j) == bc + nr);
    assert(path_abs(j) == abs);
    lemma_norm_concat(abs, bc, nr);
    lemma_run_normalized(abs, norm_comps(abs, bc), rest);
    lemma_norm_concat(abs, bc, rest);
    assert(bc + rest =~= pc);
}

/// Joining onto a base or onto its normal form leads to the same place.
pub proof fn law_join_normalized_base(base: Seq<char>, rel: Seq<char>)
    ensures
        normalized(joined(normalized(base), rel)) == normalized(joined(base, rel)),
{
    if !path_abs(rel) {
        let abs = path_abs(base);
        let bc = path_comps(base);
        let rc = path_comps(rel);
        lemma_path_comps_valid(base);
        lemma_path_comps_valid(rel);
        lemma_norm_valid(abs, bc);
        let nb = norm_comps(abs, bc);
        lemma_comps_of_render(abs, nb);
        assert forall|i: int| 0 <= i < (bc + rc).len() implies valid_component(#[trigger] (bc + rc)[i]) by {
            if i < bc.len() {
                assert((bc + rc)[i] == bc[i]);
            } else {
                assert((bc + rc)[i] == rc[i - bc.len()]);
            }
        }
        assert forall|i: int| 0 <= i < (nb + rc).len() implies valid_component(#[trigger] (nb + rc)[i]) by {
            if i < nb.len() {
                assert((nb + rc)[i] == nb[i]);
            } else {
                assert((nb + rc)[i] == rc[i - nb.len()]);
            }
        }
        lemma_comps_of_render(abs, bc + rc);
        lemma_comps_of_render(abs, nb + rc);
        lemma_norm_concat(abs, bc, rc);
        lemma_norm_concat(abs, nb, rc);
        lemma_norm_fixed(abs, nb);
    }
}

/// What is left of a normalized path below an absolute base holds no `..`
/// (and, as any path's components, no `.`), before and after normalizing.
pub proof fn law_stripped_below_absolute_has_no_parent_steps(path: Seq<char>, base: Seq<char>)
    requires
        path_abs(base),
        stripped(normalized(path), base) is Some,
    ensures
        forall|i: int|
            0 <= i < path_comps(normalized(stripped(normalized(path), base)->0)).len()
                ==> #[trigger] path_comps(normalized(stripped(normalized(path), base)->0))[i]
                != dot_dot(),
{
    let np = normalized(path);
    law_normalized_is_normal(path);
    lemma_path_comps_valid(np);
    let pc = path_comps(np);
    let k = path_comps(base).len();
    let rest = pc.skip(k as int);
    assert(path_abs(np));
    assert forall|i: int| 0 <= i < rest.len() implies valid_component(#[trigger] rest[i])
        && rest[i] != dot_dot() by {
        assert(rest[i] == pc[i + k]);
    }
    lemma_comps_of_render(false, rest);
    lemma_norm_fixed(false, rest);
    lemma_comps_of_render(false, norm_comps(false, rest));
}

/// Joining the stripped remainder back onto the base gives the original path
/// (same rootedness, same components).
pub proof fn law_join_stripped(path: Seq<char>, base: Seq<char>)
    requires
        starts_with_path(path, base),
    ensures
        stripped(path, base) is Some,
        path_abs(joined(base, stripped(path, base)->0)) == path_abs(path),
        path_comps(joined(base, stripped(path, base)->0)) == path_comps(path),
{
    let pc = path_comps(path);
    let bc = path_comps(base);
    let rest = pc.skip(bc.len() as int);
    lemma_path_comps_valid(path);
    assert forall|i: int| 0 <= i < rest.len() implies valid_component(#[trigger] rest[i]) by {
        assert(rest[i] == pc[i + bc.len()]);
    }
    lemma_comps_of_render(false, rest);
    lemma_path_comps_valid(base);
    assert forall|i: int| 0 <= i < (bc + rest).len() implies valid_component(#[trigger] (bc + rest)[i]) by {
        if i < bc.len() {
            assert((bc + rest)[i] == bc[i]);
        } else {
            assert((bc + rest)[i] == rest[i - bc.len()]);
        }
    }
    lemma_comps_of_render(path_abs(base), bc + rest);
    assert(bc + rest =~= pc);
}

/// Stripping the base off a relative path joined onto it gives back that
/// relative path in canonical spelling.
pub proof fn law_strip_joined(base: Seq<char>, rel: Seq<char>)
    requires
        !path_abs(rel),
    ensures
        stripped(joined(base, rel), base) == Some(render(false, path_comps(rel))),
{
    let bc = path_comps(base);
    let rc = path_comps(rel);
    lemma_path_comps_valid(base);
    lemma_path_comps_valid(rel);
    assert forall|i: int| 0 <= i < (bc + rc).len() implies valid_component(#[trigger] (bc + rc)[i]) by {
        if i < bc.len() {
            assert((bc + rc)[i] == bc[i]);
        } else {
            assert((bc + rc)[i] == rc[i - bc.len()]);
        }
    }
    lemma_comps_of_render(path_abs(base), bc + rc);
    assert((bc + rc).take(bc.len() as int) =~= bc);
    assert((bc + rc).skip(bc.len() as int) =~= rc);
}

// ---------------------------------------------------------------------------
// Executable operations

fn is_dot(c: &Vec<char>) -> (r: bool)
    ensures
        r == (c@ == dot()),
{
    let r = c.len() == 1 && c[0] == '.';
    assert(r ==> c@ =~= dot());
    r
}

fn is_dot_dot(c: &Vec<char>) -> (r: bool)
    ensures
        r == (c@ == dot_dot()),
{
    let r = c.len() == 2 && c[0] == '.' && c[1] == '.';
    assert(r ==> c@ =~= dot_dot());
    r
}

fn keeps(c: &Vec<char>) -> (r: bool)
    ensures
        r == is_component(c@),
{
    c.len() > 0 && !is_dot(c)
}

proof fn lemma_views_push(v: Seq<Vec<char>>, x: Vec<char>)
    ensures
        views_of(v.push(x)) == views_of(v).push(x@),
{
    assert(views_of(v.push(x)) =~= views_of(v).push(x@));
}

/// Splits a path into its rootedness and components.
pub fn parse(s: &str) -> (p: PathParts)
    ensures
        p.absolute == path_abs(s@),
        p.comps() == path_comps(s@),
{
    let cs = chars_of(s);
    let ghost sv = s@;
    let mut done: Vec<Vec<char>> = Vec::new();
    let mut cur: Vec<char> = Vec::new();
    let mut i: usize = 0;
    proof {
        assert(sv.take(0) =~= Seq::<char>::empty());
        assert(views_of(done@) =~= Seq::<Seq<char>>::empty());
        assert(cur@ =~= Seq::<char>::empty());
    }
    while i < cs.len()
        invariant
            cs@ == sv,
            i <= cs.len(),
            segments(sv.take(i as int)).len() >= 1,
            cur@ == segments(sv.take(i as int)).last(),
            views_of(done@) == keep_components(segments(sv.take(i as int)).drop_last()),
        decreases cs.len() - i,
    {
        let c = cs[i];
        let ghost pre = sv.take(i as int);
        let ghost segs = segments(pre);
        proof {
            assert(sv.take(i + 1) =~= pre.push(c));
            lemma_segments_step(pre, c);
        }
        if c == '/' {
            proof {
                assert(segs.push(Seq::<char>::empty()).drop_last() =~= segs);
                assert(segs =~= segs.drop_last().push(segs.last()));
                lemma_keep_push(segs.drop_last(), segs.last());
            }
            if keeps(&cur) {
                proof {
                    lemma_views_push(done@, cur);
                }
                done.push(cur);
            }
            cur = Vec::new();
            proof {
                assert(cur@ =~= Seq::<char>::empty());
            }
        } else {
            proof {
                assert(segs.update(segs.len() - 1, segs.last().push(c)).drop_last()
                    =~= segs.drop_last());
            }
            cur.push(c);
        }
        i += 1;
    }
    proof {
        assert(sv.take(cs.len() as int) =~= sv);
        let segs = segments(sv);
        assert(segs =~= segs.drop_last().push(segs.last()));
        lemma_keep_push(segs.drop_last(), segs.last());
    }
    if keeps(&cur) {
        proof {
            lemma_views_push(done@, cur);
        }
        done.push(cur);
    }
    let absolute = cs.len() > 0 && cs[0] == '/';
    PathParts { absolute, parts: done }
}

/// Writes a path in canonical spelling.
pub fn render_parts(absolute: bool, parts: &Vec<Vec<char>>) -> (s: String)
    ensures
        s@ == render(absolute, views_of(parts@)),
{
    let mut s = String::new();
    if absolute {
        push_char(&mut s, '/');
    }
    let ghost pre: Seq<char> = if absolute {
        seq!['/']
    } else {
        Seq::empty()
    };
    let mut i: usize = 0;
    proof {
        assert(pre =~= s@);
        assert(views_of(parts@).take(0) =~= Seq::<Seq<char>>::empty());
    }
    while i < parts.len()
        invariant
            i <= parts.len(),
            s@ == pre + join_comps(views_of(parts@).take(i as int)),
        decreases parts.len() - i,
    {
        let ghost before = s@;
        let ghost vs = views_of(parts@);
        if i > 0 {
            push_char(&mut s, '/');
        }
        push_chars(&mut s, &parts[i]);
        proof {
            let t = vs.take(i + 1);
            assert(t.drop_last() =~= vs.take(i as int));
            assert(t.last() == parts@[i as int]@);
            if i == 0 {
                assert(s@ =~= pre + join_comps(t));
            } else {
                assert(s@ =~= pre + (join_comps(vs.take(i as int)) + seq!['/'] + t.last()));
            }
        }
        i += 1;
    }
    proof {
        assert(views_of(parts@).take(parts.len() as int) =~= views_of(parts@));
        if absolute {
            assert(s@ =~= render(absolute, views_of(parts@)));
        } else {
            assert(s@ =~= render(absolute, views_of(parts@)));
        }
    }
    s
}

/// Whether the path starts at the filesystem root.
pub fn is_absolute(s: &str) -> (r: bool)
    ensures
        r == path_abs(s@),
{
    let p = parse(s);
    p.absolute
}

/// Whether the first `n` components of `a` equal the components of `b`.
fn parts_prefix(a: &Vec<Vec<char>>, b: &Vec<Vec<char>>) -> (r: bool)
    ensures
        r == (views_of(b@).len() <= views_of(a@).len() && views_of(a@).take(
            views_of(b@).len() as int,
        ) == views_of(b@)),
{
    if b.len() > a.len() {
        return false;
    }
    let mut i: usize = 0;
    while i < b.len()
        invariant
            b.len() <= a.len(),
            i <= b.len(),
            forall|j: int| 0 <= j < i ==> a@[j]@ == b@[j]@,
        decreases b.len() - i,
    {
        if !chars_eq(&a[i], &b[i]) {
            proof {
                let ta = views_of(a@).take(b.len() as int);
                assert(ta[i as int] != views_of(b@)[i as int]);
            }
            return false;
        }
        i += 1;
    }
    assert(views_of(a@).take(b.len() as int) =~= views_of(b@));
    true
}

/// Whether `path` begins with `base`, component by component.
pub fn starts_with(path: &str, base: &str) -> (r: bool)
    ensures
        r == starts_with_path(path@, base@),
{
    let p = parse(path);
    let b = parse(base);
    p.absolute == b.absolute && parts_prefix(&p.parts, &b.parts)
}

/// Copies the components from index `from` on.
fn parts_from(v: &Vec<Vec<char>>, from: usize) -> (r: Vec<Vec<char>>)
    requires
        from <= v.len(),
    ensures
        views_of(r@) == views_of(v@).skip(from as int),
{
    let mut r: Vec<Vec<char>> = Vec::new();
    let mut i = from;
    proof {
        assert(views_of(r@) =~= views_of(v@).skip(from as int).take(0));
    }
    while i < v.len()
        invariant
            from <= i <= v.len(),
            views_of(r@) == views_of(v@).skip(from as int).take(i - from),
        decreases v.len() - i,
    {
        let c = copy_chars(&v[i]);
        proof {
            lemma_views_push(r@, c);
            assert(views_of(v@).skip(from as int).take(i + 1 - from) =~= views_of(v@).skip(
                from as int,
            ).take(i - from).push(v@[i as int]@));
        }
        r.push(c);
        i += 1;
    }
    assert(views_of(v@).skip(from as int).take(v.len() - from) =~= views_of(v@).skip(
        from as int,
    ));
    r
}

/// The relative remainder of `path` after `base`, or none when `path` does
/// not begin with `base`.
pub fn strip_prefix(path: &str, base: &str) -> (r: Option<String>)
    ensures
        r matches Some(x) ==> stripped(path@, base@) == Some(x@),
        r is None ==> stripped(path@, base@) is None,
{
    let p = parse(path);
    let b = parse(base);
    if p.absolute == b.absolute && parts_prefix(&p.parts, &b.parts) {
        let rest = parts_from(&p.parts, b.parts.len());
        Some(render_parts(false, &rest))
    } else {
        None
    }
}

/// Appends all components of `src` to `dst`.
fn append_parts(dst: &mut Vec<Vec<char>>, src: &Vec<Vec<char>>)
    ensures
        views_of(final(dst)@) == views_of(old(dst)@) + views_of(src@),
{
    let ghost start = views_of(dst@);
    let mut i: usize = 0;
    proof {
        assert(views_of(src@).take(0) =~= Seq::<Seq<char>>::empty());
        assert(start + views_of(src@).take(0) =~= start);
    }
    while i < src.len()
        invariant
            i <= src.len(),
            views_of(dst@) == start + views_of(src@).take(i as int),
        decreases src.len() - i,
    {
        let c = copy_chars(&src[i]);
        proof {
            lemma_views_push(dst@, c);
            assert(start + views_of(src@).take(i + 1) =~= (start + views_of(src@).take(
                i as int,
            )).push(src@[i as int]@));
        }
        dst.push(c);
        i += 1;
    }
    assert(views_of(src@).take(src.len() as int) =~= views_of(src@));
}

/// `rel` appended to `base` (an absolute `rel` replaces `base`), in
/// canonical spelling.
pub fn join(base: &str, rel: &str) -> (r: String)
    ensures
        r@ == joined(base@, rel@),
{
    let b = parse(base);
    let x = parse(rel);
    if x.absolute {
        render_parts(true, &x.parts)
    } else {
        let mut all = b.parts;
        append_parts(&mut all, &x.parts);
        render_parts(b.absolute, &all)
    }
}

/// `rel` written after `base` as `PathBuf::join` does on Unix: an absolute
/// `rel` replaces `base`; otherwise a `/` is put between them unless `base`
/// is empty or already ends with one. Neither side is respelled.
pub open spec fn appended(base: Seq<char>, rel: Seq<char>) -> Seq<char> {
    if rel.len() > 0 && rel[0] == '/' {
        rel
    } else if base.len() == 0 || base.last() == '/' {
        base + rel
    } else {
        base + seq!['/'] + rel
    }
}

/// `rel` written after `base`, as `PathBuf::join` does.
pub fn append_path(base: &str, rel: &str) -> (r: String)
    ensures
        r@ == appended(base@, rel@),
{
    let rc = chars_of(rel);
    if rc.len() > 0 && rc[0] == '/' {
        return owned(rel);
    }
    let bc = chars_of(base);
    let mut s = owned(base);
    if bc.len() > 0 && bc[bc.len() - 1] != '/' {
        push_char(&mut s, '/');
    }
    let mut t = s;
    t.append(rel);
    proof {
        if bc.len() > 0 && bc[bc.len() - 1] != '/' {
            assert(base@.last() == bc@[bc.len() - 1]);
            assert(t@ =~= base@ + seq!['/'] + rel@);
        } else {
            assert(t@ =~= base@ + rel@);
        }
    }
    t
}

/// The path without its last component.
pub fn parent(path: &str) -> (r: Option<String>)
    ensures
        r matches Some(x) ==> parent_of(path@) == Some(x@),
        r is None ==> parent_of(path@) is None,
{
    let mut p = parse(path);
    if p.parts.len() == 0 {
        None
    } else {
        let ghost before = p.parts@;
        p.parts.pop();
        proof {
            assert(views_of(p.parts@) =~= views_of(before).drop_last());
        }
        Some(render_parts(p.absolute, &p.parts))
    }
}

/// The normal form of a path: `.` dropped, each `..` removing the component
/// before it (dropped at the root of an absolute path, kept at the front of
/// a relative one).
pub fn normalize(path: &str) -> (r: String)
    ensures
        r@ == normalized(path@),
{
    let p = parse(path);
    let mut out: Vec<Vec<char>> = Vec::new();
    let mut i: usize = 0;
    proof {
        assert(views_of(p.parts@).take(0) =~= Seq::<Seq<char>>::empty());
        assert(views_of(out@) =~= Seq::<Seq<char>>::empty());
    }
    while i < p.parts.len()
        invariant
            i <= p.parts.len(),
            views_of(out@) == norm_comps(p.absolute, views_of(p.parts@).take(i as int)),
        decreases p.parts.len() - i,
    {
        let ghost vs = views_of(p.parts@);
        let ghost before = out@;
        proof {
            assert(vs.take(i + 1).drop_last() =~= vs.take(i as int));
            assert(vs.take(i + 1).last() == p.parts@[i as int]@);
        }
        if is_dot_dot(&p.parts[i]) {
            let pops = out.len() > 0 && !is_dot_dot(&out[out.len() - 1]);
            proof {
                if out.len() > 0 {
                    assert(views_of(before).last() == before[before.len() - 1]@);
                }
            }
            if pops {
                out.pop();
                proof {
                    assert(views_of(out@) =~= views_of(before).drop_last());
                }
            } else if !p.absolute {
                let c = copy_chars(&p.parts[i]);
                proof {
                    lemma_views_push(out@, c);
                }
                out.push(c);
            }
        } else {
            let c = copy_chars(&p.parts[i]);
            proof {
                lemma_views_push(out@, c);
            }
            out.push(c);
        }
        i += 1;
    }
    proof {
        assert(views_of(p.parts@).take(p.parts.len() as int) =~= views_of(p.parts@));
    }
    render_parts(p.absolute, &out)
}

/// What is left after stripping a base is a relative path.
pub proof fn law_stripped_is_relative(path: Seq<char>, base: Seq<char>)
    requires
        stripped(path, base) is Some,
    ensures
        !path_abs(stripped(path, base)->0),
{
    let pc = path_comps(path);
    let rest = pc.skip(path_comps(base).len() as int);
    lemma_path_comps_valid(path);
    assert forall|i: int| 0 <= i < rest.len() implies valid_component(#[trigger] rest[i]) by {
        assert(rest[i] == pc[i + path_comps(base).len()]);
    }
    lemma_comps_of_render(false, rest);
}

} // verus!
