//! Skip patterns with gitignore semantics, matched against paths relative
//! to the root.
//!
//! A pattern is compiled as follows. An empty pattern, or one starting with
//! `#`, is ignored. A leading `!` negates it. A trailing `/` restricts it to
//! directories. A pattern holding a `/` elsewhere is anchored at the root;
//! any other pattern matches at any depth. Within a component `*` matches
//! any run of characters and `?` any one character; a component `**`
//! matches any number of components (at least one when it is the last
//! component). The last pattern that matches decides: a plain one skips
//! the entry, a negated one keeps it.
use vstd::prelude::*;

use crate::path::{parse, path_comps, views_of};
use crate::text::chars_of;

verus! {

/// The component `**`.
pub open spec fn glob_star() -> Seq<char> {
    seq!['*', '*']
}

/// Whether the pattern component `p` matches the name `s`.
pub open spec fn wild_match(p: Seq<char>, s: Seq<char>) -> bool
    decreases p.len() + s.len(),
{
    if p.len() == 0 {
        s.len() == 0
    } else if p[0] == '*' {
        wild_match(p.drop_first(), s) || (s.len() > 0 && wild_match(p, s.drop_first()))
    } else if s.len() == 0 {
        false
    } else if p[0] == '?' || p[0] == s[0] {
        wild_match(p.drop_first(), s.drop_first())
    } else {
        false
    }
}

/// Whether the pattern components `p` match the path components `s`.
pub open spec fn comps_match(p: Seq<Seq<char>>, s: Seq<Seq<char>>) -> bool
    decreases p.len() + s.len(),
{
    if p.len() == 0 {
        s.len() == 0
    } else if p[0] == glob_star() {
        if p.len() == 1 {
            s.len() > 0
        } else {
            comps_match(p.drop_first(), s) || (s.len() > 0 && comps_match(p, s.drop_first()))
        }
    } else if s.len() == 0 {
        false
    } else {
        wild_match(p[0], s[0]) && comps_match(p.drop_first(), s.drop_first())
    }
}

/// A compiled pattern as mathematical values.
pub struct PatternView {
    pub negated: bool,
    pub dir_only: bool,
    pub comps: Seq<Seq<char>>,
}

/// The pattern without its leading `!`, if any.
pub open spec fn unnegated(text: Seq<char>) -> Seq<char> {
    if text.len() > 0 && text[0] == '!' {
        text.drop_first()
    } else {
        text
    }
}

/// The pattern body: without leading `!` and trailing `/`.
pub open spec fn pattern_body(text: Seq<char>) -> Seq<char> {
    let t = unnegated(text);
    if t.len() > 0 && t.last() == '/' {
        t.drop_last()
    } else {
        t
    }
}

/// The compiled form of a pattern text; none for an ignored one.
pub open spec fn compile(text: Seq<char>) -> Option<PatternView> {
    if text.len() == 0 || text[0] == '#' {
        None
    } else {
        let t = unnegated(text);
        let body = pattern_body(text);
        let cs = path_comps(body);
        Some(
            PatternView {
                negated: text[0] == '!',
                dir_only: t.len() > 0 && t.last() == '/',
                comps: if body.contains('/') {
                    cs
                } else {
                    seq![glob_star()] + cs
                },
            },
        )
    }
}

/// Whether a compiled pattern matches an entry.
pub open spec fn pattern_hits(pat: PatternView, rel: Seq<Seq<char>>, is_dir: bool) -> bool {
    (!pat.dir_only || is_dir) && comps_match(pat.comps, rel)
}

/// Whether an entry is skipped: the last matching pattern decides.
pub open spec fn skip_decision(pats: Seq<PatternView>, rel: Seq<Seq<char>>, is_dir: bool) -> bool
    decreases pats.len(),
{
    if pats.len() == 0 {
        false
    } else if pattern_hits(pats.last(), rel, is_dir) {
        !pats.last().negated
    } else {
        skip_decision(pats.drop_last(), rel, is_dir)
    }
}

/// The compiled forms of pattern texts, ignored ones left out.
pub open spec fn compile_all(texts: Seq<Seq<char>>) -> Seq<PatternView>
    decreases texts.len(),
{
    if texts.len() == 0 {
        Seq::empty()
    } else {
        let r = compile_all(texts.drop_last());
        match compile(texts.last()) {
            Some(p) => r.push(p),
            None => r,
        }
    }
}

/// A compiled pattern.
pub struct SkipPattern {
    negated: bool,
    dir_only: bool,
    parts: Vec<Vec<char>>,
}

impl View for SkipPattern {
    type V = PatternView;

    closed spec fn view(&self) -> PatternView {
        PatternView { negated: self.negated, dir_only: self.dir_only, comps: views_of(self.parts@) }
    }
}

/// The skip rules of a configuration.
pub struct Skip {
    patterns: Vec<SkipPattern>,
}

impl View for Skip {
    type V = Seq<PatternView>;

    closed spec fn view(&self) -> Seq<PatternView> {
        self.patterns@.map_values(|p: SkipPattern| p@)
    }
}

proof fn lemma_wild_unfold(p: Seq<char>, s: Seq<char>, i: int, j: int)
    requires
        0 <= i < p.len(),
        0 <= j <= s.len(),
    ensures
        p.skip(i).drop_first() == p.skip(i + 1),
        p.skip(i)[0] == p[i],
        j < s.len() ==> s.skip(j).drop_first() == s.skip(j + 1),
        j < s.len() ==> s.skip(j)[0] == s[j],
        s.skip(j).len() == s.len() - j,
{
    assert(p.skip(i).drop_first() =~= p.skip(i + 1));
    if j < s.len() {
        assert(s.skip(j).drop_first() =~= s.skip(j + 1));
    }
}

/// Whether the pattern component `p` matches the name `s` (dynamic
/// programming over suffixes).
pub fn wild_matches(p: &Vec<char>, s: &Vec<char>) -> (r: bool)
    ensures
        r == wild_match(p@, s@),
{
    let n = p.len();
    let m = s.len();
    // Row for the empty pattern suffix.
    let mut next: Vec<bool> = Vec::new();
    let mut k: usize = 0;
    while k < m
        invariant
            k <= m,
            m == s@.len(),
            n == p@.len(),
            next@.len() == k,
            forall|j: int| 0 <= j < k ==> next@[j] == wild_match(p@.skip(n as int), s@.skip(j)),
        decreases m - k,
    {
        proof {
            assert(p@.skip(n as int).len() == 0);
            assert(s@.skip(k as int).len() > 0);
        }
        next.push(false);
        k += 1;
    }
    let mut next_end = true;
    proof {
        assert(p@.skip(n as int).len() == 0);
        assert(s@.skip(m as int).len() == 0);
    }
    let mut i = n;
    while i > 0
        invariant
            i <= n,
            n == p@.len(),
            m == s@.len(),
            next@.len() == m,
            next_end == wild_match(p@.skip(i as int), s@.skip(m as int)),
            forall|j: int| 0 <= j < m ==> next@[j] == wild_match(p@.skip(i as int), s@.skip(j)),
        decreases i,
    {
        i -= 1;
        let c = p[i];
        proof {
            lemma_wild_unfold(p@, s@, i as int, m as int);
        }
        let cur_end = if c == '*' {
            next_end
        } else {
            false
        };
        let mut cur: Vec<bool> = Vec::new();
        let mut k: usize = 0;
        while k < m
            invariant
                k <= m,
                cur@.len() == k,
            decreases m - k,
        {
            cur.push(false);
            k += 1;
        }
        let mut j = m;
        let mut after = cur_end;
        while j > 0
            invariant
                j <= m,
                i < n,
                n == p@.len(),
                m == s@.len(),
                c == p@[i as int],
                cur@.len() == m,
                next@.len() == m,
                next_end == wild_match(p@.skip(i + 1), s@.skip(m as int)),
                forall|jj: int| 0 <= jj < m ==> next@[jj] == wild_match(p@.skip(i + 1), s@.skip(jj)),
                cur_end == wild_match(p@.skip(i as int), s@.skip(m as int)),
                after == wild_match(p@.skip(i as int), s@.skip(j as int)),
                forall|jj: int| j <= jj < m ==> cur@[jj] == wild_match(p@.skip(i as int), s@.skip(jj)),
            decreases j,
        {
            j -= 1;
            proof {
                lemma_wild_unfold(p@, s@, i as int, j as int);
            }
            let below = if j + 1 < m {
                next[j + 1]
            } else {
                next_end
            };
            let v = if c == '*' {
                next[j] || after
            } else if c == '?' || c == s[j] {
                below
            } else {
                false
            };
            cur.set(j, v);
            after = v;
        }
        next = cur;
        next_end = cur_end;
    }
    proof {
        assert(p@.skip(0) =~= p@);
        assert(s@.skip(0) =~= s@);
    }
    if m == 0 {
        next_end
    } else {
        next[0]
    }
}

proof fn lemma_comps_unfold(p: Seq<Seq<char>>, s: Seq<Seq<char>>, i: int, j: int)
    requires
        0 <= i < p.len(),
        0 <= j <= s.len(),
    ensures
        p.skip(i).drop_first() == p.skip(i + 1),
        p.skip(i)[0] == p[i],
        p.skip(i).len() == p.len() - i,
        j < s.len() ==> s.skip(j).drop_first() == s.skip(j + 1),
        j < s.len() ==> s.skip(j)[0] == s[j],
        s.skip(j).len() == s.len() - j,
{
    assert(p.skip(i).drop_first() =~= p.skip(i + 1));
    if j < s.len() {
        assert(s.skip(j).drop_first() =~= s.skip(j + 1));
    }
}

fn is_glob_star(c: &Vec<char>) -> (r: bool)
    ensures
        r == (c@ == glob_star()),
{
    let r = c.len() == 2 && c[0] == '*' && c[1] == '*';
    assert(r ==> c@ =~= glob_star());
    r
}

/// Whether the pattern components `p` match the path components `s`
/// (dynamic programming over suffixes).
pub fn comps_matches(p: &Vec<Vec<char>>, s: &Vec<Vec<char>>) -> (r: bool)
    ensures
        r == comps_match(views_of(p@), views_of(s@)),
{
    let ghost pv = views_of(p@);
    let ghost sv = views_of(s@);
    let n = p.len();
    let m = s.len();
    let mut next: Vec<bool> = Vec::new();
    let mut k: usize = 0;
    while k < m
        invariant
            k <= m,
            m == sv.len(),
            n == pv.len(),
            pv == views_of(p@),
            sv == views_of(s@),
            next@.len() == k,
            forall|j: int| 0 <= j < k ==> next@[j] == comps_match(pv.skip(n as int), sv.skip(j)),
        decreases m - k,
    {
        proof {
            assert(pv.skip(n as int).len() == 0);
            assert(sv.skip(k as int).len() > 0);
        }
        next.push(false);
        k += 1;
    }
    let mut next_end = true;
    proof {
        assert(pv.skip(n as int).len() == 0);
        assert(sv.skip(m as int).len() == 0);
    }
    let mut i = n;
    while i > 0
        invariant
            i <= n,
            n == pv.len(),
            m == sv.len(),
            pv == views_of(p@),
            sv == views_of(s@),
            next@.len() == m,
            next_end == comps_match(pv.skip(i as int), sv.skip(m as int)),
            forall|j: int| 0 <= j < m ==> next@[j] == comps_match(pv.skip(i as int), sv.skip(j)),
        decreases i,
    {
        i -= 1;
        let star = is_glob_star(&p[i]);
        let last = i + 1 == n;
        proof {
            lemma_comps_unfold(pv, sv, i as int, m as int);
            assert(pv[i as int] == p@[i as int]@);
        }
        let cur_end = if star {
            if last {
                false
            } else {
                next_end
            }
        } else {
            false
        };
        let mut cur: Vec<bool> = Vec::new();
        let mut k: usize = 0;
        while k < m
            invariant
                k <= m,
                cur@.len() == k,
            decreases m - k,
        {
            cur.push(false);
            k += 1;
        }
        let mut j = m;
        let mut after = cur_end;
        while j > 0
            invariant
                j <= m,
                i < n,
                n == pv.len(),
                m == sv.len(),
                pv == views_of(p@),
                sv == views_of(s@),
                star == (pv[i as int] == glob_star()),
                last == (i + 1 == n),
                cur@.len() == m,
                next@.len() == m,
                next_end == comps_match(pv.skip(i + 1), sv.skip(m as int)),
                forall|jj: int| 0 <= jj < m ==> next@[jj] == comps_match(pv.skip(i + 1), sv.skip(jj)),
                cur_end == comps_match(pv.skip(i as int), sv.skip(m as int)),
                after == comps_match(pv.skip(i as int), sv.skip(j as int)),
                forall|jj: int|
                    j <= jj < m ==> cur@[jj] == comps_match(pv.skip(i as int), sv.skip(jj)),
            decreases j,
        {
            j -= 1;
            proof {
                lemma_comps_unfold(pv, sv, i as int, j as int);
                assert(pv[i as int] == p@[i as int]@);
                assert(sv[j as int] == s@[j as int]@);
            }
            let v = if star {
                if last {
                    true
                } else {
                    next[j] || after
                }
            } else {
                let below = if j + 1 < m {
                    next[j + 1]
                } else {
                    next_end
                };
                below && wild_matches(&p[i], &s[j])
            };
            cur.set(j, v);
            after = v;
        }
        next = cur;
        next_end = cur_end;
    }
    proof {
        assert(pv.skip(0) =~= pv);
        assert(sv.skip(0) =~= sv);
    }
    if m == 0 {
        next_end
    } else {
        next[0]
    }
}

fn contains_slash(v: &Vec<char>) -> (r: bool)
    ensures
        r == v@.contains('/'),
{
    let mut i: usize = 0;
    while i < v.len()
        invariant
            i <= v.len(),
            forall|k: int| 0 <= k < i ==> v@[k] != '/',
        decreases v.len() - i,
    {
        if v[i] == '/' {
            return true;
        }
        i += 1;
    }
    false
}

impl SkipPattern {
    /// Compiles a pattern text; none for an empty or comment pattern.
    pub fn compile(text: &str) -> (r: Option<SkipPattern>)
        ensures
            r matches Some(p) ==> compile(text@) == Some(p@),
            r is None ==> compile(text@) is None,
    {
        let cs = chars_of(text);
        if cs.len() == 0 || cs[0] == '#' {
            return None;
        }
        let negated = cs[0] == '!';
        let mut t: Vec<char> = Vec::new();
        let start: usize = if negated {
            1
        } else {
            0
        };
        let mut i = start;
        while i < cs.len()
            invariant
                start <= i <= cs.len(),
                start == (if negated { 1usize } else { 0usize }),
                t@ == cs@.subrange(start as int, i as int),
            decreases cs.len() - i,
        {
            t.push(cs[i]);
            i += 1;
        }
        proof {
            assert(t@ =~= unnegated(text@));
        }
        let dir_only = t.len() > 0 && t[t.len() - 1] == '/';
        if dir_only {
            t.pop();
        }
        proof {
            assert(t@ =~= pattern_body(text@));
        }
        let anchored = contains_slash(&t);
        let body = crate::text::string_of(&t);
        let parsed = parse(body.as_str());
        let parts = if anchored {
            parsed.parts
        } else {
            let mut v: Vec<Vec<char>> = Vec::new();
            v.push(vec!['*', '*']);
            let mut rest = parsed.parts;
            let ghost rv = views_of(rest@);
            proof {
                assert(views_of(v@) =~= seq![glob_star()]);
            }
            let mut k: usize = 0;
            let ghost head = views_of(v@);
            while k < rest.len()
                invariant
                    k <= rest.len(),
                    views_of(v@) == head + views_of(rest@).take(k as int),
                decreases rest.len() - k,
            {
                let c = crate::text::copy_chars(&rest[k]);
                proof {
                    assert(views_of(v@.push(c)) =~= views_of(v@).push(c@));
                    assert(views_of(rest@).take(k + 1) =~= views_of(rest@).take(k as int).push(rest@[k as int]@));
                }
                v.push(c);
                k += 1;
            }
            proof {
                assert(views_of(rest@).take(rest.len() as int) =~= views_of(rest@));
            }
            v
        };
        Some(SkipPattern { negated, dir_only, parts })
    }

    /// Whether this pattern matches an entry with the given relative
    /// components.
    fn hits(&self, rel: &Vec<Vec<char>>, is_dir: bool) -> (r: bool)
        ensures
            r == pattern_hits(self@, views_of(rel@), is_dir),
    {
        (!self.dir_only || is_dir) && comps_matches(&self.parts, rel)
    }
}

impl Skip {
    /// Compiles the patterns, in order; empty and comment patterns are left
    /// out.
    pub fn new(patterns: &[String]) -> (r: Skip)
        ensures
            r@ == compile_all(patterns@.map_values(|s: String| s@)),
    {
        let ghost texts = patterns@.map_values(|s: String| s@);
        let mut out: Vec<SkipPattern> = Vec::new();
        let mut i: usize = 0;
        proof {
            assert(texts.take(0) =~= Seq::<Seq<char>>::empty());
            assert(out@.map_values(|p: SkipPattern| p@) =~= Seq::<PatternView>::empty());
        }
        while i < patterns.len()
            invariant
                i <= patterns.len(),
                texts == patterns@.map_values(|s: String| s@),
                out@.map_values(|p: SkipPattern| p@) == compile_all(texts.take(i as int)),
            decreases patterns.len() - i,
        {
            let c = SkipPattern::compile(patterns[i].as_str());
            proof {
                assert(texts.take(i + 1).drop_last() =~= texts.take(i as int));
                assert(texts.take(i + 1).last() == patterns@[i as int]@);
            }
            match c {
                Some(p) => {
                    let ghost before = out@;
                    out.push(p);
                    proof {
                        assert(out@.map_values(|p: SkipPattern| p@) =~= before.map_values(
                            |p: SkipPattern| p@,
                        ).push(out@[before.len() as int]@));
                    }
                },
                None => {},
            }
            i += 1;
        }
        proof {
            assert(texts.take(patterns.len() as int) =~= texts);
        }
        Skip { patterns: out }
    }

    /// No patterns: nothing is skipped.
    pub fn none() -> (r: Skip)
        ensures
            r@ == Seq::<PatternView>::empty(),
    {
        let r = Skip { patterns: Vec::new() };
        assert(r@ =~= Seq::<PatternView>::empty());
        r
    }

    /// Whether the entry at `rel` (relative to the root) is skipped.
    pub fn matches(&self, rel: &str, is_dir: bool) -> (r: bool)
        ensures
            r == skip_decision(self@, path_comps(rel@), is_dir),
    {
        let parsed = parse(rel);
        let mut result = false;
        let mut i: usize = 0;
        proof {
            assert(self@.take(0) =~= Seq::<PatternView>::empty());
        }
        while i < self.patterns.len()
            invariant
                i <= self.patterns.len(),
                views_of(parsed.parts@) == path_comps(rel@),
                result == skip_decision(self@.take(i as int), path_comps(rel@), is_dir),
            decreases self.patterns.len() - i,
        {
            let hit = self.patterns[i].hits(&parsed.parts, is_dir);
            proof {
                assert(self@.take(i + 1).drop_last() =~= self@.take(i as int));
                assert(self@.take(i + 1).last() == self.patterns@[i as int]@);
            }
            if hit {
                result = !self.patterns[i].negated;
            }
            i += 1;
        }
        proof {
            assert(self@.take(self.patterns.len() as int) =~= self@);
        }
        result
    }
}

} // verus!

verus! {

// ---------------------------------------------------------------------------
// Laws

/// The last matching pattern decides: it skips the entry unless negated.
pub proof fn law_last_match_decides(
    pats: Seq<PatternView>,
    k: int,
    rel: Seq<Seq<char>>,
    is_dir: bool,
)
    requires
        0 <= k < pats.len(),
        pattern_hits(pats[k], rel, is_dir),
        forall|j: int| k < j < pats.len() ==> !pattern_hits(#[trigger] pats[j], rel, is_dir),
    ensures
        skip_decision(pats, rel, is_dir) == !pats[k].negated,
    decreases pats.len(),
{
    if k < pats.len() - 1 {
        assert(!pattern_hits(pats[pats.len() - 1], rel, is_dir));
        let d = pats.drop_last();
        assert forall|j: int| k < j < d.len() implies !pattern_hits(#[trigger] d[j], rel, is_dir) by {
            assert(d[j] == pats[j]);
        }
        assert(d[k] == pats[k]);
        law_last_match_decides(d, k, rel, is_dir);
    }
}

/// An entry that no pattern matches is not skipped.
pub proof fn law_unmatched_is_kept(pats: Seq<PatternView>, rel: Seq<Seq<char>>, is_dir: bool)
    requires
        forall|j: int| 0 <= j < pats.len() ==> !pattern_hits(#[trigger] pats[j], rel, is_dir),
    ensures
        !skip_decision(pats, rel, is_dir),
    decreases pats.len(),
{
    if pats.len() > 0 {
        assert(!pattern_hits(pats[pats.len() - 1], rel, is_dir));
        let d = pats.drop_last();
        assert forall|j: int| 0 <= j < d.len() implies !pattern_hits(#[trigger] d[j], rel, is_dir) by {
            assert(d[j] == pats[j]);
        }
        law_unmatched_is_kept(d, rel, is_dir);
    }
}

proof fn lemma_star_prefix(cs: Seq<Seq<char>>, prefix: Seq<Seq<char>>, s: Seq<Seq<char>>)
    requires
        cs.len() >= 1,
        comps_match(cs, s),
    ensures
        comps_match(seq![glob_star()] + cs, prefix + s),
    decreases prefix.len(),
{
    let p = seq![glob_star()] + cs;
    assert(p.drop_first() =~= cs);
    assert(p[0] == glob_star());
    if prefix.len() == 0 {
        assert(prefix + s =~= s);
    } else {
        lemma_star_prefix(cs, prefix.drop_first(), s);
        assert((prefix + s).drop_first() =~= prefix.drop_first() + s);
    }
}

/// A pattern without a separator (other than a trailing one) matches at any
/// depth: when it matches an entry's name, it matches that name below any
/// directories.
pub proof fn law_unanchored_pattern_matches_at_any_depth(
    text: Seq<char>,
    dirs: Seq<Seq<char>>,
    name: Seq<char>,
    is_dir: bool,
)
    requires
        compile(text) is Some,
        !pattern_body(text).contains('/'),
        path_comps(pattern_body(text)).len() >= 1,
        comps_match(path_comps(pattern_body(text)), seq![name]),
        !(compile(text)->0).dir_only || is_dir,
    ensures
        pattern_hits(compile(text)->0, dirs.push(name), is_dir),
        pattern_hits(compile(text)->0, seq![name], is_dir),
{
    let cs = path_comps(pattern_body(text));
    lemma_star_prefix(cs, dirs, seq![name]);
    assert(dirs + seq![name] =~= dirs.push(name));
    lemma_star_prefix(cs, Seq::empty(), seq![name]);
    assert(Seq::<Seq<char>>::empty() + seq![name] =~= seq![name]);
}

} // verus!
