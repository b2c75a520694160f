//! The symlink model: validation of one link against the indexed root, the
//! resolution of its target, and the root-relative form that is stored.
//!
//! What the filesystem says about a link (does it exist, is it a symlink,
//! what does it point to, where does that resolve canonically, does the
//! target exist) is gathered by the caller into [`LinkFacts`]; the rules
//! that turn those facts into a [`Symlink`] or a [`SymlinkError`] live here.
use vstd::prelude::*;

use crate::path::{
    dot_dot, is_absolute, join, joined, law_normalized_is_normal, law_rejoin_normalized, lemma_comps_of_render,
    lemma_path_comps_valid, normalize, normalized, parent, parent_of, path_abs, path_comps,
    starts_with, starts_with_path, strip_prefix, stripped,
};
use crate::text::owned;

verus! {

/// What the filesystem reports about one link.
pub struct LinkFacts {
    /// The type of the entry at the link's own path, not following it:
    /// `None` when it could not be read, `Some(true)` for a symlink.
    pub is_symlink: Option<bool>,
    /// The link's raw target, as stored in the link; `None` when unreadable.
    pub link_target: Option<String>,
    /// The canonical form of the resolved target; `None` when it could not
    /// be canonicalized (for instance because the target is missing).
    pub canonical_target: Option<String>,
    /// Whether the resolved target exists.
    pub target_exists: bool,
}

/// The facts about a link as mathematical values.
pub struct FactsView {
    pub is_symlink: Option<bool>,
    pub link_target: Option<Seq<char>>,
    pub canonical_target: Option<Seq<char>>,
    pub target_exists: bool,
}

/// The optional string as an optional character sequence.
pub open spec fn opt_view(o: Option<String>) -> Option<Seq<char>> {
    match o {
        Some(s) => Some(s@),
        None => None,
    }
}

impl View for LinkFacts {
    type V = FactsView;

    open spec fn view(&self) -> FactsView {
        FactsView {
            is_symlink: self.is_symlink,
            link_target: opt_view(self.link_target),
            canonical_target: opt_view(self.canonical_target),
            target_exists: self.target_exists,
        }
    }
}

/// Why a link was refused.
#[derive(Debug)]
pub enum SymlinkError {
    /// The link (or the root) could not be read.
    DoNotExist(String),
    /// The entry exists but is not a symlink.
    NotASymlink(String),
    /// The link's target resolves outside the root.
    TargetOutsideRoot { path: String, target: String, root: String },
    /// The link itself lies outside the root.
    PathOutsideRoot { path: String, root: String },
}

/// A refusal as mathematical values.
pub enum LinkFault {
    Missing(Seq<char>),
    NotLink(Seq<char>),
    TargetOutside { path: Seq<char>, target: Seq<char>, root: Seq<char> },
    PathOutside { path: Seq<char>, root: Seq<char> },
}

impl View for SymlinkError {
    type V = LinkFault;

    open spec fn view(&self) -> LinkFault {
        match self {
            SymlinkError::DoNotExist(p) => LinkFault::Missing(p@),
            SymlinkError::NotASymlink(p) => LinkFault::NotLink(p@),
            SymlinkError::TargetOutsideRoot { path, target, root } => LinkFault::TargetOutside {
                path: path@,
                target: target@,
                root: root@,
            },
            SymlinkError::PathOutsideRoot { path, root } => LinkFault::PathOutside {
                path: path@,
                root: root@,
            },
        }
    }
}

/// The form in which a link's path and target are kept: relative to the
/// root, in normal form.
pub open spec fn stored_form(l: LinkRecord) -> bool {
    &&& !path_abs(l.path)
    &&& normalized(l.path) == l.path
    &&& !path_abs(l.target)
    &&& normalized(l.target) == l.target
}

/// A validated link: its root as given, and its path and resolved target
/// relative to that root, both in normal form.
#[derive(Debug)]
pub struct Symlink {
    root: String,
    target: String,
    path: String,
    broken: bool,
}

/// A validated link as mathematical values.
pub struct LinkRecord {
    pub root: Seq<char>,
    pub path: Seq<char>,
    pub target: Seq<char>,
    pub broken: bool,
}

impl View for Symlink {
    type V = LinkRecord;

    closed spec fn view(&self) -> LinkRecord {
        LinkRecord {
            root: self.root@,
            path: self.path@,
            target: self.target@,
            broken: self.broken,
        }
    }
}

/// Where a link with raw target `target` at `path` points: an absolute
/// target as is, a relative one against the link's parent directory.
pub open spec fn resolved_of(path: Seq<char>, target: Seq<char>) -> Seq<char> {
    if path_abs(target) {
        target
    } else {
        match parent_of(path) {
            Some(p) => joined(p, target),
            None => target,
        }
    }
}

/// The target that is checked for containment: the canonical one when it
/// is known, else the resolved one.
pub open spec fn checked_target(resolved: Seq<char>, canonical: Option<Seq<char>>) -> Seq<char> {
    match canonical {
        Some(c) => c,
        None => resolved,
    }
}

/// The resolved target relative to the root: lexically against `root`, or
/// else canonically against the canonical root.
pub open spec fn relative_target(
    resolved: Seq<char>,
    root: Seq<char>,
    checked: Seq<char>,
    canonical_root: Seq<char>,
) -> Option<Seq<char>> {
    match stripped(resolved, root) {
        Some(x) => Some(x),
        None => stripped(checked, canonical_root),
    }
}

/// The decision for one link. The link's path, its resolved target, the
/// checked target and both roots are put in normal form before the
/// containment test and before the root is stripped, so that `.` and `..`
/// components can neither hide an escape from the root nor survive in the
/// stored forms.
pub open spec fn link_verdict(
    root: Seq<char>,
    path: Seq<char>,
    canonical_root: Option<Seq<char>>,
    facts: FactsView,
) -> Result<LinkRecord, LinkFault> {
    match facts.is_symlink {
        None => Err(LinkFault::Missing(path)),
        Some(false) => Err(LinkFault::NotLink(path)),
        Some(true) => match facts.link_target {
            None => Err(LinkFault::Missing(path)),
            Some(t) => match canonical_root {
                None => Err(LinkFault::Missing(root)),
                Some(cr) => {
                    let resolved = normalized(resolved_of(path, t));
                    let checked = normalized(checked_target(resolved, facts.canonical_target));
                    let ncr = normalized(cr);
                    let nroot = normalized(root);
                    if !starts_with_path(checked, ncr) {
                        Err(LinkFault::TargetOutside { path, target: t, root })
                    } else {
                        match stripped(normalized(path), nroot) {
                            None => Err(LinkFault::PathOutside { path, root }),
                            Some(rp) => match relative_target(resolved, nroot, checked, ncr) {
                                None => Err(LinkFault::TargetOutside { path, target: t, root }),
                                Some(rt) => Ok(
                                    LinkRecord {
                                        root,
                                        path: normalized(rp),
                                        target: normalized(rt),
                                        broken: !facts.target_exists,
                                    },
                                ),
                            },
                        }
                    }
                },
            },
        },
    }
}

/// Where the link at `path` with raw target `target` points.
pub fn resolve_link(path: &str, target: &str) -> (r: String)
    ensures
        r@ == resolved_of(path@, target@),
{
    if is_absolute(target) {
        owned(target)
    } else {
        match parent(path) {
            Some(p) => join(p.as_str(), target),
            None => owned(target),
        }
    }
}

/// The message that describes a refusal.
pub open spec fn fault_message(f: LinkFault) -> Seq<char> {
    match f {
        LinkFault::Missing(p) => "Path do not exist: "@ + p,
        LinkFault::NotLink(p) => "Path is not a symlink: "@ + p,
        LinkFault::TargetOutside { path, target, root } => "Target of symlink "@ + path
            + " resolves outside root "@ + root + ": "@ + target,
        LinkFault::PathOutside { path, root } => "Symlink path "@ + path + " is outside root "@
            + root,
    }
}

impl SymlinkError {
    /// The error's message.
    pub fn message(&self) -> (m: String)
        ensures
            m@ == fault_message(self@),
    {
        let mut m = String::new();
        match self {
            SymlinkError::DoNotExist(p) => {
                m.append("Path do not exist: ");
                m.append(p.as_str());
            },
            SymlinkError::NotASymlink(p) => {
                m.append("Path is not a symlink: ");
                m.append(p.as_str());
            },
            SymlinkError::TargetOutsideRoot { path, target, root } => {
                m.append("Target of symlink ");
                m.append(path.as_str());
                m.append(" resolves outside root ");
                m.append(root.as_str());
                m.append(": ");
                m.append(target.as_str());
            },
            SymlinkError::PathOutsideRoot { path, root } => {
                m.append("Symlink path ");
                m.append(path.as_str());
                m.append(" is outside root ");
                m.append(root.as_str());
            },
        }
        proof {
            assert(Seq::<char>::empty() + "Path do not exist: "@ =~= "Path do not exist: "@);
            assert(Seq::<char>::empty() + "Path is not a symlink: "@ =~= "Path is not a symlink: "@);
            assert(Seq::<char>::empty() + "Target of symlink "@ =~= "Target of symlink "@);
            assert(Seq::<char>::empty() + "Symlink path "@ =~= "Symlink path "@);
        }
        m
    }
}

impl Symlink {
    /// Validates the link at `path` against `root`, given the canonical form
    /// of the root (`None` when the root could not be canonicalized) and the
    /// facts about the link.
    pub fn new(root: &str, path: &str, canonical_root: Option<&str>, facts: &LinkFacts) -> (r:
        Result<Self, SymlinkError>)
        ensures
            r matches Ok(s) ==> link_verdict(
                root@,
                path@,
                match canonical_root {
                    Some(c) => Some(c@),
                    None => None,
                },
                facts@,
            ) == Ok::<LinkRecord, LinkFault>(s@),
            r matches Err(e) ==> link_verdict(
                root@,
                path@,
                match canonical_root {
                    Some(c) => Some(c@),
                    None => None,
                },
                facts@,
            ) == Err::<LinkRecord, LinkFault>(e@),
    {
        match canonical_root {
            Some(cr) => Self::new_with_canonical_root(root, cr, path, facts),
            None => {
                match facts.is_symlink {
                    None => Err(SymlinkError::DoNotExist(owned(path))),
                    Some(false) => Err(SymlinkError::NotASymlink(owned(path))),
                    Some(true) => match &facts.link_target {
                        None => Err(SymlinkError::DoNotExist(owned(path))),
                        Some(_) => Err(SymlinkError::DoNotExist(owned(root))),
                    },
                }
            },
        }
    }

    /// Validates the link at `path` against `root` whose canonical form is
    /// already known.
    pub fn new_with_canonical_root(
        root: &str,
        canonical_root: &str,
        path: &str,
        facts: &LinkFacts,
    ) -> (r: Result<Self, SymlinkError>)
        ensures
            r matches Ok(s) ==> link_verdict(root@, path@, Some(canonical_root@), facts@) == Ok::<
                LinkRecord,
                LinkFault,
            >(s@),
            r matches Err(e) ==> link_verdict(root@, path@, Some(canonical_root@), facts@) == Err::<
                LinkRecord,
                LinkFault,
            >(e@),
    {
        match facts.is_symlink {
            None => {
                return Err(SymlinkError::DoNotExist(owned(path)));
            },
            Some(false) => {
                return Err(SymlinkError::NotASymlink(owned(path)));
            },
            Some(true) => {},
        }
        let target = match &facts.link_target {
            None => {
                return Err(SymlinkError::DoNotExist(owned(path)));
            },
            Some(t) => t,
        };
        let raw = resolve_link(path, target.as_str());
        let resolved = normalize(raw.as_str());
        let checked = match &facts.canonical_target {
            Some(c) => normalize(c.as_str()),
            None => normalize(resolved.as_str()),
        };
        let ncr = normalize(canonical_root);
        let nroot = normalize(root);
        let npath = normalize(path);
        proof {
            crate::path::law_normalize_idempotent(raw@);
        }
        if !starts_with(checked.as_str(), ncr.as_str()) {
            return Err(
                SymlinkError::TargetOutsideRoot {
                    path: owned(path),
                    target: owned(target.as_str()),
                    root: owned(root),
                },
            );
        }
        let broken = !facts.target_exists;
        let rel_path = match strip_prefix(npath.as_str(), nroot.as_str()) {
            Some(p) => p,
            None => {
                return Err(
                    SymlinkError::PathOutsideRoot { path: owned(path), root: owned(root) },
                );
            },
        };
        let rel_target = match strip_prefix(resolved.as_str(), nroot.as_str()) {
            Some(t) => {
                proof {
                    crate::path::law_stripped_is_relative(resolved@, nroot@);
                }
                t
            },
            None => match strip_prefix(checked.as_str(), ncr.as_str()) {
                Some(t) => {
                    proof {
                        crate::path::law_stripped_is_relative(checked@, ncr@);
                    }
                    t
                },
                None => {
                    return Err(
                        SymlinkError::TargetOutsideRoot {
                            path: owned(path),
                            target: owned(target.as_str()),
                            root: owned(root),
                        },
                    );
                },
            },
        };
        proof {
            crate::path::law_stripped_is_relative(npath@, nroot@);
            law_normalized_is_normal(rel_path@);
            law_normalized_is_normal(rel_target@);
            crate::path::law_normalize_idempotent(rel_path@);
            crate::path::law_normalize_idempotent(rel_target@);
        }
        Ok(
            Symlink {
                root: owned(root),
                target: normalize(rel_target.as_str()),
                path: normalize(rel_path.as_str()),
                broken,
            },
        )
    }

    /// Every link holds its path and target in stored form.
    #[verifier::type_invariant]
    spec fn holds_stored_form(self) -> bool {
        stored_form(self@)
    }

    /// The root the link was validated against.
    pub fn root(&self) -> (r: &str)
        ensures
            r@ == self@.root,
    {
        self.root.as_str()
    }

    /// The resolved target, relative to the root, in normal form.
    pub fn target(&self) -> (r: &str)
        ensures
            r@ == self@.target,
    {
        self.target.as_str()
    }

    /// The link's own path, relative to the root, in normal form (as its
    /// target is).
    pub fn path(&self) -> (r: &str)
        ensures
            r@ == self@.path,
            stored_form(self@),
    {
        proof {
            use_type_invariant(self);
        }
        self.path.as_str()
    }

    /// Whether the resolved target is missing.
    pub fn broken(&self) -> (r: bool)
        ensures
            r == self@.broken,
    {
        self.broken
    }
}

/// An accepted link lies inside the root, its checked target inside the
/// canonical root (both in normal form), its stored path and target are
/// relative and in normal form, and it is broken exactly when its target is
/// missing. Joined back onto the root, the stored path leads to the link;
/// joined onto the root (or, when the target is only canonically inside,
/// onto the canonical root), the stored target leads to the link's target.
/// Below absolute roots the stored forms hold no `..` at all.
pub proof fn law_accepted_link_is_contained(
    root: Seq<char>,
    path: Seq<char>,
    canonical_root: Seq<char>,
    facts: FactsView,
)
    requires
        link_verdict(root, path, Some(canonical_root), facts) is Ok,
    ensures
        ({
            let rec = link_verdict(root, path, Some(canonical_root), facts)->Ok_0;
            let t = facts.link_target->0;
            let resolved = resolved_of(path, t);
            let checked = checked_target(normalized(resolved), facts.canonical_target);
            &&& facts.is_symlink == Some(true)
            &&& starts_with_path(normalized(path), normalized(root))
            &&& starts_with_path(normalized(checked), normalized(canonical_root))
            &&& !path_abs(rec.path)
            &&& !path_abs(rec.target)
            &&& normalized(rec.path) == rec.path
            &&& normalized(rec.target) == rec.target
            &&& rec.broken == !facts.target_exists
            &&& rec.root == root
            &&& normalized(joined(root, rec.path)) == normalized(path)
            &&& stripped(normalized(resolved), normalized(root)) is Some ==> normalized(
                joined(root, rec.target),
            ) == normalized(resolved)
            &&& stripped(normalized(resolved), normalized(root)) is None ==> normalized(
                joined(canonical_root, rec.target),
            ) == normalized(checked)
            &&& path_abs(root) && path_abs(canonical_root) ==> {
                &&& forall|i: int|
                    0 <= i < path_comps(rec.path).len() ==> #[trigger] path_comps(rec.path)[i]
                        != dot_dot()
                &&& forall|i: int|
                    0 <= i < path_comps(rec.target).len() ==> #[trigger] path_comps(rec.target)[i]
                        != dot_dot()
            }
        }),
{
    let t = facts.link_target->0;
    let resolved = normalized(resolved_of(path, t));
    let checked = normalized(checked_target(resolved, facts.canonical_target));
    let ncr = normalized(canonical_root);
    let nroot = normalized(root);
    let np = normalized(path);
    let rp = stripped(np, nroot)->0;
    let rt = relative_target(resolved, nroot, checked, ncr)->0;
    crate::path::law_normalize_idempotent(resolved_of(path, t));
    crate::path::law_normalize_idempotent(checked_target(resolved, facts.canonical_target));
    crate::path::law_normalize_idempotent(path);
    crate::path::law_normalize_idempotent(root);
    crate::path::law_normalize_idempotent(canonical_root);
    crate::path::law_normalized_is_normal(root);
    crate::path::law_normalized_is_normal(canonical_root);
    crate::path::law_stripped_is_relative(np, nroot);
    law_rejoin_normalized(np, nroot);
    crate::path::law_join_normalized_base(root, normalized(rp));
    if stripped(resolved, nroot) is Some {
        crate::path::law_stripped_is_relative(resolved, nroot);
        law_rejoin_normalized(resolved, nroot);
        crate::path::law_join_normalized_base(root, normalized(rt));
    } else {
        crate::path::law_stripped_is_relative(checked, ncr);
        law_rejoin_normalized(checked, ncr);
        crate::path::law_join_normalized_base(canonical_root, normalized(rt));
    }
    law_normalized_is_normal(rp);
    law_normalized_is_normal(rt);
    crate::path::law_normalize_idempotent(rp);
    crate::path::law_normalize_idempotent(rt);
    if path_abs(root) && path_abs(canonical_root) {
        crate::path::law_stripped_below_absolute_has_no_parent_steps(path, nroot);
        if stripped(resolved, nroot) is Some {
            crate::path::law_stripped_below_absolute_has_no_parent_steps(resolved_of(path, t), nroot);
        } else {
            crate::path::law_stripped_below_absolute_has_no_parent_steps(
                checked_target(resolved, facts.canonical_target),
                ncr,
            );
        }
    }
}

} // verus!
