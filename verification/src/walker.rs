//! The walker's decisions: which directories may be scanned, which entries
//! are pruned by the skip patterns, and what each visited entry yields.
//!
//! The traversal itself (reading directories, probing links) is done by the
//! caller, which asks `Walker::admits` before descending into an entry and
//! hands every visited entry to `Walker::examine`.
use vstd::prelude::*;

use crate::path::{
    lemma_comps_of_render, lemma_path_comps_valid, path_comps, starts_with, starts_with_path,
    strip_prefix, stripped, valid_component,
};
use crate::skip::{skip_decision, PatternView, Skip};
use crate::symlink::{fault_message, link_verdict, LinkFacts, LinkFault, Symlink, SymlinkError};
use crate::text::owned;

verus! {

/// Why a walker could not be set up.
#[derive(Debug)]
pub enum WalkerError {
    /// The root (or subroot) does not exist or is not a directory.
    RootIsNotADir(String),
    /// The subroot does not lie inside the root.
    SubrootNotInRoot(String),
    /// Reading the filesystem failed.
    Io(String),
    /// A link was refused.
    Symlink(SymlinkError),
}

/// A walker fault as mathematical values.
pub enum WalkerFault {
    NotADir(Seq<char>),
    SubrootOutside(Seq<char>),
    Io(Seq<char>),
    Link(LinkFault),
}

impl View for WalkerError {
    type V = WalkerFault;

    open spec fn view(&self) -> WalkerFault {
        match self {
            WalkerError::RootIsNotADir(p) => WalkerFault::NotADir(p@),
            WalkerError::SubrootNotInRoot(p) => WalkerFault::SubrootOutside(p@),
            WalkerError::Io(m) => WalkerFault::Io(m@),
            WalkerError::Symlink(e) => WalkerFault::Link(e@),
        }
    }
}

/// The message that describes a walker fault.
pub open spec fn walker_message(f: WalkerFault) -> Seq<char> {
    match f {
        WalkerFault::NotADir(p) => "Root of walker does not exist or isn't a directory: "@ + p,
        WalkerFault::SubrootOutside(p) => "Subroot is not inside root: "@ + p,
        WalkerFault::Io(m) => "IO Error: "@ + m,
        WalkerFault::Link(l) => "Symlink Error: "@ + fault_message(l),
    }
}

impl WalkerError {
    /// The error's message.
    pub fn message(&self) -> (m: String)
        ensures
            m@ == walker_message(self@),
    {
        let mut m = String::new();
        match self {
            WalkerError::RootIsNotADir(p) => {
                m.append("Root of walker does not exist or isn't a directory: ");
                m.append(p.as_str());
            },
            WalkerError::SubrootNotInRoot(p) => {
                m.append("Subroot is not inside root: ");
                m.append(p.as_str());
            },
            WalkerError::Io(e) => {
                m.append("IO Error: ");
                m.append(e.as_str());
            },
            WalkerError::Symlink(e) => {
                m.append("Symlink Error: ");
                let inner = e.message();
                m.append(inner.as_str());
            },
        }
        proof {
            assert(Seq::<char>::empty() + "Root of walker does not exist or isn't a directory: "@
                =~= "Root of walker does not exist or isn't a directory: "@);
            assert(Seq::<char>::empty() + "Subroot is not inside root: "@
                =~= "Subroot is not inside root: "@);
            assert(Seq::<char>::empty() + "IO Error: "@ =~= "IO Error: "@);
            assert(Seq::<char>::empty() + "Symlink Error: "@ =~= "Symlink Error: "@);
        }
        m
    }
}

/// A scan of `subroot`, which lies inside `root`.
pub struct Walker {
    root: String,
    subroot: String,
    skip: Option<Skip>,
}

/// A walker as mathematical values.
pub struct WalkerView {
    pub root: Seq<char>,
    pub subroot: Seq<char>,
    pub skip: Option<Seq<PatternView>>,
}

impl View for Walker {
    type V = WalkerView;

    closed spec fn view(&self) -> WalkerView {
        WalkerView {
            root: self.root@,
            subroot: self.subroot@,
            skip: match self.skip {
                Some(s) => Some(s@),
                None => None,
            },
        }
    }
}

/// The outcome of setting up a walker: the root must be a directory, the
/// subroot (the root itself when none is given) must lie inside the root
/// and be a directory.
pub open spec fn walker_setup(
    root: Seq<char>,
    root_is_dir: bool,
    subroot: Option<Seq<char>>,
    subroot_is_dir: bool,
) -> Result<(Seq<char>, Seq<char>), WalkerFault> {
    if !root_is_dir {
        Err(WalkerFault::NotADir(root))
    } else {
        match subroot {
            None => Ok((root, root)),
            Some(s) => if !starts_with_path(s, root) {
                Err(WalkerFault::SubrootOutside(s))
            } else if !subroot_is_dir {
                Err(WalkerFault::NotADir(s))
            } else {
                Ok((root, s))
            },
        }
    }
}

/// The path of an entry relative to the root, as the skip patterns see it:
/// the entry's own path when it does not lie under the root.
pub open spec fn relative_for_skip(root: Seq<char>, entry: Seq<char>) -> Seq<char> {
    match stripped(entry, root) {
        Some(r) => r,
        None => entry,
    }
}

/// Whether the walk keeps (and, for a directory, descends into) an entry:
/// the starting entry always, any other unless the skip patterns skip it.
pub open spec fn admitted(w: WalkerView, entry: Seq<char>, depth: nat, is_dir: bool) -> bool {
    if depth == 0 {
        true
    } else {
        match w.skip {
            Some(pats) => !skip_decision(
                pats,
                path_comps(relative_for_skip(w.root, entry)),
                is_dir,
            ),
            None => true,
        }
    }
}

/// One entry visited by the walk.
pub enum ScanEntry {
    /// The walk could not read an entry; the message says why.
    Unreadable(String),
    /// An entry that is not a symlink.
    Other { depth: usize },
    /// A symlink, with what the filesystem says about it.
    Link { path: String, depth: usize, facts: LinkFacts },
}

/// What one visited entry yields.
pub enum EntryOutcome {
    /// Nothing: not a symlink, or the starting entry.
    Ignored,
    /// A valid symlink.
    Found(Symlink),
    /// An error to report; the scan goes on.
    Failed(String),
}

impl Walker {
    /// Sets up a scan of `subroot` (the whole root when none is given).
    /// `root_is_dir` and `subroot_is_dir` say whether those paths are
    /// existing directories.
    pub fn new(root: String, root_is_dir: bool, subroot: Option<String>, subroot_is_dir: bool) -> (r:
        Result<Self, WalkerError>)
        ensures
            r matches Ok(w) ==> walker_setup(
                root@,
                root_is_dir,
                match subroot {
                    Some(s) => Some(s@),
                    None => None,
                },
                subroot_is_dir,
            ) == Ok::<(Seq<char>, Seq<char>), WalkerFault>((w@.root, w@.subroot)) && w@.skip
                is None,
            r matches Err(e) ==> walker_setup(
                root@,
                root_is_dir,
                match subroot {
                    Some(s) => Some(s@),
                    None => None,
                },
                subroot_is_dir,
            ) == Err::<(Seq<char>, Seq<char>), WalkerFault>(e@),
    {
        if !root_is_dir {
            return Err(WalkerError::RootIsNotADir(root));
        }
        let sub = match subroot {
            None => owned(root.as_str()),
            Some(s) => {
                if !starts_with(s.as_str(), root.as_str()) {
                    return Err(WalkerError::SubrootNotInRoot(s));
                }
                if !subroot_is_dir {
                    return Err(WalkerError::RootIsNotADir(s));
                }
                s
            },
        };
        Ok(Walker { root, subroot: sub, skip: None })
    }

    /// The same scan, pruning what `skip` matches.
    pub fn with_skip(self, skip: Skip) -> (r: Self)
        ensures
            r@.root == self@.root,
            r@.subroot == self@.subroot,
            r@.skip == Some(skip@),
    {
        Walker { root: self.root, subroot: self.subroot, skip: Some(skip) }
    }

    /// The root that stored paths are relative to.
    pub fn root(&self) -> (r: &str)
        ensures
            r@ == self@.root,
    {
        self.root.as_str()
    }

    /// Where the scan starts.
    pub fn subroot(&self) -> (r: &str)
        ensures
            r@ == self@.subroot,
    {
        self.subroot.as_str()
    }

    /// Whether the walk keeps the entry at `entry`, found at `depth` below
    /// the subroot; a directory that is not kept is not descended into.
    pub fn admits(&self, entry: &str, depth: usize, is_dir: bool) -> (r: bool)
        ensures
            r == admitted(self@, entry@, depth as nat, is_dir),
    {
        if depth == 0 {
            return true;
        }
        match &self.skip {
            Some(skip) => {
                let rel = match strip_prefix(entry, self.root.as_str()) {
                    Some(r) => r,
                    None => owned(entry),
                };
                !skip.matches(rel.as_str(), is_dir)
            },
            None => true,
        }
    }

    /// What a visited entry yields, given the canonical form of the root.
    pub fn examine(&self, canonical_root: &str, entry: &ScanEntry) -> (r: EntryOutcome)
        ensures
            match entry {
                ScanEntry::Unreadable(m) => r matches EntryOutcome::Failed(f) && f@ == m@,
                ScanEntry::Other { .. } => r is Ignored,
                ScanEntry::Link { path, depth, facts } => if *depth == 0 {
                    r is Ignored
                } else {
                    match link_verdict(self@.root, path@, Some(canonical_root@), facts@) {
                        Ok(rec) => r matches EntryOutcome::Found(s) && s@ == rec,
                        Err(fault) => r matches EntryOutcome::Failed(f) && f@ == fault_message(
                            fault,
                        ),
                    }
                },
            },
    {
        match entry {
            ScanEntry::Unreadable(m) => EntryOutcome::Failed(owned(m.as_str())),
            ScanEntry::Other { .. } => EntryOutcome::Ignored,
            ScanEntry::Link { path, depth, facts } => {
                if *depth == 0 {
                    EntryOutcome::Ignored
                } else {
                    match Symlink::new_with_canonical_root(
                        self.root.as_str(),
                        canonical_root,
                        path.as_str(),
                        facts,
                    ) {
                        Ok(s) => EntryOutcome::Found(s),
                        Err(e) => EntryOutcome::Failed(e.message()),
                    }
                }
            },
        }
    }
}

/// The subroot of a walker that was set up lies inside its root.
pub proof fn law_subroot_inside_root(
    root: Seq<char>,
    root_is_dir: bool,
    subroot: Option<Seq<char>>,
    subroot_is_dir: bool,
)
    requires
        walker_setup(root, root_is_dir, subroot, subroot_is_dir) is Ok,
    ensures
        ({
            let (r, s) = walker_setup(root, root_is_dir, subroot, subroot_is_dir)->Ok_0;
            &&& r == root
            &&& root_is_dir
            &&& starts_with_path(s, r)
        }),
{
    if subroot is None {
        crate::path::lemma_path_comps_valid(root);
        assert(crate::path::path_comps(root).take(crate::path::path_comps(root).len() as int)
            =~= crate::path::path_comps(root));
    }
}

/// The walk always keeps its starting entry, whatever the skip patterns
/// say (that entry is never recorded as a symlink: see `Walker::examine`).
pub proof fn law_walk_start_is_kept(w: WalkerView, entry: Seq<char>, is_dir: bool)
    ensures
        admitted(w, entry, 0, is_dir),
{
}

/// Below the start, an entry under the root is kept exactly when the skip
/// patterns do not skip it as matched against its path relative to the
/// root (its components after the root's), whatever the subroot is.
pub proof fn law_skip_matches_relative_to_root(
    w: WalkerView,
    entry: Seq<char>,
    depth: nat,
    is_dir: bool,
)
    requires
        depth > 0,
        starts_with_path(entry, w.root),
    ensures
        admitted(w, entry, depth, is_dir) == match w.skip {
            Some(pats) => !skip_decision(
                pats,
                path_comps(entry).skip(path_comps(w.root).len() as int),
                is_dir,
            ),
            None => true,
        },
{
    let pc = path_comps(entry);
    let rest = pc.skip(path_comps(w.root).len() as int);
    lemma_path_comps_valid(entry);
    assert forall|i: int| 0 <= i < rest.len() implies valid_component(#[trigger] rest[i]) by {
        assert(rest[i] == pc[i + path_comps(w.root).len()]);
    }
    lemma_comps_of_render(false, rest);
}

} // verus!
