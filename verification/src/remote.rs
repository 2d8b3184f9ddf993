//! The remote tree fetcher's pure half: decisions over one tree listing.
//!
//! The HTTP calls live with the caller; it hands this module each level's
//! listing (the API's entries plus its truncation flag).  This module picks
//! the subtree to descend into, splits a level into the leaves to record
//! and the child directories to recurse into, and records leaves in the
//! mapping — so that every reachable leaf under the subtree appears exactly
//! once, keyed by its path relative to the subtree root.

use vstd::prelude::*;
use vstd::string::StrSliceExecFns;
use vstd::string::StringExecFns;
use crate::mapping::TreeMapping;
use crate::text::str_eq;

verus! {

/// The type of one remote tree entry: a leaf, a subtree, or anything else
/// the API may report.
#[derive(Clone, Copy, PartialEq, Eq, Structural, Debug)]
pub enum EntryKind {
    Blob,
    Tree,
    Other,
}

/// One entry of a remote tree listing.
pub struct TreeEntry {
    pub path: String,
    pub kind: EntryKind,
    pub sha: String,
}

/// One remote tree listing: the entries and the API's own overflow signal.
pub struct TreeListing {
    pub entries: Vec<TreeEntry>,
    pub truncated: bool,
}

/// An entry is the subtree named `name`.
pub open spec fn is_subtree_match(e: TreeEntry, name: Seq<char>) -> bool {
    e.path@ == name && e.kind is Tree
}

/// `p` joined under `base` with `/` (just `p` when `base` is empty).
pub open spec fn joined_path(base: Seq<char>, p: Seq<char>) -> Seq<char> {
    if base.len() == 0 {
        p
    } else {
        base + seq!['/'] + p
    }
}

/// The (path, identifier) pairs of the leaves of one level, paths joined
/// under `base`, in entry order.
pub open spec fn level_blobs(entries: Seq<TreeEntry>, base: Seq<char>) -> Seq<
    (Seq<char>, Seq<char>),
>
    decreases entries.len(),
{
    if entries.len() == 0 {
        Seq::empty()
    } else {
        let pre = level_blobs(entries.drop_last(), base);
        if entries.last().kind is Blob {
            pre.push((joined_path(base, entries.last().path@), entries.last().sha@))
        } else {
            pre
        }
    }
}

/// The (identifier, joined path) pairs of the subtrees of one level, in
/// entry order: the directories a truncated listing forces the caller to
/// descend into.
pub open spec fn level_subtrees(entries: Seq<TreeEntry>, base: Seq<char>) -> Seq<
    (Seq<char>, Seq<char>),
>
    decreases entries.len(),
{
    if entries.len() == 0 {
        Seq::empty()
    } else {
        let pre = level_subtrees(entries.drop_last(), base);
        if entries.last().kind is Tree {
            pre.push((entries.last().sha@, joined_path(base, entries.last().path@)))
        } else {
            pre
        }
    }
}

/// The map after the pairs of `blobs` are inserted in order.
pub open spec fn inserted_all(
    m: Map<Seq<char>, Seq<char>>,
    blobs: Seq<(Seq<char>, Seq<char>)>,
) -> Map<Seq<char>, Seq<char>>
    decreases blobs.len(),
{
    if blobs.len() == 0 {
        m
    } else {
        inserted_all(m, blobs.drop_last()).insert(blobs.last().0, blobs.last().1)
    }
}

/// The identifier of the subtree named `name` at one level: the first entry
/// with that name and the directory type, as the caller's walk selects it.
pub fn find_subtree_entry(entries: &Vec<TreeEntry>, name: &str) -> (r: Option<String>)
    ensures
        match r {
            Some(sha) => exists|i: int|
                0 <= i < entries@.len() && #[trigger] is_subtree_match(entries@[i], name@) && sha@
                    == entries@[i].sha@ && (forall|j: int|
                    0 <= j < i ==> !is_subtree_match(entries@[j], name@)),
            None => forall|i: int|
                0 <= i < entries@.len() ==> !is_subtree_match(entries@[i], name@),
        },
{
    let n: usize = entries.len();
    let mut i: usize = 0;
    while i < n
        invariant
            i <= n,
            n == entries@.len(),
            forall|j: int| 0 <= j < i ==> !is_subtree_match(entries@[j], name@),
        decreases n - i,
    {
        let e = &entries[i];
        let is_tree: bool = match e.kind {
            EntryKind::Tree => true,
            _ => false,
        };
        if is_tree && str_eq(e.path.as_str(), name) {
            proof {
                assert(is_subtree_match(entries@[i as int], name@));
            }
            return Some(e.sha.clone());
        }
        i = i + 1;
    }
    None
}

/// Join `p` under `base` with `/` (just `p` when `base` is empty).
pub fn join_path(base: &str, p: &str) -> (r: String)
    ensures
        r@ == joined_path(base@, p@),
{
    if base.unicode_len() == 0 {
        p.to_owned()
    } else {
        let mut r = base.to_owned();
        r.append("/");
        r.append(p);
        proof {
            reveal_strlit("/");
            assert("/"@ =~= seq!['/']);
            assert(r@ =~= joined_path(base@, p@));
        }
        r
    }
}

/// Split one level's entries into the leaves to record and the subtrees to
/// descend into, each path joined under `base`.
pub fn split_tree_level(entries: &Vec<TreeEntry>, base: &str) -> (r: (
    Vec<(String, String)>,
    Vec<(String, String)>,
))
    ensures
        r.0@.map_values(|e: (String, String)| (e.0@, e.1@)) == level_blobs(entries@, base@),
        r.1@.map_values(|e: (String, String)| (e.0@, e.1@)) == level_subtrees(entries@, base@),
{
    let mut blobs: Vec<(String, String)> = Vec::new();
    let mut subtrees: Vec<(String, String)> = Vec::new();
    let n: usize = entries.len();
    let mut i: usize = 0;
    while i < n
        invariant
            i <= n,
            n == entries@.len(),
            blobs@.map_values(|e: (String, String)| (e.0@, e.1@)) == level_blobs(
                entries@.take(i as int),
                base@,
            ),
            subtrees@.map_values(|e: (String, String)| (e.0@, e.1@)) == level_subtrees(
                entries@.take(i as int),
                base@,
            ),
        decreases n - i,
    {
        let ghost post = entries@.take(i + 1);
        proof {
            assert(post.drop_last() =~= entries@.take(i as int));
            assert(post.last() == entries@[i as int]);
        }
        let e = &entries[i];
        match e.kind {
            EntryKind::Blob => {
                blobs.push((join_path(base, e.path.as_str()), e.sha.clone()));
            },
            EntryKind::Tree => {
                subtrees.push((e.sha.clone(), join_path(base, e.path.as_str())));
            },
            EntryKind::Other => {},
        }
        proof {
            assert(blobs@.map_values(|e: (String, String)| (e.0@, e.1@)) =~= level_blobs(
                post,
                base@,
            ));
            assert(subtrees@.map_values(|e: (String, String)| (e.0@, e.1@)) =~= level_subtrees(
                post,
                base@,
            ));
        }
        i = i + 1;
    }
    proof {
        assert(entries@.take(n as int) =~= entries@);
    }
    (blobs, subtrees)
}

/// The leaves of a deep listing, when it may be trusted: a truncated
/// listing is incomplete and yields `None`, forcing the caller to fall back
/// to per-directory traversal.
pub fn complete_listing_blobs(listing: &TreeListing, base: &str) -> (r: Option<
    Vec<(String, String)>,
>)
    ensures
        (r is Some) == !listing.truncated,
        r matches Some(b) ==> b@.map_values(|e: (String, String)| (e.0@, e.1@)) == level_blobs(
            listing.entries@,
            base@,
        ),
{
    if listing.truncated {
        None
    } else {
        let (blobs, _) = split_tree_level(&listing.entries, base);
        Some(blobs)
    }
}

/// Record a level's leaves in the mapping, in order.
pub fn record_blobs(m: &mut TreeMapping, blobs: &Vec<(String, String)>)
    requires
        old(m).wf(),
    ensures
        final(m).wf(),
        final(m)@ == inserted_all(
            old(m)@,
            blobs@.map_values(|e: (String, String)| (e.0@, e.1@)),
        ),
{
    let ghost all = blobs@.map_values(|e: (String, String)| (e.0@, e.1@));
    let n: usize = blobs.len();
    let mut i: usize = 0;
    while i < n
        invariant
            i <= n,
            n == blobs@.len(),
            all == blobs@.map_values(|e: (String, String)| (e.0@, e.1@)),
            m.wf(),
            m@ == inserted_all(old(m)@, all.take(i as int)),
        decreases n - i,
    {
        proof {
            assert(all.take(i + 1).drop_last() =~= all.take(i as int));
            assert(all.take(i + 1).last() == all[i as int]);
        }
        let e = &blobs[i];
        m.insert(e.0.clone(), e.1.clone());
        i = i + 1;
    }
    proof {
        assert(all.take(n as int) =~= all);
    }
}

} // verus!
