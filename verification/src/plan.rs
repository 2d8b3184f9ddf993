//! The reconciliation engine: given the remote and the local tree mapping,
//! build the three-way sync plan — files to download, files to delete, and
//! counts of entries that were skipped or already current.
//!
//! Planning is pure: no I/O, and the plan is a function of the two mappings
//! alone.  The decision for each remote path honors the disabled-variant
//! convention (an up-to-date disabled copy is respected; a stale one is
//! refreshed in place), and paths under the excluded subtree are never
//! touched on either side.

use vstd::prelude::*;
use crate::mapping::{TreeMapping, map_of, distinct_keys, lemma_map_of_contains, lemma_map_of_index};
use crate::paths::{
    is_excluded, disabled_of, enabled_of, should_skip_path, get_disabled_path, get_enabled_path,
    lemma_disabled_round_trip, lemma_excluded_disabled,
};
use crate::text::str_eq;

verus! {

/// What a remote entry asks for: the download destination when the entry
/// must be fetched, `None` when nothing is to be done for it.
///
/// The destination is the remote path itself, or its disabled variant when
/// the user keeps a (stale) disabled copy of it.
pub open spec fn download_target(
    local: Map<Seq<char>, Seq<char>>,
    p: Seq<char>,
    rid: Seq<char>,
) -> Option<Seq<char>> {
    if is_excluded(p) {
        None
    } else if local.contains_key(p) && local[p] == rid {
        None
    } else if local.contains_key(disabled_of(p)) {
        if local[disabled_of(p)] == rid {
            None
        } else {
            Some(disabled_of(p))
        }
    } else {
        Some(p)
    }
}

/// A remote entry counts as skipped when it is excluded, or when an
/// up-to-date disabled copy of it exists locally.
pub open spec fn remote_skipped(
    local: Map<Seq<char>, Seq<char>>,
    p: Seq<char>,
    rid: Seq<char>,
) -> bool {
    ||| is_excluded(p)
    ||| {
        &&& !(local.contains_key(p) && local[p] == rid)
        &&& local.contains_key(disabled_of(p))
        &&& local[disabled_of(p)] == rid
    }
}

/// A remote entry counts as current when a local copy — plain or disabled —
/// already carries the remote content.
pub open spec fn remote_current(
    local: Map<Seq<char>, Seq<char>>,
    p: Seq<char>,
    rid: Seq<char>,
) -> bool {
    &&& !is_excluded(p)
    &&& {
        ||| (local.contains_key(p) && local[p] == rid)
        ||| (local.contains_key(disabled_of(p)) && local[disabled_of(p)] == rid)
    }
}

/// A local entry is deleted when it is not excluded, is absent from the
/// remote tree, and is not a disabled variant of a path the remote tree
/// still carries.
pub open spec fn should_delete(remote: Map<Seq<char>, Seq<char>>, q: Seq<char>) -> bool {
    &&& !is_excluded(q)
    &&& !remote.contains_key(q)
    &&& match enabled_of(q) {
        Some(e) => !remote.contains_key(e),
        None => true,
    }
}

/// Download destinations of a sequence of remote entries, in entry order.
pub open spec fn download_targets(
    rs: Seq<(Seq<char>, Seq<char>)>,
    local: Map<Seq<char>, Seq<char>>,
) -> Seq<Seq<char>>
    decreases rs.len(),
{
    if rs.len() == 0 {
        Seq::empty()
    } else {
        let pre = download_targets(rs.drop_last(), local);
        match download_target(local, rs.last().0, rs.last().1) {
            Some(t) => pre.push(t),
            None => pre,
        }
    }
}

/// Paths of a sequence of local entries that are to be deleted, in entry
/// order.
pub open spec fn delete_targets(
    ls: Seq<(Seq<char>, Seq<char>)>,
    remote: Map<Seq<char>, Seq<char>>,
) -> Seq<Seq<char>>
    decreases ls.len(),
{
    if ls.len() == 0 {
        Seq::empty()
    } else {
        let pre = delete_targets(ls.drop_last(), remote);
        if should_delete(remote, ls.last().0) {
            pre.push(ls.last().0)
        } else {
            pre
        }
    }
}

/// Number of skipped remote entries.
pub open spec fn skipped_count(
    rs: Seq<(Seq<char>, Seq<char>)>,
    local: Map<Seq<char>, Seq<char>>,
) -> int
    decreases rs.len(),
{
    if rs.len() == 0 {
        0
    } else {
        skipped_count(rs.drop_last(), local) + if remote_skipped(local, rs.last().0, rs.last().1) {
            1int
        } else {
            0int
        }
    }
}

/// Number of current remote entries.
pub open spec fn current_count(
    rs: Seq<(Seq<char>, Seq<char>)>,
    local: Map<Seq<char>, Seq<char>>,
) -> int
    decreases rs.len(),
{
    if rs.len() == 0 {
        0
    } else {
        current_count(rs.drop_last(), local) + if remote_current(local, rs.last().0, rs.last().1) {
            1int
        } else {
            0int
        }
    }
}

/// The decision for one remote entry.
pub enum RemoteDecision {
    /// The path falls under the excluded subtree.
    Excluded,
    /// The local copy under the same path already carries the remote content.
    UpToDate,
    /// A disabled local copy already carries the remote content.
    DisabledCurrent,
    /// The entry must be downloaded to this local path.
    DownloadTo(String),
}

/// Decide what one remote entry `(path, rid)` asks of the local tree.
pub fn decide_remote(local: &TreeMapping, path: &str, rid: &str) -> (d: RemoteDecision)
    requires
        local.wf(),
    ensures
        match d {
            RemoteDecision::DownloadTo(t) => download_target(local@, path@, rid@) == Some(t@),
            _ => download_target(local@, path@, rid@) is None,
        },
        (d is Excluded) == is_excluded(path@),
        (d is Excluded || d is DisabledCurrent) == remote_skipped(local@, path@, rid@),
        (d is UpToDate || d is DisabledCurrent) == remote_current(local@, path@, rid@),
{
    if should_skip_path(path) {
        return RemoteDecision::Excluded;
    }
    match local.get(path) {
        Some(v) => {
            if str_eq(v.as_str(), rid) {
                return RemoteDecision::UpToDate;
            }
        },
        None => {},
    }
    let dp = get_disabled_path(path);
    match local.get(dp.as_str()) {
        Some(v) => {
            if str_eq(v.as_str(), rid) {
                RemoteDecision::DisabledCurrent
            } else {
                RemoteDecision::DownloadTo(dp)
            }
        },
        None => RemoteDecision::DownloadTo(path.to_owned()),
    }
}

/// Decide whether one local path is to be deleted.
pub fn decide_delete(remote: &TreeMapping, path: &str) -> (r: bool)
    ensures
        r == should_delete(remote@, path@),
{
    if should_skip_path(path) {
        return false;
    }
    if remote.contains_path(path) {
        return false;
    }
    match get_enabled_path(path) {
        Some(e) => !remote.contains_path(e.as_str()),
        None => true,
    }
}

/// The three-way reconciliation plan.  `to_download` holds local
/// destination paths (the content of a disabled destination is fetched from
/// its enabled remote form); `to_delete` holds local paths.
pub struct SyncPlan {
    pub to_download: Vec<String>,
    pub to_delete: Vec<String>,
    pub skipped: u32,
    pub up_to_date: u32,
}

/// Build the sync plan for a remote and a local tree mapping.
pub fn build_sync_plan(remote: &TreeMapping, local: &TreeMapping) -> (plan: SyncPlan)
    requires
        remote.wf(),
        local.wf(),
        remote.pairs().len() <= u32::MAX,
    ensures
        plan.to_download@.map_values(|s: String| s@) == download_targets(remote.pairs(), local@),
        plan.to_delete@.map_values(|s: String| s@) == delete_targets(local.pairs(), remote@),
        plan.skipped == skipped_count(remote.pairs(), local@),
        plan.up_to_date == current_count(remote.pairs(), local@),
{
    let rn: usize = remote.len();
    let ln: usize = local.len();
    let mut to_download: Vec<String> = Vec::new();
    let mut to_delete: Vec<String> = Vec::new();
    let mut skipped: u32 = 0;
    let mut current: u32 = 0;

    let mut i: usize = 0;
    while i < rn
        invariant
            i <= rn,
            rn == remote.pairs().len(),
            rn <= u32::MAX,
            remote.wf(),
            local.wf(),
            to_download@.map_values(|s: String| s@) == download_targets(
                remote.pairs().take(i as int),
                local@,
            ),
            skipped <= i,
            current <= i,
            skipped == skipped_count(remote.pairs().take(i as int), local@),
            current == current_count(remote.pairs().take(i as int), local@),
        decreases rn - i,
    {
        let entry = remote.pair_at(i);
        let ghost pre = remote.pairs().take(i as int);
        let ghost post = remote.pairs().take(i + 1);
        proof {
            assert(post.drop_last() =~= pre);
            assert(post.last() == remote.pairs()[i as int]);
        }
        match decide_remote(local, entry.0.as_str(), entry.1.as_str()) {
            RemoteDecision::Excluded => {
                skipped = skipped + 1;
            },
            RemoteDecision::UpToDate => {
                current = current + 1;
            },
            RemoteDecision::DisabledCurrent => {
                skipped = skipped + 1;
                current = current + 1;
            },
            RemoteDecision::DownloadTo(t) => {
                to_download.push(t);
            },
        }
        proof {
            assert(to_download@.map_values(|s: String| s@) =~= download_targets(post, local@));
        }
        i = i + 1;
    }
    proof {
        assert(remote.pairs().take(rn as int) =~= remote.pairs());
    }

    let mut j: usize = 0;
    while j < ln
        invariant
            j <= ln,
            ln == local.pairs().len(),
            remote.wf(),
            local.wf(),
            to_delete@.map_values(|s: String| s@) == delete_targets(
                local.pairs().take(j as int),
                remote@,
            ),
        decreases ln - j,
    {
        let entry = local.pair_at(j);
        let ghost pre = local.pairs().take(j as int);
        let ghost post = local.pairs().take(j + 1);
        proof {
            assert(post.drop_last() =~= pre);
            assert(post.last() == local.pairs()[j as int]);
        }
        if decide_delete(remote, entry.0.as_str()) {
            to_delete.push(entry.0);
        }
        proof {
            assert(to_delete@.map_values(|s: String| s@) =~= delete_targets(post, remote@));
        }
        j = j + 1;
    }
    proof {
        assert(local.pairs().take(ln as int) =~= local.pairs());
    }

    SyncPlan { to_download, to_delete, skipped, up_to_date: current }
}

/// A destination appears among the download targets exactly when some
/// remote entry asks for it.
pub proof fn lemma_download_membership(
    rs: Seq<(Seq<char>, Seq<char>)>,
    local: Map<Seq<char>, Seq<char>>,
    t: Seq<char>,
)
    ensures
        download_targets(rs, local).contains(t) <==> exists|i: int|
            0 <= i < rs.len() && download_target(local, rs[i].0, rs[i].1) == Some(t),
    decreases rs.len(),
{
    if rs.len() > 0 {
        lemma_download_membership(rs.drop_last(), local, t);
        let pre = download_targets(rs.drop_last(), local);
        if download_targets(rs, local).contains(t) {
            let j = choose|j: int|
                0 <= j < download_targets(rs, local).len() && download_targets(rs, local)[j] == t;
            if j < pre.len() {
                assert(pre.contains(t));
                let i = choose|i: int|
                    0 <= i < rs.drop_last().len() && download_target(
                        local,
                        rs.drop_last()[i].0,
                        rs.drop_last()[i].1,
                    ) == Some(t);
                assert(rs[i] == rs.drop_last()[i]);
                assert(download_target(local, rs[i].0, rs[i].1) == Some(t));
            } else {
                assert(download_target(local, rs[rs.len() - 1].0, rs[rs.len() - 1].1) == Some(t));
            }
        }
        if exists|i: int| 0 <= i < rs.len() && download_target(local, rs[i].0, rs[i].1) == Some(t) {
            let i = choose|i: int|
                0 <= i < rs.len() && download_target(local, rs[i].0, rs[i].1) == Some(t);
            if i < rs.len() - 1 {
                assert(rs.drop_last()[i] == rs[i]);
                assert(pre.contains(t));
                let j = choose|j: int| 0 <= j < pre.len() && pre[j] == t;
                assert(download_targets(rs, local)[j] == t);
            } else {
                match download_target(local, rs.last().0, rs.last().1) {
                    Some(x) => {
                        assert(download_targets(rs, local)[pre.len() as int] == x);
                    },
                    None => {
                        assert(false);
                    },
                }
            }
        }
    }
}

/// A path appears among the delete targets exactly when it is a local key
/// and the deletion predicate holds of it.
pub proof fn lemma_delete_membership(
    ls: Seq<(Seq<char>, Seq<char>)>,
    remote: Map<Seq<char>, Seq<char>>,
    q: Seq<char>,
)
    ensures
        delete_targets(ls, remote).contains(q) <==> ((exists|i: int|
            0 <= i < ls.len() && ls[i].0 == q) && should_delete(remote, q)),
    decreases ls.len(),
{
    if ls.len() > 0 {
        lemma_delete_membership(ls.drop_last(), remote, q);
        let pre = delete_targets(ls.drop_last(), remote);
        if delete_targets(ls, remote).contains(q) {
            let j = choose|j: int|
                0 <= j < delete_targets(ls, remote).len() && delete_targets(ls, remote)[j] == q;
            if j < pre.len() {
                assert(pre.contains(q));
                let i = choose|i: int| 0 <= i < ls.drop_last().len() && ls.drop_last()[i].0 == q;
                assert(ls[i].0 == q);
            } else {
                assert(ls[ls.len() - 1].0 == q);
            }
        }
        if (exists|i: int| 0 <= i < ls.len() && ls[i].0 == q) && should_delete(remote, q) {
            let i = choose|i: int| 0 <= i < ls.len() && ls[i].0 == q;
            if i < ls.len() - 1 {
                assert(ls.drop_last()[i] == ls[i]);
                assert(pre.contains(q));
                let j = choose|j: int| 0 <= j < pre.len() && pre[j] == q;
                assert(delete_targets(ls, remote)[j] == q);
            } else {
                assert(delete_targets(ls, remote)[pre.len() as int] == q);
            }
        }
    }
}

proof fn lemma_counts_remove(rs: Seq<(Seq<char>, Seq<char>)>, local: Map<Seq<char>, Seq<char>>, i: int)
    requires
        0 <= i < rs.len(),
    ensures
        skipped_count(rs.remove(i), local) == skipped_count(rs, local) - (if remote_skipped(
            local,
            rs[i].0,
            rs[i].1,
        ) {
            1int
        } else {
            0int
        }),
        current_count(rs.remove(i), local) == current_count(rs, local) - (if remote_current(
            local,
            rs[i].0,
            rs[i].1,
        ) {
            1int
        } else {
            0int
        }),
    decreases rs.len(),
{
    if i == rs.len() - 1 {
        assert(rs.remove(i) =~= rs.drop_last());
    } else {
        lemma_counts_remove(rs.drop_last(), local, i);
        assert(rs.remove(i).drop_last() =~= rs.drop_last().remove(i));
        assert(rs.remove(i).last() == rs.last());
        assert(rs.drop_last()[i] == rs[i]);
    }
}

proof fn lemma_map_of_remove(rs: Seq<(Seq<char>, Seq<char>)>, i: int)
    requires
        distinct_keys(rs),
        0 <= i < rs.len(),
    ensures
        distinct_keys(rs.remove(i)),
        map_of(rs.remove(i)) == map_of(rs).remove(rs[i].0),
    decreases rs.len(),
{
    let t = rs.remove(i);
    assert forall|a: int, b: int| 0 <= a < b < t.len() implies t[a].0 != t[b].0 by {
        if b < i {
            assert(rs[a].0 != rs[b].0);
        } else if a < i {
            assert(rs[a].0 != rs[b + 1].0);
        } else {
            assert(rs[a + 1].0 != rs[b + 1].0);
        }
    }
    if i == rs.len() - 1 {
        assert(t =~= rs.drop_last());
        lemma_map_of_contains(rs.drop_last(), rs[i].0);
        assert forall|a: int| 0 <= a < rs.drop_last().len() implies rs.drop_last()[a].0 != rs[i].0
            by {
            assert(rs[a].0 != rs[i].0);
        }
        assert(!map_of(rs.drop_last()).contains_key(rs[i].0));
        assert(map_of(t) =~= map_of(rs).remove(rs[i].0));
    } else {
        assert forall|a: int, b: int| 0 <= a < b < rs.drop_last().len() implies rs.drop_last()[a].0
            != rs.drop_last()[b].0 by {
            assert(rs[a].0 != rs[b].0);
        }
        lemma_map_of_remove(rs.drop_last(), i);
        assert(t.drop_last() =~= rs.drop_last().remove(i));
        assert(t.last() == rs.last());
        assert(rs.drop_last()[i] == rs[i]);
        assert(rs[i].0 != rs.last().0);
        assert(map_of(t) =~= map_of(rs).remove(rs[i].0));
    }
}

proof fn lemma_map_of_drop_last(rs: Seq<(Seq<char>, Seq<char>)>)
    requires
        distinct_keys(rs),
        rs.len() > 0,
    ensures
        distinct_keys(rs.drop_last()),
        map_of(rs.drop_last()) == map_of(rs).remove(rs.last().0),
{
    lemma_map_of_remove(rs, rs.len() - 1);
    assert(rs.remove(rs.len() - 1) =~= rs.drop_last());
}

/// The skipped and current counters depend only on the remote map, not on
/// the order its entries were listed in.
pub proof fn lemma_counts_deterministic(
    rs1: Seq<(Seq<char>, Seq<char>)>,
    rs2: Seq<(Seq<char>, Seq<char>)>,
    local: Map<Seq<char>, Seq<char>>,
)
    requires
        distinct_keys(rs1),
        distinct_keys(rs2),
        map_of(rs1) == map_of(rs2),
    ensures
        skipped_count(rs1, local) == skipped_count(rs2, local),
        current_count(rs1, local) == current_count(rs2, local),
    decreases rs1.len(),
{
    if rs1.len() == 0 {
        if rs2.len() > 0 {
            lemma_map_of_index(rs2, 0);
            assert(false);
        }
    } else {
        let k = rs1.last().0;
        let v = rs1.last().1;
        lemma_map_of_index(rs1, rs1.len() - 1);
        lemma_map_of_contains(rs2, k);
        let j = choose|j: int| 0 <= j < rs2.len() && rs2[j].0 == k;
        lemma_map_of_index(rs2, j);
        assert(rs2[j] == (k, v));
        lemma_map_of_drop_last(rs1);
        lemma_map_of_remove(rs2, j);
        lemma_counts_deterministic(rs1.drop_last(), rs2.remove(j), local);
        lemma_counts_remove(rs2, local, j);
    }
}

/// The plan is deterministic: the download and delete *sets* depend only on
/// the two path -> identifier maps, not on the order the entries were
/// listed in.
pub proof fn lemma_plan_deterministic(
    rs1: Seq<(Seq<char>, Seq<char>)>,
    rs2: Seq<(Seq<char>, Seq<char>)>,
    ls1: Seq<(Seq<char>, Seq<char>)>,
    ls2: Seq<(Seq<char>, Seq<char>)>,
)
    requires
        distinct_keys(rs1),
        distinct_keys(rs2),
        distinct_keys(ls1),
        distinct_keys(ls2),
        map_of(rs1) == map_of(rs2),
        map_of(ls1) == map_of(ls2),
    ensures
        download_targets(rs1, map_of(ls1)).to_set() == download_targets(rs2, map_of(ls2)).to_set(),
        delete_targets(ls1, map_of(rs1)).to_set() == delete_targets(ls2, map_of(rs2)).to_set(),
        skipped_count(rs1, map_of(ls1)) == skipped_count(rs2, map_of(ls2)),
        current_count(rs1, map_of(ls1)) == current_count(rs2, map_of(ls2)),
{
    let local = map_of(ls1);
    let remote = map_of(rs1);
    lemma_counts_deterministic(rs1, rs2, local);
    assert forall|t: Seq<char>|
        download_targets(rs1, local).contains(t) == download_targets(rs2, local).contains(t) by {
        lemma_download_membership(rs1, local, t);
        lemma_download_membership(rs2, local, t);
        if exists|i: int| 0 <= i < rs1.len() && download_target(local, rs1[i].0, rs1[i].1) == Some(
            t,
        ) {
            let i = choose|i: int|
                0 <= i < rs1.len() && download_target(local, rs1[i].0, rs1[i].1) == Some(t);
            lemma_map_of_index(rs1, i);
            lemma_map_of_contains(rs2, rs1[i].0);
            let j = choose|j: int| 0 <= j < rs2.len() && rs2[j].0 == rs1[i].0;
            lemma_map_of_index(rs2, j);
        }
        if exists|i: int| 0 <= i < rs2.len() && download_target(local, rs2[i].0, rs2[i].1) == Some(
            t,
        ) {
            let i = choose|i: int|
                0 <= i < rs2.len() && download_target(local, rs2[i].0, rs2[i].1) == Some(t);
            lemma_map_of_index(rs2, i);
            lemma_map_of_contains(rs1, rs2[i].0);
            let j = choose|j: int| 0 <= j < rs1.len() && rs1[j].0 == rs2[i].0;
            lemma_map_of_index(rs1, j);
        }
    }
    assert(download_targets(rs1, local).to_set() =~= download_targets(rs2, local).to_set());
    assert forall|q: Seq<char>|
        delete_targets(ls1, remote).contains(q) == delete_targets(ls2, remote).contains(q) by {
        lemma_delete_membership(ls1, remote, q);
        lemma_delete_membership(ls2, remote, q);
        if exists|i: int| 0 <= i < ls1.len() && ls1[i].0 == q {
            let i = choose|i: int| 0 <= i < ls1.len() && ls1[i].0 == q;
            lemma_map_of_index(ls1, i);
            lemma_map_of_contains(ls2, q);
        }
        if exists|i: int| 0 <= i < ls2.len() && ls2[i].0 == q {
            let i = choose|i: int| 0 <= i < ls2.len() && ls2[i].0 == q;
            lemma_map_of_index(ls2, i);
            lemma_map_of_contains(ls1, q);
        }
    }
    assert(delete_targets(ls1, remote).to_set() =~= delete_targets(ls2, remote).to_set());
}

proof fn lemma_no_download_targets(
    rs: Seq<(Seq<char>, Seq<char>)>,
    local: Map<Seq<char>, Seq<char>>,
)
    requires
        forall|i: int| 0 <= i < rs.len() ==> download_target(local, rs[i].0, rs[i].1) is None,
    ensures
        download_targets(rs, local).len() == 0,
    decreases rs.len(),
{
    if rs.len() > 0 {
        assert forall|i: int| 0 <= i < rs.drop_last().len() implies download_target(
            local,
            rs.drop_last()[i].0,
            rs.drop_last()[i].1,
        ) is None by {
            assert(rs.drop_last()[i] == rs[i]);
        }
        lemma_no_download_targets(rs.drop_last(), local);
        assert(download_target(local, rs[rs.len() - 1].0, rs[rs.len() - 1].1) is None);
    }
}

proof fn lemma_no_delete_targets(ls: Seq<(Seq<char>, Seq<char>)>, remote: Map<Seq<char>, Seq<char>>)
    requires
        forall|i: int| 0 <= i < ls.len() ==> !should_delete(remote, ls[i].0),
    ensures
        delete_targets(ls, remote).len() == 0,
    decreases ls.len(),
{
    if ls.len() > 0 {
        assert forall|i: int| 0 <= i < ls.drop_last().len() implies !should_delete(
            remote,
            ls.drop_last()[i].0,
        ) by {
            assert(ls.drop_last()[i] == ls[i]);
        }
        lemma_no_delete_targets(ls.drop_last(), remote);
        assert(!should_delete(remote, ls[ls.len() - 1].0));
    }
}

/// When the two trees agree — same paths, same identifiers — the plan
/// downloads nothing and deletes nothing.
pub proof fn lemma_equal_trees_empty_plan(
    rs: Seq<(Seq<char>, Seq<char>)>,
    ls: Seq<(Seq<char>, Seq<char>)>,
)
    requires
        distinct_keys(rs),
        distinct_keys(ls),
        map_of(rs) == map_of(ls),
    ensures
        download_targets(rs, map_of(ls)).len() == 0,
        delete_targets(ls, map_of(rs)).len() == 0,
{
    let local = map_of(ls);
    let remote = map_of(rs);
    assert forall|i: int| 0 <= i < rs.len() implies download_target(local, rs[i].0, rs[i].1)
        is None by {
        lemma_map_of_index(rs, i);
    }
    lemma_no_download_targets(rs, local);
    assert forall|i: int| 0 <= i < ls.len() implies !should_delete(remote, ls[i].0) by {
        lemma_map_of_index(ls, i);
    }
    lemma_no_delete_targets(ls, remote);
}

/// A disabled variant of a path the remote tree still carries is never
/// deleted.
pub proof fn lemma_live_disabled_variant_kept(
    ls: Seq<(Seq<char>, Seq<char>)>,
    remote: Map<Seq<char>, Seq<char>>,
    p: Seq<char>,
)
    requires
        remote.contains_key(p),
    ensures
        !delete_targets(ls, remote).contains(disabled_of(p)),
{
    lemma_delete_membership(ls, remote, disabled_of(p));
    lemma_disabled_round_trip(p);
}

/// A disabled variant of a path the remote tree no longer carries is
/// deleted (when it is itself absent from the remote tree and not
/// excluded).
pub proof fn lemma_orphaned_disabled_deleted(
    ls: Seq<(Seq<char>, Seq<char>)>,
    remote: Map<Seq<char>, Seq<char>>,
    q: Seq<char>,
    p: Seq<char>,
)
    requires
        exists|i: int| 0 <= i < ls.len() && ls[i].0 == q,
        enabled_of(q) == Some(p),
        !remote.contains_key(p),
        !remote.contains_key(q),
        !is_excluded(q),
    ensures
        delete_targets(ls, remote).contains(q),
{
    lemma_delete_membership(ls, remote, q);
}

/// A remote path with a stale disabled local counterpart is downloaded to
/// the disabled path, not to the plain path.
pub proof fn lemma_stale_disabled_download(
    rs: Seq<(Seq<char>, Seq<char>)>,
    local: Map<Seq<char>, Seq<char>>,
    p: Seq<char>,
    rid: Seq<char>,
)
    requires
        exists|i: int| 0 <= i < rs.len() && rs[i] == (p, rid),
        !is_excluded(p),
        !(local.contains_key(p) && local[p] == rid),
        local.contains_key(disabled_of(p)),
        local[disabled_of(p)] != rid,
    ensures
        download_target(local, p, rid) == Some(disabled_of(p)),
        download_targets(rs, local).contains(disabled_of(p)),
{
    lemma_download_membership(rs, local, disabled_of(p));
    let i = choose|i: int| 0 <= i < rs.len() && rs[i] == (p, rid);
    assert(download_target(local, rs[i].0, rs[i].1) == Some(disabled_of(p)));
}

/// A path under the excluded subtree never appears among the download or
/// the delete targets, whatever either tree holds.
pub proof fn lemma_excluded_untouched(
    rs: Seq<(Seq<char>, Seq<char>)>,
    ls: Seq<(Seq<char>, Seq<char>)>,
    local: Map<Seq<char>, Seq<char>>,
    remote: Map<Seq<char>, Seq<char>>,
    x: Seq<char>,
)
    requires
        is_excluded(x),
    ensures
        !download_targets(rs, local).contains(x),
        !delete_targets(ls, remote).contains(x),
{
    lemma_download_membership(rs, local, x);
    lemma_delete_membership(ls, remote, x);
    if exists|i: int| 0 <= i < rs.len() && download_target(local, rs[i].0, rs[i].1) == Some(x) {
        let i = choose|i: int|
            0 <= i < rs.len() && download_target(local, rs[i].0, rs[i].1) == Some(x);
        let p = rs[i].0;
        assert(!is_excluded(p));
        if x == disabled_of(p) {
            lemma_excluded_disabled(p);
            assert(false);
        }
        assert(false);
    }
}

} // verus!
