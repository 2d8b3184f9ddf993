//! Path policy: the naming convention for "disabled" files and the
//! permanently excluded local subtree.
//!
//! A file is *disabled* when its final path segment begins with `-`.  A path
//! is *excluded* when it contains the fixed marker `user-customs` anywhere.
//! Every other component of the library keys its decisions on these
//! predicates.

use vstd::prelude::*;
use vstd::string::StrSliceExecFns;
use vstd::string::StringExecFns;

verus! {

/// Length of the directory portion of `s`, including the final `/`
/// (0 when `s` has no `/` at all).  The file name is everything after it.
pub open spec fn dir_len(s: Seq<char>) -> int
    decreases s.len(),
{
    if s.len() == 0 {
        0
    } else if s[s.len() - 1] == '/' {
        s.len() as int
    } else {
        dir_len(s.drop_last())
    }
}

/// The final path segment of `s` (everything after the last `/`).
pub open spec fn file_name(s: Seq<char>) -> Seq<char> {
    s.subrange(dir_len(s), s.len() as int)
}

/// A file name is disabled when it begins with the `-` marker.
pub open spec fn is_disabled_name(s: Seq<char>) -> bool {
    s.len() > 0 && s[0] == '-'
}

/// The disabled variant of a path: the marker inserted immediately before
/// the final path segment, directory portion unchanged.
pub open spec fn disabled_of(s: Seq<char>) -> Seq<char> {
    s.subrange(0, dir_len(s)) + seq!['-'] + file_name(s)
}

/// The enabled variant of a path: the marker removed from the front of the
/// final path segment; `None` when the segment does not begin with it.
pub open spec fn enabled_of(s: Seq<char>) -> Option<Seq<char>> {
    if is_disabled_name(file_name(s)) {
        Some(s.subrange(0, dir_len(s)) + s.subrange(dir_len(s) + 1, s.len() as int))
    } else {
        None
    }
}

/// The directory-name marker of the permanently excluded subtree.
pub open spec fn excluded_marker() -> Seq<char> {
    seq!['u', 's', 'e', 'r', '-', 'c', 'u', 's', 't', 'o', 'm', 's']
}

/// The excluded marker occurs in `s` starting at index `i`.
pub open spec fn marker_match_at(s: Seq<char>, i: int) -> bool {
    &&& 0 <= i
    &&& i + 12 <= s.len()
    &&& forall|j: int| i <= j < i + 12 ==> s[j] == excluded_marker()[j - i]
}

/// `s` falls under the permanently excluded subtree: the marker occurs
/// somewhere in it.
pub open spec fn is_excluded(s: Seq<char>) -> bool {
    exists|i: int| marker_match_at(s, i)
}

proof fn lemma_marker_chars()
    ensures
        excluded_marker().len() == 12,
        excluded_marker()[0] == 'u',
        excluded_marker()[1] == 's',
        excluded_marker()[2] == 'e',
        excluded_marker()[3] == 'r',
        excluded_marker()[4] == '-',
        excluded_marker()[5] == 'c',
        excluded_marker()[6] == 'u',
        excluded_marker()[7] == 's',
        excluded_marker()[8] == 't',
        excluded_marker()[9] == 'o',
        excluded_marker()[10] == 'm',
        excluded_marker()[11] == 's',
{
}

/// The directory length lies within the path, is preceded by `/` when
/// positive, and no `/` follows it.
pub proof fn lemma_dir_len_props(s: Seq<char>)
    ensures
        0 <= dir_len(s) <= s.len(),
        dir_len(s) > 0 ==> s[dir_len(s) - 1] == '/',
        forall|j: int| dir_len(s) <= j < s.len() ==> s[j] != '/',
    decreases s.len(),
{
    if s.len() == 0 {
    } else if s[s.len() - 1] == '/' {
    } else {
        lemma_dir_len_props(s.drop_last());
        assert forall|j: int| dir_len(s) <= j < s.len() implies s[j] != '/' by {
            if j < s.len() - 1 {
                assert(s.drop_last()[j] == s[j]);
            }
        }
        if dir_len(s) > 0 {
            assert(s.drop_last()[dir_len(s) - 1] == s[dir_len(s) - 1]);
        }
    }
}

/// Any position with the three properties of `lemma_dir_len_props` is the
/// directory length.
pub proof fn lemma_dir_len_unique(s: Seq<char>, k: int)
    requires
        0 <= k <= s.len(),
        k == 0 || s[k - 1] == '/',
        forall|j: int| k <= j < s.len() ==> s[j] != '/',
    ensures
        dir_len(s) == k,
    decreases s.len(),
{
    if s.len() == 0 {
    } else if s[s.len() - 1] == '/' {
        assert(k == s.len());
    } else {
        assert(k < s.len());
        assert forall|j: int| k <= j < s.drop_last().len() implies s.drop_last()[j] != '/' by {
            assert(s.drop_last()[j] == s[j]);
        }
        if k > 0 {
            assert(s.drop_last()[k - 1] == s[k - 1]);
        }
        lemma_dir_len_unique(s.drop_last(), k);
    }
}

/// Index-wise description of the disabled variant.
pub proof fn lemma_disabled_shape(p: Seq<char>)
    ensures
        disabled_of(p).len() == p.len() + 1,
        dir_len(disabled_of(p)) == dir_len(p),
        forall|j: int| 0 <= j < dir_len(p) ==> disabled_of(p)[j] == p[j],
        disabled_of(p)[dir_len(p)] == '-',
        forall|j: int| dir_len(p) < j < p.len() + 1 ==> disabled_of(p)[j] == p[j - 1],
{
    lemma_dir_len_props(p);
    let k = dir_len(p);
    let d = disabled_of(p);
    assert(d.len() == p.len() + 1);
    assert forall|j: int| k < j < p.len() + 1 implies d[j] == p[j - 1] by {
        assert(d[j] == file_name(p)[j - k - 1]);
    }
    assert forall|j: int| k <= j < d.len() implies d[j] != '/' by {
        if j > k {
            assert(d[j] == p[j - 1]);
        }
    }
    lemma_dir_len_unique(d, k);
}

/// Stripping the marker undoes inserting it (one direction of the
/// round-trip law).
pub proof fn lemma_disabled_round_trip(p: Seq<char>)
    ensures
        enabled_of(disabled_of(p)) == Some(p),
{
    lemma_disabled_shape(p);
    lemma_dir_len_props(p);
    let k = dir_len(p);
    let d = disabled_of(p);
    assert(file_name(d) == d.subrange(k, d.len() as int));
    assert(file_name(d)[0] == d[k]);
    assert(is_disabled_name(file_name(d)));
    let e = d.subrange(0, k) + d.subrange(k + 1, d.len() as int);
    assert(e =~= p);
}

/// Inserting the marker undoes stripping it (the other direction of the
/// round-trip law).
pub proof fn lemma_enabled_round_trip(q: Seq<char>, p: Seq<char>)
    requires
        enabled_of(q) == Some(p),
    ensures
        disabled_of(p) == q,
{
    lemma_dir_len_props(q);
    let k = dir_len(q);
    assert(is_disabled_name(file_name(q)));
    assert(p == q.subrange(0, k) + q.subrange(k + 1, q.len() as int));
    assert(p.len() == q.len() - 1);
    assert forall|j: int| k <= j < p.len() implies p[j] != '/' by {
        assert(p[j] == q.subrange(k + 1, q.len() as int)[j - k]);
        assert(p[j] == q[j + 1]);
    }
    if k > 0 {
        assert(p[k - 1] == q[k - 1]);
    }
    lemma_dir_len_unique(p, k);
    assert(file_name(q)[0] == q[k]);
    assert(disabled_of(p) =~= q);
}

/// Inserting the marker is injective.
pub proof fn lemma_disabled_injective(p1: Seq<char>, p2: Seq<char>)
    requires
        disabled_of(p1) == disabled_of(p2),
    ensures
        p1 == p2,
{
    lemma_disabled_round_trip(p1);
    lemma_disabled_round_trip(p2);
}

/// Toggling the disabled marker never moves a path into or out of the
/// excluded subtree.
pub proof fn lemma_excluded_disabled(p: Seq<char>)
    ensures
        is_excluded(disabled_of(p)) == is_excluded(p),
{
    lemma_marker_chars();
    lemma_disabled_shape(p);
    lemma_dir_len_props(p);
    let k = dir_len(p);
    let d = disabled_of(p);
    if is_excluded(p) {
        let i = choose|i: int| marker_match_at(p, i);
        if i + 12 <= k {
            assert forall|j: int| i <= j < i + 12 implies d[j] == excluded_marker()[j - i] by {
                assert(d[j] == p[j]);
            }
            assert(marker_match_at(d, i));
        } else if i >= k {
            assert forall|j: int| i + 1 <= j < i + 13 implies d[j] == excluded_marker()[j - (i
                + 1)] by {
                assert(d[j] == p[j - 1]);
                assert(p[j - 1] == excluded_marker()[j - 1 - i]);
            }
            assert(marker_match_at(d, i + 1));
        } else {
            // the window would have to cross the `/` before the file name,
            // but the marker contains no `/`
            assert(i < k < i + 12);
            assert(p[k - 1] == excluded_marker()[k - 1 - i]);
            assert(p[k - 1] == '/');
            assert(false);
        }
        assert(is_excluded(d));
    }
    if is_excluded(d) {
        let i = choose|i: int| marker_match_at(d, i);
        if i + 12 <= k {
            assert forall|j: int| i <= j < i + 12 implies p[j] == excluded_marker()[j - i] by {
                assert(d[j] == p[j]);
            }
            assert(marker_match_at(p, i));
        } else if i >= k + 1 {
            assert forall|j: int| i - 1 <= j < i + 11 implies p[j] == excluded_marker()[j - (i
                - 1)] by {
                assert(d[j + 1] == p[j]);
                assert(d[j + 1] == excluded_marker()[j + 1 - i]);
            }
            assert(marker_match_at(p, i - 1));
        } else {
            // the window covers the inserted marker character; the only `-`
            // in the marker sits right after `r`, which would force a `/`
            // in the path to read `r`
            assert(i <= k < i + 12);
            assert(d[k] == excluded_marker()[k - i]);
            assert(d[k] == '-');
            assert(k - i == 4);
            assert(d[k - 1] == excluded_marker()[3]);
            assert(d[k - 1] == p[k - 1]);
            assert(p[k - 1] == '/');
            assert(false);
        }
        assert(is_excluded(p));
    }
}

/// True when the path falls under the permanently excluded subtree.
pub fn should_skip_path(path: &str) -> (r: bool)
    ensures
        r == is_excluded(path@),
{
    let pat: &str = "user-customs";
    proof {
        reveal_strlit("user-customs");
        lemma_marker_chars();
        assert(pat@ =~= excluded_marker());
    }
    let n: usize = path.unicode_len();
    if n < 12 {
        proof {
            assert forall|i: int| !marker_match_at(path@, i) by {}
        }
        return false;
    }
    let mut i: usize = 0;
    while i <= n - 12
        invariant
            12 <= n,
            n == path@.len(),
            i <= n - 12 + 1,
            pat@ == excluded_marker(),
            forall|m: int| 0 <= m < i ==> !marker_match_at(path@, m),
        decreases n - i,
    {
        let mut j: usize = 0;
        let mut ok: bool = true;
        while j < 12
            invariant
                j <= 12,
                i + 12 <= n,
                n == path@.len(),
                pat@ == excluded_marker(),
                ok ==> forall|t: int| i <= t < i + j ==> path@[t] == excluded_marker()[t - i],
                !ok ==> !marker_match_at(path@, i as int),
            decreases 12 - j,
        {
            let c1 = path.get_char(i + j);
            let c2 = pat.get_char(j);
            if c1 != c2 {
                proof {
                    assert(path@[i + j] != excluded_marker()[(i + j) - i as int]);
                }
                ok = false;
                j = 12;
            } else {
                j = j + 1;
            }
        }
        if ok {
            proof {
                assert(marker_match_at(path@, i as int));
            }
            return true;
        }
        i = i + 1;
    }
    proof {
        assert forall|m: int| !marker_match_at(path@, m) by {
            if 0 <= m < i {
            } else if m >= i {
                assert(m + 12 > n);
            }
        }
    }
    false
}

/// True when the file name (the final path segment alone is expected here)
/// begins with the disabled marker.
pub fn is_disabled_file(filename: &str) -> (r: bool)
    ensures
        r == is_disabled_name(filename@),
{
    if filename.unicode_len() == 0 {
        false
    } else {
        filename.get_char(0) == '-'
    }
}

/// Index just past the last `/` of `path` (0 when there is none).
fn find_dir_len(path: &str) -> (k: usize)
    ensures
        k as int == dir_len(path@),
        k <= path@.len(),
{
    let n: usize = path.unicode_len();
    let mut i: usize = n;
    while i > 0
        invariant
            i <= n,
            n == path@.len(),
            forall|j: int| i <= j < n ==> path@[j] != '/',
        decreases i,
    {
        if path.get_char(i - 1) == '/' {
            proof {
                lemma_dir_len_unique(path@, i as int);
            }
            return i;
        }
        i = i - 1;
    }
    proof {
        lemma_dir_len_unique(path@, 0);
    }
    0
}

/// The disabled variant of `path`: `-` inserted immediately before the final
/// path segment.
pub fn get_disabled_path(path: &str) -> (r: String)
    ensures
        r@ == disabled_of(path@),
{
    let n: usize = path.unicode_len();
    let k: usize = find_dir_len(path);
    let mut r: String = path.substring_char(0, k).to_owned();
    r.append("-");
    r.append(path.substring_char(k, n));
    proof {
        reveal_strlit("-");
        assert("-"@ =~= seq!['-']);
        assert(r@ =~= disabled_of(path@));
    }
    r
}

/// The enabled variant of `path`: the leading `-` of the final path segment
/// removed; `None` when the segment does not begin with `-`.
pub fn get_enabled_path(path: &str) -> (r: Option<String>)
    ensures
        match r {
            Some(e) => enabled_of(path@) == Some(e@),
            None => enabled_of(path@) is None,
        },
{
    let n: usize = path.unicode_len();
    let k: usize = find_dir_len(path);
    proof {
        lemma_dir_len_props(path@);
        assert(file_name(path@).len() == n - k);
        if k < n {
            assert(file_name(path@)[0] == path@[k as int]);
        }
    }
    if k < n && path.get_char(k) == '-' {
        let mut r: String = path.substring_char(0, k).to_owned();
        r.append(path.substring_char(k + 1, n));
        proof {
            assert(r@ =~= path@.subrange(0, k as int) + path@.subrange(
                k + 1,
                path@.len() as int,
            ));
        }
        Some(r)
    } else {
        None
    }
}

} // verus!
