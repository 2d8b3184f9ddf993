//! The local tree scanner's pure half: turn the files found under the sync
//! root into a tree mapping, applying the path policy.
//!
//! The directory walk itself is I/O and lives with the caller; it hands the
//! scanner each regular file's relative path (slash-separated) and bytes.
//! Hidden entries (a path segment starting with `.`) and the excluded
//! subtree are left out; every other file is keyed by its path with its
//! content identifier as the value.

use vstd::prelude::*;
use vstd::string::StrSliceExecFns;
use crate::hash::{compute_git_blob_sha, git_blob_id_of};
use crate::mapping::TreeMapping;
use crate::paths::{is_excluded, should_skip_path};

verus! {

/// Some path segment begins with `.`.
pub open spec fn has_hidden_segment(s: Seq<char>) -> bool {
    exists|i: int| 0 <= i < s.len() && (i == 0 || s[i - 1] == '/') && #[trigger] s[i] == '.'
}

/// A scanned file enters the mapping exactly when it is neither hidden nor
/// under the excluded subtree.
pub open spec fn scan_included(p: Seq<char>) -> bool {
    !has_hidden_segment(p) && !is_excluded(p)
}

/// True when some segment of `path` begins with `.`.
pub fn path_has_hidden_segment(path: &str) -> (r: bool)
    ensures
        r == has_hidden_segment(path@),
{
    let n: usize = path.unicode_len();
    if n == 0 {
        return false;
    }
    if path.get_char(0) == '.' {
        return true;
    }
    let mut i: usize = 1;
    while i < n
        invariant
            1 <= i <= n,
            n == path@.len(),
            path@[0] != '.',
            forall|j: int| 1 <= j < i ==> !(path@[j - 1] == '/' && #[trigger] path@[j] == '.'),
        decreases n - i,
    {
        if path.get_char(i - 1) == '/' && path.get_char(i) == '.' {
            return true;
        }
        i = i + 1;
    }
    false
}

/// Build the local mapping from the files a directory walk found: relative
/// slash-separated path and raw bytes for each regular file.
pub fn build_local_file_map(files: &Vec<(String, Vec<u8>)>) -> (m: TreeMapping)
    requires
        forall|i: int, j: int| 0 <= i < j < files@.len() ==> files@[i].0@ != files@[j].0@,
    ensures
        m.wf(),
        forall|i: int|
            0 <= i < files@.len() && scan_included(#[trigger] files@[i].0@) ==> m@.contains_key(
                files@[i].0@,
            ) && m@[files@[i].0@] == git_blob_id_of(files@[i].1@),
        forall|p: Seq<char>|
            #[trigger] m@.contains_key(p) ==> scan_included(p) && exists|i: int|
                0 <= i < files@.len() && files@[i].0@ == p,
{
    let mut m = TreeMapping::new();
    let n: usize = files.len();
    let mut k: usize = 0;
    while k < n
        invariant
            k <= n,
            n == files@.len(),
            m.wf(),
            forall|i: int, j: int| 0 <= i < j < files@.len() ==> files@[i].0@ != files@[j].0@,
            forall|i: int|
                0 <= i < k && scan_included(#[trigger] files@[i].0@) ==> m@.contains_key(
                    files@[i].0@,
                ) && m@[files@[i].0@] == git_blob_id_of(files@[i].1@),
            forall|p: Seq<char>|
                #[trigger] m@.contains_key(p) ==> scan_included(p) && exists|i: int|
                    0 <= i < k && files@[i].0@ == p,
        decreases n - k,
    {
        let entry = &files[k];
        if !path_has_hidden_segment(entry.0.as_str()) && !should_skip_path(entry.0.as_str()) {
            let sha = compute_git_blob_sha(&entry.1);
            m.insert(entry.0.clone(), sha);
        }
        k = k + 1;
    }
    m
}

} // verus!
