//! Relative-path handling.
//!
//! Paths inside a snapshot are root-relative strings with `/` as the
//! separator. This module gives them their two components of interest —
//! the file name after the last separator and the directory prefix before
//! it — and derives a relative path by stripping the scan root from a full
//! path.

use vstd::prelude::*;

use crate::errors::SyncError;

verus! {

/// Index of the last `/` in `s`, or `-1` when `s` has none.
pub open spec fn last_slash_index(s: Seq<char>) -> int
    decreases s.len(),
{
    if s.len() == 0 {
        -1
    } else if s.last() == '/' {
        s.len() - 1
    } else {
        last_slash_index(s.drop_last())
    }
}

/// The component after the last `/`; the whole string when there is none.
pub open spec fn spec_file_name(s: Seq<char>) -> Seq<char> {
    s.skip(last_slash_index(s) + 1)
}

/// The prefix before the last `/`; empty when there is none.
pub open spec fn spec_dir_name(s: Seq<char>) -> Seq<char> {
    if last_slash_index(s) < 0 {
        Seq::empty()
    } else {
        s.take(last_slash_index(s))
    }
}

/// `last_slash_index` is the largest index holding `/`, and `-1` exactly
/// when no index holds one.
pub proof fn lemma_last_slash_index(s: Seq<char>)
    ensures
        -1 <= last_slash_index(s) < s.len(),
        last_slash_index(s) >= 0 ==> s[last_slash_index(s)] == '/',
        forall|j: int| last_slash_index(s) < j < s.len() ==> s[j] != '/',
    decreases s.len(),
{
    if s.len() > 0 && s.last() != '/' {
        lemma_last_slash_index(s.drop_last());
        assert(forall|j: int|
            0 <= j < s.len() - 1 ==> s[j] == s.drop_last()[j]);
    }
}

/// Collect the characters of a string slice into a vector.
pub fn str_chars(s: &str) -> (v: Vec<char>)
    ensures
        v@ == s@,
{
    let n = s.unicode_len();
    let mut v: Vec<char> = Vec::new();
    let mut i: usize = 0;
    while i < n
        invariant
            n == s@.len(),
            0 <= i <= n,
            v@ == s@.take(i as int),
        decreases n - i,
    {
        v.push(s.get_char(i));
        assert(v@ =~= s@.take(i as int + 1));
        i += 1;
    }
    assert(v@ =~= s@);
    v
}

/// Element-wise equality of two character vectors.
pub fn chars_eq(a: &Vec<char>, b: &Vec<char>) -> (r: bool)
    ensures
        r == (a@ == b@),
{
    if a.len() != b.len() {
        assert(a@.len() != b@.len());
        return false;
    }
    let n = a.len();
    let mut i: usize = 0;
    while i < n
        invariant
            n == a@.len(),
            n == b@.len(),
            0 <= i <= n,
            forall|k: int| 0 <= k < i ==> a@[k] == b@[k],
        decreases n - i,
    {
        if a[i] != b[i] {
            assert(a@[i as int] != b@[i as int]);
            return false;
        }
        i += 1;
    }
    assert(a@ =~= b@);
    true
}

/// Position right after the last `/` of `v`, or `0` when `v` has none.
///
/// The caller splits `v` there: the file name starts at the returned
/// index, and the directory prefix ends one before it (or is empty).
pub fn name_start(v: &Vec<char>) -> (r: usize)
    ensures
        r as int == last_slash_index(v@) + 1,
        r <= v@.len(),
{
    proof {
        lemma_last_slash_index(v@);
    }
    let mut i: usize = v.len();
    while i > 0
        invariant
            0 <= i <= v@.len(),
            forall|j: int| i <= j < v@.len() ==> v@[j] != '/',
        decreases i,
    {
        if v[i - 1] == '/' {
            proof {
                lemma_last_slash_index(v@);
                if last_slash_index(v@) > i - 1 {
                    assert(v@[last_slash_index(v@)] == '/');
                }
                if last_slash_index(v@) < i - 1 {
                    assert(v@[i - 1] == '/');
                }
            }
            return i;
        }
        i -= 1;
    }
    proof {
        lemma_last_slash_index(v@);
        if last_slash_index(v@) >= 0 {
            assert(v@[last_slash_index(v@)] == '/');
        }
    }
    0
}

/// The relative path obtained by stripping `root` and one separator from
/// the front of `path`, when `path` lies strictly under `root`.
pub open spec fn spec_strip_root(root: Seq<char>, path: Seq<char>) -> Option<Seq<char>> {
    if root.len() < path.len() && path.take(root.len() as int) == root && path[root.len() as int]
        == '/' {
        Some(path.skip(root.len() as int + 1))
    } else {
        None
    }
}

/// Derive a root-relative path by stripping the root prefix.
///
/// `root` is expected without a trailing separator. A path that does not
/// lie strictly under the root is a defensive `InvalidPath` failure.
pub fn strip_root_prefix(root: &str, path: &str) -> (r: Result<String, SyncError>)
    ensures
        match r {
            Ok(rel) => spec_strip_root(root@, path@) == Some(rel@),
            Err(e) => spec_strip_root(root@, path@) is None && e is InvalidPath,
        },
{
    let rn = root.unicode_len();
    let pn = path.unicode_len();
    if rn >= pn {
        return Err(SyncError::InvalidPath(String::from_str("path not under root")));
    }
    let mut i: usize = 0;
    while i < rn
        invariant
            rn == root@.len(),
            pn == path@.len(),
            rn < pn,
            0 <= i <= rn,
            forall|k: int| 0 <= k < i ==> path@[k] == root@[k],
        decreases rn - i,
    {
        if path.get_char(i) != root.get_char(i) {
            assert(path@.take(rn as int)[i as int] != root@[i as int]);
            return Err(SyncError::InvalidPath(String::from_str("path not under root")));
        }
        i += 1;
    }
    assert(path@.take(rn as int) =~= root@);
    if path.get_char(rn) != '/' {
        return Err(SyncError::InvalidPath(String::from_str("path not under root")));
    }
    let rel = path.substring_char(rn + 1, pn);
    Ok(rel.to_owned())
}

} // verus!
