//! Changeset computation: comparing two snapshots.
//!
//! `diff_scans` classifies every file of the source snapshot against the
//! destination snapshot. A file present at the same path is unchanged or
//! `modified` depending on its fingerprint; a file missing at its path is
//! matched against unclaimed destination files with the same fingerprint
//! (a rename, picking the most path-similar candidate) or classified
//! `added`; destination files neither matched by path nor claimed by a
//! rename are `removed`. The whole computation is specified by a fold over
//! the source records in enumeration order — the claim set makes earlier
//! matches bind later ones, which is what makes the tie-break stable.

use vstd::prelude::*;

use crate::errors::SyncError;
use crate::similarity::{
    frac_lt, frac_of, frac_pos, lemma_frac_le_lt_trans, lemma_frac_lt_pos,
    lemma_frac_pos_gt_zero, lemma_path_similarity_wf, path_similarity, score_gt,
    spec_path_similarity, Frac,
};
use crate::snapshot::{paths_unique, FileMeta, FileMetaV, ScanResult};

verus! {

/// Mathematical model of a `DiffResult`.
pub ghost struct ChangesetV {
    /// Source records with no counterpart in the destination.
    pub added: Seq<FileMetaV>,
    /// Destination records with no counterpart in the source.
    pub removed: Seq<FileMetaV>,
    /// Source records whose destination counterpart has other content.
    pub modified: Seq<FileMetaV>,
    /// Pairs (destination record, source record) recognised as renames.
    pub renamed: Seq<(FileMetaV, FileMetaV)>,
}

/// The result of comparing two snapshots.
#[derive(Debug)]
pub struct DiffResult {
    /// Files present in source but not in destination.
    pub added: Vec<FileMeta>,
    /// Files present in destination but not in source.
    pub removed: Vec<FileMeta>,
    /// Files present in both but with different content.
    pub modified: Vec<FileMeta>,
    /// Files that were renamed, as (old, new) pairs.
    pub renamed: Vec<(FileMeta, FileMeta)>,
}

impl View for DiffResult {
    type V = ChangesetV;

    open spec fn view(&self) -> ChangesetV {
        ChangesetV {
            added: self.added@.map_values(|f: FileMeta| f@),
            removed: self.removed@.map_values(|f: FileMeta| f@),
            modified: self.modified@.map_values(|f: FileMeta| f@),
            renamed: self.renamed@.map_values(|p: (FileMeta, FileMeta)| (p.0@, p.1@)),
        }
    }
}

/// Does some record in `files` carry the path `p`?
pub open spec fn has_path(files: Seq<FileMetaV>, p: Seq<char>) -> bool {
    exists|i: int| 0 <= i < files.len() && files[i].path == p
}

/// An index of a record carrying path `p` (unique under `paths_unique`).
pub open spec fn path_index(files: Seq<FileMetaV>, p: Seq<char>) -> int {
    choose|i: int| 0 <= i < files.len() && files[i].path == p
}

/// The record of `files` carrying path `p`.
pub open spec fn at_path(files: Seq<FileMetaV>, p: Seq<char>) -> FileMetaV {
    files[path_index(files, p)]
}

/// With unique paths, looking a record up by its own path finds it.
pub proof fn lemma_at_path(files: Seq<FileMetaV>, j: int)
    requires
        paths_unique(files),
        0 <= j < files.len(),
    ensures
        has_path(files, files[j].path),
        path_index(files, files[j].path) == j,
        at_path(files, files[j].path) == files[j],
{
    assert(0 <= j < files.len() && files[j].path == files[j].path);
    let i = path_index(files, files[j].path);
    assert(0 <= i < files.len() && files[i].path == files[j].path);
}

/// Is `dest[j]` an unclaimed destination record with fingerprint `h`?
pub open spec fn is_candidate(
    dest: Seq<FileMetaV>,
    claimed: Set<Seq<char>>,
    h: Seq<u8>,
    j: int,
) -> bool {
    0 <= j < dest.len() && dest[j].hash == h && !claimed.contains(dest[j].path)
}

/// Similarity score of the source path against candidate `j`.
pub open spec fn cand_score(src_path: Seq<char>, dest: Seq<FileMetaV>, j: int) -> Frac {
    spec_path_similarity(src_path, dest[j].path)
}

/// `j` is the rename match for source record `s`: an unclaimed candidate
/// with the same fingerprint and a positive score that no candidate beats,
/// and the first one to reach that score.
pub open spec fn is_best_candidate(
    dest: Seq<FileMetaV>,
    claimed: Set<Seq<char>>,
    s: FileMetaV,
    j: int,
) -> bool {
    &&& is_candidate(dest, claimed, s.hash, j)
    &&& frac_pos(cand_score(s.path, dest, j))
    &&& forall|k: int|
        is_candidate(dest, claimed, s.hash, k) ==> !frac_lt(
            cand_score(s.path, dest, j),
            #[trigger] cand_score(s.path, dest, k),
        )
    &&& forall|k: int|
        is_candidate(dest, claimed, s.hash, k) && k < j ==> frac_lt(
            #[trigger] cand_score(s.path, dest, k),
            cand_score(s.path, dest, j),
        )
}

/// The rename match is unique when it exists.
pub proof fn lemma_best_candidate_unique(
    dest: Seq<FileMetaV>,
    claimed: Set<Seq<char>>,
    s: FileMetaV,
    j1: int,
    j2: int,
)
    requires
        is_best_candidate(dest, claimed, s, j1),
        is_best_candidate(dest, claimed, s, j2),
    ensures
        j1 == j2,
{
    if j1 < j2 {
        assert(frac_lt(cand_score(s.path, dest, j1), cand_score(s.path, dest, j2)));
        assert(!frac_lt(cand_score(s.path, dest, j1), cand_score(s.path, dest, j2)));
    }
    if j2 < j1 {
        assert(frac_lt(cand_score(s.path, dest, j2), cand_score(s.path, dest, j1)));
        assert(!frac_lt(cand_score(s.path, dest, j2), cand_score(s.path, dest, j1)));
    }
}

/// The rename match of `s` among the unclaimed candidates, if any.
pub open spec fn best_candidate(
    dest: Seq<FileMetaV>,
    claimed: Set<Seq<char>>,
    s: FileMetaV,
) -> Option<int> {
    if exists|j: int| is_best_candidate(dest, claimed, s, j) {
        Some(choose|j: int| is_best_candidate(dest, claimed, s, j))
    } else {
        None
    }
}

/// Intermediate state of the changeset computation.
pub ghost struct DiffStateV {
    /// `added` gathered so far.
    pub added: Seq<FileMetaV>,
    /// `modified` gathered so far.
    pub modified: Seq<FileMetaV>,
    /// `renamed` pairs gathered so far.
    pub renamed: Seq<(FileMetaV, FileMetaV)>,
    /// Destination paths already matched by path or claimed by a rename.
    pub claimed: Set<Seq<char>>,
}

/// The state before any source record has been processed.
pub open spec fn init_state() -> DiffStateV {
    DiffStateV {
        added: Seq::empty(),
        modified: Seq::empty(),
        renamed: Seq::empty(),
        claimed: Set::empty(),
    }
}

/// Process one source record: path match decides unchanged/modified,
/// otherwise the record is a rename of its best candidate or `added`.
pub open spec fn diff_step(dest: Seq<FileMetaV>, st: DiffStateV, s: FileMetaV) -> DiffStateV {
    if has_path(dest, s.path) {
        let d = at_path(dest, s.path);
        DiffStateV {
            modified: if d.hash != s.hash {
                st.modified.push(s)
            } else {
                st.modified
            },
            claimed: st.claimed.insert(s.path),
            ..st
        }
    } else {
        match best_candidate(dest, st.claimed, s) {
            Some(j) => DiffStateV {
                renamed: st.renamed.push((dest[j], s)),
                claimed: st.claimed.insert(dest[j].path),
                ..st
            },
            None => DiffStateV { added: st.added.push(s), ..st },
        }
    }
}

/// Process the source records in order, starting from `st`.
pub open spec fn diff_fold(
    dest: Seq<FileMetaV>,
    source: Seq<FileMetaV>,
    st: DiffStateV,
) -> DiffStateV
    decreases source.len(),
{
    if source.len() == 0 {
        st
    } else {
        diff_fold(dest, source.drop_first(), diff_step(dest, st, source.first()))
    }
}

/// Processing one more record at the end folds as one more step.
pub proof fn lemma_diff_fold_snoc(
    dest: Seq<FileMetaV>,
    source: Seq<FileMetaV>,
    st: DiffStateV,
    s: FileMetaV,
)
    ensures
        diff_fold(dest, source.push(s), st) == diff_step(dest, diff_fold(dest, source, st), s),
    decreases source.len(),
{
    reveal_with_fuel(diff_fold, 3);
    if source.len() == 0 {
        assert(source.push(s).first() == s);
        assert(source.push(s).drop_first() =~= Seq::<FileMetaV>::empty());
    } else {
        assert(source.push(s).first() == source.first());
        assert(source.push(s).drop_first() =~= source.drop_first().push(s));
        lemma_diff_fold_snoc(dest, source.drop_first(), diff_step(dest, st, source.first()), s);
    }
}

/// A destination record is removed when its path has no source record and
/// was never matched or claimed.
pub open spec fn is_removed(
    source: Seq<FileMetaV>,
    claimed: Set<Seq<char>>,
    d: FileMetaV,
) -> bool {
    !has_path(source, d.path) && !claimed.contains(d.path)
}

/// The destination records that are removed, in enumeration order.
pub open spec fn removed_seq(
    source: Seq<FileMetaV>,
    dest: Seq<FileMetaV>,
    claimed: Set<Seq<char>>,
) -> Seq<FileMetaV>
    decreases dest.len(),
{
    if dest.len() == 0 {
        Seq::empty()
    } else {
        let rest = removed_seq(source, dest.drop_last(), claimed);
        if is_removed(source, claimed, dest.last()) {
            rest.push(dest.last())
        } else {
            rest
        }
    }
}

/// The changeset that comparing `source` against `dest` yields.
pub open spec fn spec_diff(source: Seq<FileMetaV>, dest: Seq<FileMetaV>) -> ChangesetV {
    let st = diff_fold(dest, source, init_state());
    ChangesetV {
        added: st.added,
        removed: removed_seq(source, dest, st.claimed),
        modified: st.modified,
        renamed: st.renamed,
    }
}

/// Find the index of the record carrying `path`, if any.
pub(crate) fn find_by_path(files: &Vec<FileMeta>, path: &String) -> (r: Option<usize>)
    ensures
        match r {
            Some(j) => j < files@.len() && files@[j as int]@.path == path@,
            None => !has_path(files@.map_values(|f: FileMeta| f@), path@),
        },
{
    let n = files.len();
    let mut i: usize = 0;
    while i < n
        invariant
            n == files@.len(),
            0 <= i <= n,
            forall|k: int| 0 <= k < i ==> files@[k]@.path != path@,
        decreases n - i,
    {
        if files[i].path == *path {
            return Some(i);
        }
        i += 1;
    }
    proof {
        let fv = files@.map_values(|f: FileMeta| f@);
        if has_path(fv, path@) {
            let k = choose|k: int| 0 <= k < fv.len() && fv[k].path == path@;
            assert(fv[k] == files@[k]@);
        }
    }
    None
}

/// Compare two scan results and identify differences.
///
/// Classifies every source record as unchanged, `modified`, `renamed` or
/// `added`, in the snapshot's enumeration order, and every destination
/// record left unmatched as `removed`; the result is exactly the fold
/// `spec_diff` over the two record sequences. Never fails for well-formed
/// snapshots.
pub fn diff_scans(source: &ScanResult, dest: &ScanResult) -> (r: Result<DiffResult, SyncError>)
    requires
        source.wf(),
        dest.wf(),
    ensures
        r is Ok,
        r matches Ok(d) ==> d@ == spec_diff(source@.files, dest@.files),
{
    let ghost srcv = source@.files;
    let ghost dstv = dest@.files;
    let n = source.files.len();
    let m = dest.files.len();

    let mut added: Vec<FileMeta> = Vec::new();
    let mut removed: Vec<FileMeta> = Vec::new();
    let mut modified: Vec<FileMeta> = Vec::new();
    let mut renamed: Vec<(FileMeta, FileMeta)> = Vec::new();
    let mut claimed_flags: Vec<bool> = Vec::new();
    let mut t: usize = 0;
    while t < m
        invariant
            0 <= t <= m,
            claimed_flags@.len() == t,
            forall|k: int| 0 <= k < t ==> claimed_flags@[k] == false,
        decreases m - t,
    {
        claimed_flags.push(false);
        t += 1;
    }

    let ghost mut st = init_state();
    proof {
        assert(srcv.take(0) =~= Seq::<FileMetaV>::empty());
    }

    let mut i: usize = 0;
    while i < n
        invariant
            source.wf(),
            dest.wf(),
            srcv == source@.files,
            dstv == dest@.files,
            n == source.files@.len(),
            m == dest.files@.len(),
            0 <= i <= n,
            st == diff_fold(dstv, srcv.take(i as int), init_state()),
            added@.map_values(|f: FileMeta| f@) == st.added,
            modified@.map_values(|f: FileMeta| f@) == st.modified,
            renamed@.map_values(|p: (FileMeta, FileMeta)| (p.0@, p.1@)) == st.renamed,
            claimed_flags@.len() == m,
            forall|k: int|
                0 <= k < m ==> claimed_flags@[k] == st.claimed.contains(
                    #[trigger] dstv[k].path,
                ),
            forall|p: Seq<char>| st.claimed.contains(p) ==> has_path(dstv, p),
        decreases n - i,
    {
        let s = &source.files[i];
        proof {
            assert(srcv[i as int] == source.files@[i as int]@);
        }
        let ghost sv = srcv[i as int];
        match find_by_path(&dest.files, &s.path) {
            Some(j) => {
                proof {
                    assert(dstv[j as int] == dest.files@[j as int]@);
                    lemma_at_path(dstv, j as int);
                    assert(has_path(dstv, sv.path));
                    assert(at_path(dstv, sv.path) == dstv[j as int]);
                }
                if !s.hash.equals(&dest.files[j].hash) {
                    let dup = s.duplicate();
                    let ghost oldm = modified@;
                    modified.push(dup);
                    proof {
                        assert(modified@ == oldm.push(modified@.last()));
                        oldm.lemma_push_map_commute(|f: FileMeta| f@, modified@.last());
                    }
                }
                claimed_flags[j] = true;
                proof {
                    let s2 = diff_step(dstv, st, sv);
                    assert(srcv.take(i as int + 1) =~= srcv.take(i as int).push(sv));
                    lemma_diff_fold_snoc(dstv, srcv.take(i as int), init_state(), sv);
                    st = s2;
                    assert forall|k: int| 0 <= k < m implies claimed_flags@[k]
                        == st.claimed.contains(#[trigger] dstv[k].path) by {
                        if k != j && dstv[k].path == dstv[j as int].path {
                            assert(false);
                        }
                    }
                }
            },
            None => {
                proof {
                    assert(!has_path(dstv, sv.path));
                }
                // Search the unclaimed records with the same fingerprint for
                // the best-scoring rename candidate.
                let mut best: Option<usize> = None;
                let mut best_score: (u64, u64) = (0, 1);
                let mut j: usize = 0;
                while j < m
                    invariant
                        dest.wf(),
                        dstv == dest@.files,
                        m == dest.files@.len(),
                        0 <= j <= m,
                        claimed_flags@.len() == m,
                        forall|k: int|
                            0 <= k < m ==> claimed_flags@[k] == st.claimed.contains(
                                #[trigger] dstv[k].path,
                            ),
                        sv.path == s@.path,
                        sv.hash == s@.hash,
                        0 < best_score.1,
                        best_score.0 <= best_score.1,
                        match best {
                            Some(b) => {
                                &&& b < j
                                &&& is_candidate(dstv, st.claimed, sv.hash, b as int)
                                &&& frac_of(best_score) == cand_score(sv.path, dstv, b as int)
                                &&& frac_pos(frac_of(best_score))
                                &&& forall|k: int|
                                    is_candidate(dstv, st.claimed, sv.hash, k) && k < j
                                        ==> !frac_lt(
                                        frac_of(best_score),
                                        #[trigger] cand_score(sv.path, dstv, k),
                                    )
                                &&& forall|k: int|
                                    is_candidate(dstv, st.claimed, sv.hash, k) && k < b
                                        ==> frac_lt(
                                        #[trigger] cand_score(sv.path, dstv, k),
                                        frac_of(best_score),
                                    )
                            },
                            None => {
                                &&& best_score.0 == 0 && best_score.1 == 1
                                &&& forall|k: int|
                                    is_candidate(dstv, st.claimed, sv.hash, k) && k < j
                                        ==> !frac_pos(#[trigger] cand_score(sv.path, dstv, k))
                            },
                        },
                    decreases m - j,
                {
                    proof {
                        assert(dstv[j as int] == dest.files@[j as int]@);
                    }
                    let claimed_j = claimed_flags[j];
                    if !claimed_j && dest.files[j].hash.equals(&s.hash) {
                        let sc = path_similarity(s.path.as_str(), dest.files[j].path.as_str());
                        proof {
                            assert(frac_of(sc) == cand_score(sv.path, dstv, j as int));
                            assert(is_candidate(dstv, st.claimed, sv.hash, j as int));
                        }
                        if score_gt(sc, best_score) {
                            proof {
                                let scf = frac_of(sc);
                                let bf = frac_of(best_score);
                                lemma_frac_lt_pos(bf, scf);
                                assert forall|k: int|
                                    is_candidate(dstv, st.claimed, sv.hash, k) && k < j
                                        implies frac_lt(
                                        #[trigger] cand_score(sv.path, dstv, k),
                                        scf,
                                    ) && !frac_lt(scf, cand_score(sv.path, dstv, k)) by {
                                    lemma_path_similarity_wf(sv.path, dstv[k].path);
                                    let ck = cand_score(sv.path, dstv, k);
                                    match best {
                                        Some(_b) => {
                                            lemma_frac_le_lt_trans(ck, bf, scf);
                                        },
                                        None => {
                                            assert(!frac_pos(ck));
                                            lemma_frac_pos_gt_zero(ck, scf);
                                        },
                                    }
                                }
                            }
                            best = Some(j);
                            best_score = sc;
                        } else {
                            proof {
                                if best is None {
                                    let scf = frac_of(sc);
                                    let bf = frac_of(best_score);
                                    assert(scf.num <= 0) by (nonlinear_arith)
                                        requires
                                            !(bf.num * scf.den < scf.num * bf.den),
                                            bf.num == 0,
                                            bf.den == 1,
                                            scf.den > 0,
                                    ;
                                }
                            }
                        }
                    } else {
                        proof {
                            if claimed_j {
                                assert(st.claimed.contains(dstv[j as int].path));
                                assert(!is_candidate(dstv, st.claimed, sv.hash, j as int));
                            } else {
                                assert(dstv[j as int].hash != sv.hash);
                                assert(!is_candidate(dstv, st.claimed, sv.hash, j as int));
                            }
                        }
                    }
                    j += 1;
                }
                match best {
                    Some(b) => {
                        proof {
                            assert forall|k: int|
                                is_candidate(dstv, st.claimed, sv.hash, k) implies !frac_lt(
                                cand_score(sv.path, dstv, b as int),
                                #[trigger] cand_score(sv.path, dstv, k),
                            ) by {
                                assert(0 <= k < m);
                            }
                            assert(is_best_candidate(dstv, st.claimed, sv, b as int));
                            let jj = choose|jj: int| is_best_candidate(dstv, st.claimed, sv, jj);
                            lemma_best_candidate_unique(dstv, st.claimed, sv, jj, b as int);
                            assert(best_candidate(dstv, st.claimed, sv) == Some(b as int));
                        }
                        let pair = (dest.files[b].duplicate(), s.duplicate());
                        let ghost oldr = renamed@;
                        renamed.push(pair);
                        proof {
                            assert(renamed@ == oldr.push(renamed@.last()));
                            oldr.lemma_push_map_commute(
                                |p: (FileMeta, FileMeta)| (p.0@, p.1@),
                                renamed@.last(),
                            );
                            assert(renamed@.last().0@ == dstv[b as int]);
                        }
                        claimed_flags[b] = true;
                        proof {
                            let s2 = diff_step(dstv, st, sv);
                            assert(srcv.take(i as int + 1) =~= srcv.take(i as int).push(sv));
                            lemma_diff_fold_snoc(dstv, srcv.take(i as int), init_state(), sv);
                            st = s2;
                            assert forall|k: int| 0 <= k < m implies claimed_flags@[k]
                                == st.claimed.contains(#[trigger] dstv[k].path) by {
                                if k != b && dstv[k].path == dstv[b as int].path {
                                    assert(false);
                                }
                            }
                        }
                    },
                    None => {
                        proof {
                            if exists|jj: int| is_best_candidate(dstv, st.claimed, sv, jj) {
                                let jj = choose|jj: int|
                                    is_best_candidate(dstv, st.claimed, sv, jj);
                                assert(is_candidate(dstv, st.claimed, sv.hash, jj));
                                assert(!frac_pos(cand_score(sv.path, dstv, jj)));
                            }
                            assert(best_candidate(dstv, st.claimed, sv) is None);
                        }
                        let dup = s.duplicate();
                        let ghost olda = added@;
                        added.push(dup);
                        proof {
                            assert(added@ == olda.push(added@.last()));
                            olda.lemma_push_map_commute(|f: FileMeta| f@, added@.last());
                            let s2 = diff_step(dstv, st, sv);
                            assert(srcv.take(i as int + 1) =~= srcv.take(i as int).push(sv));
                            lemma_diff_fold_snoc(dstv, srcv.take(i as int), init_state(), sv);
                            st = s2;
                        }
                    },
                }
            },
        }
        i += 1;
    }
    proof {
        assert(srcv.take(n as int) =~= srcv);
    }

    // Destination records neither matched at an equal path nor claimed by a
    // rename are removed.
    proof {
        assert(dstv.take(0) =~= Seq::<FileMetaV>::empty());
    }
    let mut k: usize = 0;
    while k < m
        invariant
            source.wf(),
            srcv == source@.files,
            dstv == dest@.files,
            n == source.files@.len(),
            m == dest.files@.len(),
            0 <= k <= m,
            claimed_flags@.len() == m,
            forall|q: int|
                0 <= q < m ==> claimed_flags@[q] == st.claimed.contains(
                    #[trigger] dstv[q].path,
                ),
            removed@.map_values(|f: FileMeta| f@) == removed_seq(
                srcv,
                dstv.take(k as int),
                st.claimed,
            ),
        decreases m - k,
    {
        proof {
            assert(dstv[k as int] == dest.files@[k as int]@);
            assert(dstv.take(k as int + 1).drop_last() =~= dstv.take(k as int));
            assert(dstv.take(k as int + 1).last() == dstv[k as int]);
        }
        let claimed_k = claimed_flags[k];
        let src_match = find_by_path(&source.files, &dest.files[k].path);
        if !claimed_k && src_match.is_none() {
            let dup = dest.files[k].duplicate();
            let ghost oldv = removed@;
            removed.push(dup);
            proof {
                assert(is_removed(srcv, st.claimed, dstv[k as int]));
                assert(removed@ == oldv.push(removed@.last()));
                oldv.lemma_push_map_commute(|f: FileMeta| f@, removed@.last());
            }
        } else {
            proof {
                if claimed_k {
                    assert(!is_removed(srcv, st.claimed, dstv[k as int]));
                } else {
                    match src_match {
                        Some(jj) => {
                            assert(srcv[jj as int] == source.files@[jj as int]@);
                            assert(srcv[jj as int].path == dstv[k as int].path);
                            assert(has_path(srcv, dstv[k as int].path));
                        },
                        None => {
                            assert(false);
                        },
                    }
                    assert(!is_removed(srcv, st.claimed, dstv[k as int]));
                }
            }
        }
        k += 1;
    }
    proof {
        assert(dstv.take(m as int) =~= dstv);
    }

    let r = DiffResult { added, removed, modified, renamed };
    Ok(r)
}

} // verus!
