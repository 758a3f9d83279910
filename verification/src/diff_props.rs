//! Properties of the changeset computation.
//!
//! The lemmas here derive, from the fold that defines `spec_diff`, the
//! guarantees the rest of the library builds on: every record is classified
//! exactly once, rename pairs claim distinct destination records whose
//! fingerprints match, and the removed set is precisely the unmatched,
//! unclaimed remainder of the destination. On top of those invariants stand
//! the laws: a snapshot diffed against itself yields an empty changeset, a
//! fingerprint with no match anywhere is an addition, and a lone moved file
//! is recognised as exactly one rename.

use vstd::prelude::*;

use crate::diff::{
    at_path, best_candidate, cand_score, diff_fold, diff_step, has_path, init_state,
    is_best_candidate, is_candidate, is_removed, lemma_at_path, lemma_best_candidate_unique,
    lemma_diff_fold_snoc, removed_seq, spec_diff, ChangesetV, DiffStateV,
};
use crate::similarity::{
    frac_lt, frac_pos, lemma_frac_le_lt_trans, lemma_frac_pos_gt_zero,
    lemma_path_similarity_wf, spec_path_similarity,
};
use crate::snapshot::{paths_unique, FileMetaV};

verus! {

/// Elements of the removed sequence are exactly the destination records
/// that satisfy `is_removed`.
pub proof fn lemma_removed_seq_elems(
    source: Seq<FileMetaV>,
    dest: Seq<FileMetaV>,
    claimed: Set<Seq<char>>,
)
    ensures
        forall|i: int|
            0 <= i < removed_seq(source, dest, claimed).len() ==> dest.contains(
                #[trigger] removed_seq(source, dest, claimed)[i],
            ) && is_removed(source, claimed, removed_seq(source, dest, claimed)[i]),
        forall|x: FileMetaV|
            dest.contains(x) && is_removed(source, claimed, x) ==> removed_seq(
                source,
                dest,
                claimed,
            ).contains(x),
    decreases dest.len(),
{
    broadcast use vstd::seq_lib::lemma_seq_contains_after_push;

    if dest.len() == 0 {
    } else {
        lemma_removed_seq_elems(source, dest.drop_last(), claimed);
        let rs = removed_seq(source, dest, claimed);
        let rest = removed_seq(source, dest.drop_last(), claimed);
        assert forall|i: int| 0 <= i < rs.len() implies dest.contains(#[trigger] rs[i])
            && is_removed(source, claimed, rs[i]) by {
            if is_removed(source, claimed, dest.last()) {
                if i < rest.len() {
                    assert(rs[i] == rest[i]);
                    assert(dest.drop_last().contains(rest[i]));
                    let q = choose|q: int|
                        0 <= q < dest.drop_last().len() && dest.drop_last()[q] == rest[i];
                    assert(dest[q] == rest[i]);
                } else {
                    assert(rs[i] == dest.last());
                    assert(dest[dest.len() - 1] == dest.last());
                }
            } else {
                assert(rs[i] == rest[i]);
                assert(dest.drop_last().contains(rest[i]));
                let q = choose|q: int|
                    0 <= q < dest.drop_last().len() && dest.drop_last()[q] == rest[i];
                assert(dest[q] == rest[i]);
            }
        }
        assert forall|x: FileMetaV| dest.contains(x) && is_removed(source, claimed, x)
            implies rs.contains(x) by {
            let q = choose|q: int| 0 <= q < dest.len() && dest[q] == x;
            if q < dest.len() - 1 {
                assert(dest.drop_last()[q] == x);
                assert(dest.drop_last().contains(x));
                assert(rest.contains(x));
                let w = choose|w: int| 0 <= w < rest.len() && rest[w] == x;
                assert(rs[w] == x);
            } else {
                assert(x == dest.last());
                assert(rs[rs.len() - 1] == x);
            }
        }
    }
}

/// With unique destination paths, the removed records have unique paths.
pub proof fn lemma_removed_seq_unique(
    source: Seq<FileMetaV>,
    dest: Seq<FileMetaV>,
    claimed: Set<Seq<char>>,
)
    requires
        paths_unique(dest),
    ensures
        paths_unique(removed_seq(source, dest, claimed)),
    decreases dest.len(),
{
    if dest.len() == 0 {
    } else {
        assert(paths_unique(dest.drop_last())) by {
            assert(forall|i: int|
                0 <= i < dest.len() - 1 ==> dest.drop_last()[i] == dest[i]);
        }
        lemma_removed_seq_unique(source, dest.drop_last(), claimed);
        lemma_removed_seq_elems(source, dest.drop_last(), claimed);
        let rs = removed_seq(source, dest, claimed);
        let rest = removed_seq(source, dest.drop_last(), claimed);
        if is_removed(source, claimed, dest.last()) {
            assert forall|i: int, j: int| 0 <= i < j < rs.len() implies rs[i].path
                != rs[j].path by {
                if j < rest.len() {
                    assert(rs[i] == rest[i] && rs[j] == rest[j]);
                } else {
                    assert(rs[j] == dest.last());
                    assert(rs[i] == rest[i]);
                    assert(dest.drop_last().contains(rest[i]));
                    let q = choose|q: int|
                        0 <= q < dest.drop_last().len() && dest.drop_last()[q] == rest[i];
                    assert(dest[q] == rest[i]);
                    assert(dest[q].path != dest[dest.len() - 1].path);
                }
            }
        }
    }
}

/// When some unclaimed candidate has a positive score, a best candidate
/// bounded by `k` exists.
spec fn is_best_upto(
    dest: Seq<FileMetaV>,
    claimed: Set<Seq<char>>,
    s: FileMetaV,
    b: int,
    k: int,
) -> bool {
    &&& 0 <= b < k
    &&& is_candidate(dest, claimed, s.hash, b)
    &&& frac_pos(cand_score(s.path, dest, b))
    &&& forall|j: int|
        is_candidate(dest, claimed, s.hash, j) && j < k ==> !frac_lt(
            cand_score(s.path, dest, b),
            #[trigger] cand_score(s.path, dest, j),
        )
    &&& forall|j: int|
        is_candidate(dest, claimed, s.hash, j) && j < b ==> frac_lt(
            #[trigger] cand_score(s.path, dest, j),
            cand_score(s.path, dest, b),
        )
}

proof fn lemma_best_upto(dest: Seq<FileMetaV>, claimed: Set<Seq<char>>, s: FileMetaV, k: int)
    requires
        0 <= k <= dest.len(),
    ensures
        (exists|j: int|
            0 <= j < k && is_candidate(dest, claimed, s.hash, j) && frac_pos(
                #[trigger] cand_score(s.path, dest, j),
            )) ==> exists|b: int| #[trigger] is_best_upto(dest, claimed, s, b, k),
    decreases k,
{
    if k == 0 {
    } else {
        lemma_best_upto(dest, claimed, s, k - 1);
        let prev_pos = exists|j: int|
            0 <= j < k - 1 && is_candidate(dest, claimed, s.hash, j) && frac_pos(
                #[trigger] cand_score(s.path, dest, j),
            );
        let last_cand = is_candidate(dest, claimed, s.hash, k - 1);
        let sk = cand_score(s.path, dest, k - 1);
        if prev_pos {
            let b = choose|b: int| #[trigger] is_best_upto(dest, claimed, s, b, k - 1);
            let sb = cand_score(s.path, dest, b);
            lemma_path_similarity_wf(s.path, dest[b].path);
            if last_cand {
                lemma_path_similarity_wf(s.path, dest[k - 1].path);
                if frac_lt(sb, sk) {
                    assert forall|j: int|
                        is_candidate(dest, claimed, s.hash, j) && j < k implies !frac_lt(
                        sk,
                        #[trigger] cand_score(s.path, dest, j),
                    ) && (j < k - 1 ==> frac_lt(cand_score(s.path, dest, j), sk)) by {
                        if j < k - 1 {
                            lemma_path_similarity_wf(s.path, dest[j].path);
                            lemma_frac_le_lt_trans(cand_score(s.path, dest, j), sb, sk);
                        }
                    }
                    assert(frac_pos(sk)) by {
                        crate::similarity::lemma_frac_lt_pos(sb, sk);
                    }
                    assert(is_best_upto(dest, claimed, s, k - 1, k));
                } else {
                    assert(is_best_upto(dest, claimed, s, b, k));
                }
            } else {
                assert(is_best_upto(dest, claimed, s, b, k));
            }
        } else {
            if last_cand && frac_pos(sk) {
                lemma_path_similarity_wf(s.path, dest[k - 1].path);
                assert forall|j: int|
                    is_candidate(dest, claimed, s.hash, j) && j < k - 1 implies frac_lt(
                    #[trigger] cand_score(s.path, dest, j),
                    sk,
                ) && !frac_lt(sk, cand_score(s.path, dest, j)) by {
                    lemma_path_similarity_wf(s.path, dest[j].path);
                    assert(!frac_pos(cand_score(s.path, dest, j)));
                    lemma_frac_pos_gt_zero(cand_score(s.path, dest, j), sk);
                }
                assert(is_best_upto(dest, claimed, s, k - 1, k));
            }
        }
    }
}

/// If any unclaimed candidate scores positive, a rename match exists.
pub proof fn lemma_best_exists(dest: Seq<FileMetaV>, claimed: Set<Seq<char>>, s: FileMetaV)
    requires
        exists|j: int|
            is_candidate(dest, claimed, s.hash, j) && frac_pos(
                #[trigger] cand_score(s.path, dest, j),
            ),
    ensures
        best_candidate(dest, claimed, s) is Some,
{
    let j0 = choose|j: int|
        is_candidate(dest, claimed, s.hash, j) && frac_pos(
            #[trigger] cand_score(s.path, dest, j),
        );
    lemma_best_upto(dest, claimed, s, dest.len() as int);
    assert(0 <= j0 < dest.len() && is_candidate(dest, claimed, s.hash, j0) && frac_pos(
        cand_score(s.path, dest, j0),
    ));
    let b = choose|b: int| #[trigger] is_best_upto(dest, claimed, s, b, dest.len() as int);
    assert(is_best_candidate(dest, claimed, s, b));
}

/// Paths of the source records that got a changeset entry, in bucket order.
pub open spec fn touched_paths(st: DiffStateV) -> Seq<Seq<char>> {
    st.added.map_values(|f: FileMetaV| f.path) + st.modified.map_values(|f: FileMetaV| f.path)
        + st.renamed.map_values(|p: (FileMetaV, FileMetaV)| p.1.path)
}


/// Inserting a path unseen so far at any position of the touched-paths
/// sequence keeps it duplicate-free and keeps every entry a processed path.
proof fn lemma_touched_step(
    prefix: Seq<FileMetaV>,
    s: FileMetaV,
    t0: Seq<Seq<char>>,
    t1: Seq<Seq<char>>,
    pos: int,
)
    requires
        forall|q: int| 0 <= q < prefix.len() ==> (#[trigger] prefix[q]).path != s.path,
        t0.no_duplicates(),
        forall|i: int|
            0 <= i < t0.len() ==> exists|q: int|
                0 <= q < prefix.len() && (#[trigger] prefix[q]).path == #[trigger] t0[i],
        0 <= pos <= t0.len(),
        t1.len() == t0.len() + 1,
        forall|i: int| 0 <= i < pos ==> #[trigger] t1[i] == t0[i],
        t1[pos] == s.path,
        forall|i: int| pos < i < t1.len() ==> #[trigger] t1[i] == t0[i - 1],
    ensures
        t1.no_duplicates(),
        forall|i: int|
            0 <= i < t1.len() ==> exists|q: int|
                0 <= q < prefix.push(s).len() && (#[trigger] prefix.push(s)[q]).path
                    == #[trigger] t1[i],
{
    assert(!t0.contains(s.path)) by {
        if t0.contains(s.path) {
            let i = choose|i: int| 0 <= i < t0.len() && t0[i] == s.path;
            assert(exists|q: int|
                0 <= q < prefix.len() && (#[trigger] prefix[q]).path == t0[i]);
        }
    }
    assert forall|i: int, j: int| 0 <= i < j < t1.len() implies t1[i] != t1[j] by {
        if j < pos {
        } else if j == pos {
            assert(t1[i] == t0[i]);
            if t0[i] == s.path {
                assert(t0.contains(s.path));
            }
        } else if i < pos {
            assert(t1[i] == t0[i]);
            assert(t1[j] == t0[j - 1]);
            assert(i < j - 1 || i == j - 1);
            if i == j - 1 {
                assert(i >= pos);
            }
        } else if i == pos {
            assert(t1[j] == t0[j - 1]);
            if t0[j - 1] == s.path {
                assert(t0.contains(s.path));
            }
        } else {
            assert(t1[i] == t0[i - 1]);
            assert(t1[j] == t0[j - 1]);
        }
    }
    assert forall|i: int| 0 <= i < t1.len() implies exists|q: int|
        0 <= q < prefix.push(s).len() && (#[trigger] prefix.push(s)[q]).path
            == #[trigger] t1[i] by {
        let done = prefix.push(s);
        if i == pos {
            assert(done[prefix.len() as int].path == s.path);
        } else {
            let i0 = if i < pos { i } else { i - 1 };
            assert(t1[i] == t0[i0]);
            let q = choose|q: int|
                0 <= q < prefix.len() && (#[trigger] prefix[q]).path == t0[i0];
            assert(done[q].path == t1[i]);
        }
    }
}

/// How `done` records have been classified into state `st` against `dest`.
pub open spec fn fold_inv(dest: Seq<FileMetaV>, done: Seq<FileMetaV>, st: DiffStateV) -> bool {
    // added entries are source records with no destination path match
    &&& forall|i: int|
        0 <= i < st.added.len() ==> done.contains(#[trigger] st.added[i]) && !has_path(
            dest,
            st.added[i].path,
        )
    // modified entries are source records whose destination counterpart differs
    &&& forall|i: int|
        0 <= i < st.modified.len() ==> done.contains(#[trigger] st.modified[i]) && has_path(
            dest,
            st.modified[i].path,
        ) && at_path(dest, st.modified[i].path).hash != st.modified[i].hash
    // rename pairs: a claimed destination record and a source record with the
    // same fingerprint, the source path absent from the destination
    &&& forall|i: int|
        0 <= i < st.renamed.len() ==> done.contains((#[trigger] st.renamed[i]).1)
            && dest.contains(st.renamed[i].0) && st.renamed[i].0.hash == st.renamed[i].1.hash
            && !has_path(dest, st.renamed[i].1.path) && st.claimed.contains(
            st.renamed[i].0.path,
        )
    // the claim set is exactly path-matched paths plus rename-claimed paths
    &&& forall|p: Seq<char>|
        #[trigger] st.claimed.contains(p) <==> ((exists|i: int|
            0 <= i < done.len() && done[i].path == p && has_path(dest, p)) || (exists|i: int|
            0 <= i < st.renamed.len() && (#[trigger] st.renamed[i]).0.path == p))
    // each destination record is claimed by at most one rename
    &&& forall|i: int, j: int|
        0 <= i < j < st.renamed.len() ==> (#[trigger] st.renamed[i]).0.path != (
        #[trigger] st.renamed[j]).0.path
    // a source record lands in at most one bucket, and only processed ones land
    &&& touched_paths(st).no_duplicates()
    &&& forall|i: int|
        0 <= i < touched_paths(st).len() ==> exists|q: int|
            0 <= q < done.len() && done[q].path == #[trigger] touched_paths(st)[i]
    // every processed record that needed work got an entry
    &&& forall|i: int|
        0 <= i < done.len() ==> classified(dest, st, #[trigger] done[i])
    // an added record left no usable candidate behind
    &&& forall|i: int, j: int|
        0 <= i < st.added.len() && 0 <= j < dest.len() && dest[j].hash == (
        #[trigger] st.added[i]).hash && frac_pos(
            spec_path_similarity(st.added[i].path, (#[trigger] dest[j]).path),
        ) ==> st.claimed.contains(dest[j].path)
}

/// The entry that processing record `s` must have produced.
pub open spec fn classified(dest: Seq<FileMetaV>, st: DiffStateV, s: FileMetaV) -> bool {
    if has_path(dest, s.path) {
        at_path(dest, s.path).hash != s.hash ==> st.modified.contains(s)
    } else {
        st.added.contains(s) || exists|k: int|
            0 <= k < st.renamed.len() && (#[trigger] st.renamed[k]).1 == s
    }
}

/// The classification invariant holds of the fold over any processed
/// prefix with unique paths.
pub proof fn lemma_fold_inv(dest: Seq<FileMetaV>, done: Seq<FileMetaV>)
    requires
        paths_unique(dest),
        paths_unique(done),
    ensures
        fold_inv(dest, done, diff_fold(dest, done, init_state())),
    decreases done.len(),
{
    broadcast use vstd::seq_lib::lemma_seq_contains_after_push;

    if done.len() == 0 {
        let st = init_state();
        assert(touched_paths(st) =~= Seq::<Seq<char>>::empty());
    } else {
        let prefix = done.drop_last();
        let s = done.last();
        assert(paths_unique(prefix)) by {
            assert(forall|i: int| 0 <= i < prefix.len() ==> prefix[i] == done[i]);
        }
        lemma_fold_inv(dest, prefix);
        let st0 = diff_fold(dest, prefix, init_state());
        let st1 = diff_fold(dest, done, init_state());
        assert(done =~= prefix.push(s));
        lemma_diff_fold_snoc(dest, prefix, init_state(), s);
        assert(st1 == diff_step(dest, st0, s));
        // the path of the new record is new among the processed ones
        assert(forall|q: int| 0 <= q < prefix.len() ==> prefix[q].path != s.path);
        lemma_step_preserves_inv(dest, prefix, st0, s);
        assert(fold_inv(dest, prefix.push(s), st1));
    }
}

/// One fold step keeps the classification invariant.
proof fn lemma_step_preserves_inv(
    dest: Seq<FileMetaV>,
    prefix: Seq<FileMetaV>,
    st0: DiffStateV,
    s: FileMetaV,
)
    requires
        paths_unique(dest),
        fold_inv(dest, prefix, st0),
        forall|q: int| 0 <= q < prefix.len() ==> (#[trigger] prefix[q]).path != s.path,
    ensures
        fold_inv(dest, prefix.push(s), diff_step(dest, st0, s)),
{
    broadcast use vstd::seq_lib::lemma_seq_contains_after_push;

    let done = prefix.push(s);
    let st1 = diff_step(dest, st0, s);
    assert(forall|x: FileMetaV| prefix.contains(x) ==> done.contains(x));
    assert(done[done.len() - 1] == s);
    assert(done.contains(s));
    if has_path(dest, s.path) {
        let d = at_path(dest, s.path);
        // claim characterization
        assert forall|p: Seq<char>| #[trigger] st1.claimed.contains(p) implies ((exists|i: int|
            0 <= i < done.len() && done[i].path == p && has_path(dest, p)) || (exists|i: int|
            0 <= i < st1.renamed.len() && (#[trigger] st1.renamed[i]).0.path == p)) by {
            if p == s.path {
                assert(0 <= done.len() - 1 < done.len() && done[done.len() - 1].path == p
                    && has_path(dest, p));
            } else {
                assert(st0.claimed.contains(p));
                if exists|i: int|
                    0 <= i < prefix.len() && (#[trigger] prefix[i]).path == p && has_path(
                    dest,
                    p,
                ) {
                    let i = choose|i: int|
                        0 <= i < prefix.len() && (#[trigger] prefix[i]).path == p && has_path(
                            dest,
                            p,
                        );
                    assert(0 <= i < done.len() && done[i].path == p && has_path(dest, p));
                } else {
                    let i = choose|i: int|
                        0 <= i < st0.renamed.len() && (#[trigger] st0.renamed[i]).0.path == p;
                    assert(0 <= i < st1.renamed.len() && st1.renamed[i].0.path == p);
                }
            }
        }
        assert forall|p: Seq<char>| ((exists|i: int|
            0 <= i < done.len() && done[i].path == p && has_path(dest, p)) || (exists|i: int|
            0 <= i < st1.renamed.len() && (#[trigger] st1.renamed[i]).0.path == p))
            implies #[trigger] st1.claimed.contains(p) by {
            if exists|i: int| 0 <= i < done.len() && done[i].path == p && has_path(dest, p) {
                let i = choose|i: int|
                    0 <= i < done.len() && done[i].path == p && has_path(dest, p);
                if i < prefix.len() {
                    assert(0 <= i < prefix.len() && prefix[i].path == p && has_path(dest, p));
                    assert(st0.claimed.contains(p));
                }
            } else {
                let i = choose|i: int|
                    0 <= i < st1.renamed.len() && (#[trigger] st1.renamed[i]).0.path == p;
                assert(0 <= i < st0.renamed.len() && st0.renamed[i].0.path == p);
                assert(st0.claimed.contains(p));
            }
        }
        if d.hash != s.hash {
            // a modified entry is pushed
            assert(st1.modified == st0.modified.push(s));
            let t0 = touched_paths(st0);
            let t1 = touched_paths(st1);
            let pos = st0.added.len() + st0.modified.len();
            st0.modified.lemma_push_map_commute(|f: FileMetaV| f.path, s);
            assert(t1 =~= st0.added.map_values(|f: FileMetaV| f.path) + st0.modified.map_values(
                |f: FileMetaV| f.path,
            ).push(s.path) + st0.renamed.map_values(|p: (FileMetaV, FileMetaV)| p.1.path));
            assert(t1.len() == t0.len() + 1);
            assert(forall|i: int| 0 <= i < pos ==> #[trigger] t1[i] == t0[i]);
            assert(t1[pos as int] == s.path);
            assert(forall|i: int| pos < i < t1.len() ==> #[trigger] t1[i] == t0[i - 1]);
            lemma_touched_step(prefix, s, t0, t1, pos as int);
        } else {
            assert(st1.modified == st0.modified);
            assert(touched_paths(st1) =~= touched_paths(st0));
        }
        assert forall|i: int| 0 <= i < done.len() implies classified(
            dest,
            st1,
            #[trigger] done[i],
        ) by {
            if i < prefix.len() {
                assert(classified(dest, st0, prefix[i]));
                assert(done[i] == prefix[i]);
            } else {
                assert(done[i] == s);
            }
        }
    } else {
        match best_candidate(dest, st0.claimed, s) {
            Some(j) => {
                assert(is_best_candidate(dest, st0.claimed, s, j)) by {
                    assert(best_candidate(dest, st0.claimed, s) is Some);
                    let jj = choose|jj: int|
                        #[trigger] is_best_candidate(dest, st0.claimed, s, jj);
                    assert(is_best_candidate(dest, st0.claimed, s, jj));
                    lemma_best_candidate_unique(dest, st0.claimed, s, jj, j);
                };
                assert(st1.renamed == st0.renamed.push((dest[j], s)));
                assert(dest.contains(dest[j]));
                assert(st1.claimed == st0.claimed.insert(dest[j].path));
                // claim characterization
                assert forall|p: Seq<char>| #[trigger] st1.claimed.contains(p) implies ((exists|
                    i: int,
                |
                    0 <= i < done.len() && done[i].path == p && has_path(dest, p)) || (exists|
                    i: int,
                |
                    0 <= i < st1.renamed.len() && (#[trigger] st1.renamed[i]).0.path == p)) by {
                    if p == dest[j].path {
                        assert(0 <= st1.renamed.len() - 1 < st1.renamed.len()
                            && st1.renamed[st1.renamed.len() - 1].0.path == p);
                    } else {
                        assert(st0.claimed.contains(p));
                        if exists|i: int|
                            0 <= i < prefix.len() && (#[trigger] prefix[i]).path == p
                                && has_path(dest, p) {
                            let i = choose|i: int|
                                0 <= i < prefix.len() && (#[trigger] prefix[i]).path == p
                                    && has_path(dest, p);
                            assert(0 <= i < done.len() && done[i].path == p && has_path(
                                dest,
                                p,
                            ));
                        } else {
                            let i = choose|i: int|
                                0 <= i < st0.renamed.len() && (#[trigger] st0.renamed[i]).0.path
                                    == p;
                            assert(0 <= i < st1.renamed.len() && st1.renamed[i].0.path == p);
                        }
                    }
                }
                assert forall|p: Seq<char>| ((exists|i: int|
                    0 <= i < done.len() && done[i].path == p && has_path(dest, p)) || (exists|
                    i: int,
                |
                    0 <= i < st1.renamed.len() && (#[trigger] st1.renamed[i]).0.path == p))
                    implies #[trigger] st1.claimed.contains(p) by {
                    if exists|i: int|
                        0 <= i < done.len() && done[i].path == p && has_path(dest, p) {
                        let i = choose|i: int|
                            0 <= i < done.len() && done[i].path == p && has_path(dest, p);
                        if i < prefix.len() {
                            assert(prefix[i].path == p);
                            assert(st0.claimed.contains(p));
                        } else {
                            assert(done[i] == s);
                            assert(false);
                        }
                    } else {
                        let i = choose|i: int|
                            0 <= i < st1.renamed.len() && (#[trigger] st1.renamed[i]).0.path
                                == p;
                        if i < st0.renamed.len() {
                            assert(st0.renamed[i].0.path == p);
                            assert(st0.claimed.contains(p));
                        }
                    }
                }
                // distinct old paths: the new claim was unclaimed before
                assert forall|i1: int, i2: int| 0 <= i1 < i2 < st1.renamed.len() implies (
                #[trigger] st1.renamed[i1]).0.path != (#[trigger] st1.renamed[i2]).0.path by {
                    if i2 == st0.renamed.len() as int {
                        assert(st0.claimed.contains(st0.renamed[i1].0.path));
                        assert(!st0.claimed.contains(dest[j].path));
                    }
                }
                let t0 = touched_paths(st0);
                let t1 = touched_paths(st1);
                let pos = t0.len();
                st0.renamed.lemma_push_map_commute(
                    |p: (FileMetaV, FileMetaV)| p.1.path,
                    (dest[j], s),
                );
                assert(t1 =~= t0.push(s.path));
                assert(t1.len() == t0.len() + 1);
                assert(forall|i: int| 0 <= i < pos ==> #[trigger] t1[i] == t0[i]);
                assert(t1[pos as int] == s.path);
                lemma_touched_step(prefix, s, t0, t1, pos as int);
                assert forall|i: int| 0 <= i < done.len() implies classified(
                    dest,
                    st1,
                    #[trigger] done[i],
                ) by {
                    if i < prefix.len() {
                        assert(classified(dest, st0, prefix[i]));
                        assert(done[i] == prefix[i]);
                        if !has_path(dest, prefix[i].path) {
                            if exists|k: int|
                                0 <= k < st0.renamed.len() && (#[trigger] st0.renamed[k]).1
                                    == prefix[i] {
                                let k = choose|k: int|
                                    0 <= k < st0.renamed.len() && (
                                    #[trigger] st0.renamed[k]).1 == prefix[i];
                                assert(st1.renamed[k].1 == prefix[i]);
                            }
                        }
                    } else {
                        assert(done[i] == s);
                        assert(st1.renamed[st1.renamed.len() - 1].1 == s);
                    }
                }
                // added entries keep their exhausted-candidates property
                assert forall|i1: int, j1: int|
                    0 <= i1 < st1.added.len() && 0 <= j1 < dest.len() && dest[j1].hash == (
                    #[trigger] st1.added[i1]).hash && frac_pos(
                        spec_path_similarity(st1.added[i1].path, (#[trigger] dest[j1]).path),
                    ) implies st1.claimed.contains(dest[j1].path) by {
                    assert(st0.added[i1] == st1.added[i1]);
                    assert(st0.claimed.contains(dest[j1].path));
                }
            },
            None => {
                assert(st1.added == st0.added.push(s));
                assert(st1.claimed == st0.claimed);
                assert(st1.renamed == st0.renamed);
                assert forall|p: Seq<char>| #[trigger] st1.claimed.contains(p) implies ((exists|
                    i: int,
                |
                    0 <= i < done.len() && done[i].path == p && has_path(dest, p)) || (exists|
                    i: int,
                |
                    0 <= i < st1.renamed.len() && (#[trigger] st1.renamed[i]).0.path == p)) by {
                    assert(st0.claimed.contains(p));
                    if exists|i: int|
                        0 <= i < prefix.len() && (#[trigger] prefix[i]).path == p && has_path(
                        dest,
                        p,
                    ) {
                        let i = choose|i: int|
                            0 <= i < prefix.len() && (#[trigger] prefix[i]).path == p
                                && has_path(dest, p);
                        assert(0 <= i < done.len() && done[i].path == p && has_path(dest, p));
                    }
                }
                assert forall|p: Seq<char>| ((exists|i: int|
                    0 <= i < done.len() && done[i].path == p && has_path(dest, p)) || (exists|
                    i: int,
                |
                    0 <= i < st1.renamed.len() && (#[trigger] st1.renamed[i]).0.path == p))
                    implies #[trigger] st1.claimed.contains(p) by {
                    if exists|i: int|
                        0 <= i < done.len() && done[i].path == p && has_path(dest, p) {
                        let i = choose|i: int|
                            0 <= i < done.len() && done[i].path == p && has_path(dest, p);
                        if i < prefix.len() {
                            assert(0 <= i < prefix.len() && prefix[i].path == p && has_path(
                                dest,
                                p,
                            ));
                            assert(st0.claimed.contains(p));
                        } else {
                            assert(done[i] == s);
                            assert(false);
                        }
                    }
                }
                let t0 = touched_paths(st0);
                let t1 = touched_paths(st1);
                let pos = st0.added.len();
                st0.added.lemma_push_map_commute(|f: FileMetaV| f.path, s);
                assert(t1 =~= st0.added.map_values(|f: FileMetaV| f.path).push(s.path)
                    + st0.modified.map_values(|f: FileMetaV| f.path) + st0.renamed.map_values(
                    |p: (FileMetaV, FileMetaV)| p.1.path,
                ));
                assert(t1.len() == t0.len() + 1);
                assert(forall|i: int| 0 <= i < pos ==> #[trigger] t1[i] == t0[i]);
                assert(t1[pos as int] == s.path);
                assert(forall|i: int| pos < i < t1.len() ==> #[trigger] t1[i] == t0[i - 1]);
                lemma_touched_step(prefix, s, t0, t1, pos as int);
                assert forall|i: int| 0 <= i < done.len() implies classified(
                    dest,
                    st1,
                    #[trigger] done[i],
                ) by {
                    if i < prefix.len() {
                        assert(classified(dest, st0, prefix[i]));
                        assert(done[i] == prefix[i]);
                    } else {
                        assert(done[i] == s);
                        assert(st1.added.contains(s));
                    }
                }
                // no positive-score candidate was left for `s`
                assert forall|i1: int, j1: int|
                    0 <= i1 < st1.added.len() && 0 <= j1 < dest.len() && dest[j1].hash == (
                    #[trigger] st1.added[i1]).hash && frac_pos(
                        spec_path_similarity(st1.added[i1].path, (#[trigger] dest[j1]).path),
                    ) implies st1.claimed.contains(dest[j1].path) by {
                    if i1 < st0.added.len() {
                        assert(st0.added[i1] == st1.added[i1]);
                    } else {
                        assert(st1.added[i1] == s);
                        if !st0.claimed.contains(dest[j1].path) {
                            assert(is_candidate(dest, st0.claimed, s.hash, j1));
                            assert(frac_pos(cand_score(s.path, dest, j1)));
                            lemma_best_exists(dest, st0.claimed, s);
                            assert(false);
                        }
                    }
                }
            },
        }
    }
}

/// Paths targeted by transfers: added, modified and rename-new entries.
pub open spec fn transfer_paths(c: ChangesetV) -> Seq<Seq<char>> {
    c.added.map_values(|f: FileMetaV| f.path) + c.modified.map_values(|f: FileMetaV| f.path)
        + c.renamed.map_values(|p: (FileMetaV, FileMetaV)| p.1.path)
}

/// The shape every computed changeset has: entries come from the right
/// snapshot, no source record appears twice, renames claim distinct
/// destination records with matching fingerprints, and the removed set is
/// disjoint from everything a rename or transfer touches.
pub open spec fn changeset_wf(
    source: Seq<FileMetaV>,
    dest: Seq<FileMetaV>,
    c: ChangesetV,
) -> bool {
    &&& forall|i: int|
        0 <= i < c.added.len() ==> source.contains(#[trigger] c.added[i]) && !has_path(
            dest,
            c.added[i].path,
        )
    &&& forall|i: int|
        0 <= i < c.modified.len() ==> source.contains(#[trigger] c.modified[i]) && has_path(
            dest,
            c.modified[i].path,
        )
    &&& forall|i: int|
        0 <= i < c.renamed.len() ==> source.contains((#[trigger] c.renamed[i]).1)
            && dest.contains(c.renamed[i].0) && c.renamed[i].0.hash == c.renamed[i].1.hash
            && !has_path(dest, c.renamed[i].1.path)
    &&& forall|i: int, j: int|
        0 <= i < j < c.renamed.len() ==> (#[trigger] c.renamed[i]).0.path != (
        #[trigger] c.renamed[j]).0.path
    &&& transfer_paths(c).no_duplicates()
    &&& forall|i: int|
        0 <= i < c.removed.len() ==> dest.contains(#[trigger] c.removed[i]) && !has_path(
            source,
            c.removed[i].path,
        )
    &&& paths_unique(c.removed)
    &&& forall|i: int, j: int|
        0 <= i < c.removed.len() && 0 <= j < c.renamed.len() ==> (
        #[trigger] c.removed[i]).path != (#[trigger] c.renamed[j]).0.path
}

/// Every changeset the differ computes is well formed.
pub proof fn lemma_diff_changeset_wf(source: Seq<FileMetaV>, dest: Seq<FileMetaV>)
    requires
        paths_unique(source),
        paths_unique(dest),
    ensures
        changeset_wf(source, dest, spec_diff(source, dest)),
{
    lemma_fold_inv(dest, source);
    let st = diff_fold(dest, source, init_state());
    let c = spec_diff(source, dest);
    lemma_removed_seq_elems(source, dest, st.claimed);
    lemma_removed_seq_unique(source, dest, st.claimed);
    assert(transfer_paths(c) == touched_paths(st));
    assert forall|i: int, j: int|
        0 <= i < c.removed.len() && 0 <= j < c.renamed.len() implies (
    #[trigger] c.removed[i]).path != (#[trigger] c.renamed[j]).0.path by {
        assert(is_removed(source, st.claimed, c.removed[i]));
        assert(st.claimed.contains(st.renamed[j].0.path));
    }
}

/// Two records of a unique-path sequence carrying the same path are the
/// same record.
proof fn lemma_unique_same_path(files: Seq<FileMetaV>, i: int, j: int)
    requires
        paths_unique(files),
        0 <= i < files.len(),
        0 <= j < files.len(),
        files[i].path == files[j].path,
    ensures
        i == j,
        files[i] == files[j],
{
}

/// Diffing a snapshot against itself yields an empty changeset: every
/// record matches itself by path and fingerprint, so nothing is added,
/// removed, modified or renamed.
pub proof fn lemma_diff_self_empty(files: Seq<FileMetaV>)
    requires
        paths_unique(files),
    ensures
        spec_diff(files, files).added.len() == 0,
        spec_diff(files, files).removed.len() == 0,
        spec_diff(files, files).modified.len() == 0,
        spec_diff(files, files).renamed.len() == 0,
{
    lemma_diff_self_state(files, files.len() as int);
    assert(files.take(files.len() as int) =~= files);
    let st = diff_fold(files, files, init_state());
    let rs = removed_seq(files, files, st.claimed);
    lemma_removed_seq_elems(files, files, st.claimed);
    if rs.len() > 0 {
        assert(files.contains(rs[0]) && is_removed(files, st.claimed, rs[0]));
        let q = choose|q: int| 0 <= q < files.len() && files[q] == rs[0];
        assert(has_path(files, rs[0].path));
    }
}

/// Against itself, the fold leaves every bucket empty and claims exactly
/// the processed paths.
proof fn lemma_diff_self_state(files: Seq<FileMetaV>, k: int)
    requires
        paths_unique(files),
        0 <= k <= files.len(),
    ensures
        diff_fold(files, files.take(k), init_state()).added.len() == 0,
        diff_fold(files, files.take(k), init_state()).modified.len() == 0,
        diff_fold(files, files.take(k), init_state()).renamed.len() == 0,
        forall|p: Seq<char>|
            diff_fold(files, files.take(k), init_state()).claimed.contains(p) <==> exists|i: int|
                0 <= i < k && (#[trigger] files[i]).path == p,
    decreases k,
{
    if k == 0 {
        assert(files.take(0) =~= Seq::<FileMetaV>::empty());
    } else {
        lemma_diff_self_state(files, k - 1);
        let st0 = diff_fold(files, files.take(k - 1), init_state());
        let s = files[k - 1];
        assert(files.take(k) =~= files.take(k - 1).push(s));
        lemma_diff_fold_snoc(files, files.take(k - 1), init_state(), s);
        let st1 = diff_fold(files, files.take(k), init_state());
        lemma_at_path(files, k - 1);
        assert(has_path(files, s.path));
        assert(at_path(files, s.path) == s);
        assert(st1 == diff_step(files, st0, s));
        assert(st1.modified == st0.modified);
        assert(st1.claimed == st0.claimed.insert(s.path));
        assert forall|p: Seq<char>| st1.claimed.contains(p) implies exists|i: int|
            0 <= i < k && (#[trigger] files[i]).path == p by {
            if p == s.path {
                assert(files[k - 1].path == p);
            } else {
                let i = choose|i: int| 0 <= i < k - 1 && (#[trigger] files[i]).path == p;
                assert(0 <= i < k && files[i].path == p);
            }
        }
        assert forall|p: Seq<char>| (exists|i: int|
            0 <= i < k && (#[trigger] files[i]).path == p) implies st1.claimed.contains(p) by {
            let i = choose|i: int| 0 <= i < k && (#[trigger] files[i]).path == p;
            if i < k - 1 {
                assert(st0.claimed.contains(p));
            }
        }
    }
}

/// A source record whose fingerprint has no match anywhere in the
/// destination, and whose path has no destination entry, is classified
/// added.
pub proof fn lemma_unmatched_is_added(
    source: Seq<FileMetaV>,
    dest: Seq<FileMetaV>,
    s: FileMetaV,
)
    requires
        paths_unique(source),
        paths_unique(dest),
        source.contains(s),
        !has_path(dest, s.path),
        forall|j: int| 0 <= j < dest.len() ==> (#[trigger] dest[j]).hash != s.hash,
    ensures
        spec_diff(source, dest).added.contains(s),
{
    lemma_fold_inv(dest, source);
    let st = diff_fold(dest, source, init_state());
    let i = choose|i: int| 0 <= i < source.len() && source[i] == s;
    assert(classified(dest, st, source[i]));
    if exists|k: int| 0 <= k < st.renamed.len() && (#[trigger] st.renamed[k]).1 == s {
        let k = choose|k: int| 0 <= k < st.renamed.len() && (#[trigger] st.renamed[k]).1 == s;
        assert(dest.contains(st.renamed[k].0));
        let q = choose|q: int| 0 <= q < dest.len() && dest[q] == st.renamed[k].0;
        assert(dest[q].hash == s.hash);
    }
    assert(st.added.contains(s));
}

/// A lone moved file is recognised as exactly one rename. When the source
/// holds the only record with fingerprint `h` at a fresh path, the
/// destination holds the only record with `h` at a path the source lacks,
/// and the two paths score a positive similarity, the diff yields the
/// rename pair and neither path appears among the added, removed or
/// modified entries.
pub proof fn lemma_single_rename(
    source: Seq<FileMetaV>,
    dest: Seq<FileMetaV>,
    s: FileMetaV,
    d: FileMetaV,
)
    requires
        paths_unique(source),
        paths_unique(dest),
        source.contains(s),
        dest.contains(d),
        s.hash == d.hash,
        s.path != d.path,
        !has_path(dest, s.path),
        !has_path(source, d.path),
        forall|i: int|
            0 <= i < source.len() && (#[trigger] source[i]).hash == s.hash ==> source[i] == s,
        forall|j: int|
            0 <= j < dest.len() && (#[trigger] dest[j]).hash == d.hash ==> dest[j] == d,
        frac_pos(spec_path_similarity(s.path, d.path)),
    ensures
        spec_diff(source, dest).renamed.contains((d, s)),
        forall|k: int|
            0 <= k < spec_diff(source, dest).renamed.len() && ((
            #[trigger] spec_diff(source, dest).renamed[k]).0.path == d.path || spec_diff(
                source,
                dest,
            ).renamed[k].1.path == s.path) ==> spec_diff(source, dest).renamed[k] == (d, s),
        forall|i: int|
            0 <= i < spec_diff(source, dest).added.len() ==> (
            #[trigger] spec_diff(source, dest).added[i]).path != s.path && spec_diff(
                source,
                dest,
            ).added[i].path != d.path,
        forall|i: int|
            0 <= i < spec_diff(source, dest).modified.len() ==> (
            #[trigger] spec_diff(source, dest).modified[i]).path != s.path && spec_diff(
                source,
                dest,
            ).modified[i].path != d.path,
        forall|i: int|
            0 <= i < spec_diff(source, dest).removed.len() ==> (
            #[trigger] spec_diff(source, dest).removed[i]).path != s.path && spec_diff(
                source,
                dest,
            ).removed[i].path != d.path,
{
    broadcast use vstd::seq_lib::lemma_seq_contains_after_push;

    lemma_fold_inv(dest, source);
    let st = diff_fold(dest, source, init_state());
    let c = spec_diff(source, dest);
    let t = touched_paths(st);
    let na = st.added.len() as int;
    let nm = st.modified.len() as int;
    let isrc = choose|i: int| 0 <= i < source.len() && source[i] == s;
    let jd = choose|j: int| 0 <= j < dest.len() && dest[j] == d;
    assert(classified(dest, st, source[isrc]));

    // if s were added, the candidate d must have been claimed by a rename
    // of the same fingerprint, which contradicts s being the only source
    // record with it — so s is in a rename pair
    if st.added.contains(s) {
        let ia = choose|ia: int| 0 <= ia < st.added.len() && st.added[ia] == s;
        assert(dest[jd].hash == st.added[ia].hash);
        assert(frac_pos(spec_path_similarity(st.added[ia].path, dest[jd].path)));
        assert(st.claimed.contains(dest[jd].path));
        if exists|q: int| 0 <= q < source.len() && (#[trigger] source[q]).path == d.path {
            let q = choose|q: int|
                0 <= q < source.len() && (#[trigger] source[q]).path == d.path;
            assert(has_path(source, d.path));
            assert(false);
        }
        let k = choose|k: int|
            0 <= k < st.renamed.len() && (#[trigger] st.renamed[k]).0.path == d.path;
        let o = st.renamed[k].0;
        let qo = choose|q: int| 0 <= q < dest.len() && dest[q] == o;
        lemma_unique_same_path(dest, qo, jd);
        assert(o == d);
        assert(st.renamed[k].1.hash == s.hash);
        let qn = choose|q: int| 0 <= q < source.len() && source[q] == st.renamed[k].1;
        assert(st.renamed[k].1 == s);
        // s would then occur twice among the touched paths
        assert(t[ia] == s.path);
        assert(t[na + nm + k] == s.path);
        assert(ia < na);
        assert(false);
    }
    let k = choose|k: int| 0 <= k < st.renamed.len() && (#[trigger] st.renamed[k]).1 == s;
    let o = st.renamed[k].0;
    assert(o.hash == s.hash);
    let qo = choose|q: int| 0 <= q < dest.len() && dest[q] == o;
    assert(dest[qo] == d);
    assert(st.renamed[k] == (d, s));
    assert(c.renamed.contains((d, s)));

    // uniqueness of the pair for either path
    assert forall|k2: int|
        0 <= k2 < c.renamed.len() && ((#[trigger] c.renamed[k2]).0.path == d.path
            || c.renamed[k2].1.path == s.path) implies c.renamed[k2] == (d, s) by {
        if c.renamed[k2].0.path == d.path {
            let q2 = choose|q: int| 0 <= q < dest.len() && dest[q] == st.renamed[k2].0;
            lemma_unique_same_path(dest, q2, jd);
            assert(st.renamed[k2].0 == d);
            if k2 != k {
                assert(st.renamed[k2].0.path != st.renamed[k].0.path);
                assert(false);
            }
        } else {
            let q2 = choose|q: int| 0 <= q < source.len() && source[q] == st.renamed[k2].1;
            lemma_unique_same_path(source, q2, isrc);
            assert(st.renamed[k2].1 == s);
            if k2 != k {
                assert(t[na + nm + k] == s.path);
                assert(t[na + nm + k2] == s.path);
                assert(false);
            }
        }
    }

    // neither path appears among the added or modified entries
    assert forall|i: int| 0 <= i < c.added.len() implies (#[trigger] c.added[i]).path != s.path
        && c.added[i].path != d.path by {
        if c.added[i].path == s.path {
            assert(t[i] == s.path);
            assert(t[na + nm + k] == s.path);
            assert(false);
        }
        if c.added[i].path == d.path {
            let q = choose|q: int| 0 <= q < source.len() && source[q] == st.added[i];
            assert(has_path(source, d.path));
        }
    }
    assert forall|i: int| 0 <= i < c.modified.len() implies (
    #[trigger] c.modified[i]).path != s.path && c.modified[i].path != d.path by {
        if c.modified[i].path == s.path {
            assert(t[na + i] == s.path);
            assert(t[na + nm + k] == s.path);
            assert(false);
        }
        if c.modified[i].path == d.path {
            let q = choose|q: int| 0 <= q < source.len() && source[q] == st.modified[i];
            assert(has_path(source, d.path));
        }
    }
    lemma_removed_seq_elems(source, dest, st.claimed);
    assert forall|i: int| 0 <= i < c.removed.len() implies (
    #[trigger] c.removed[i]).path != s.path && c.removed[i].path != d.path by {
        assert(dest.contains(c.removed[i]) && is_removed(source, st.claimed, c.removed[i]));
        if c.removed[i].path == s.path {
            let q = choose|q: int| 0 <= q < dest.len() && dest[q] == c.removed[i];
            assert(has_path(dest, s.path));
        }
        if c.removed[i].path == d.path {
            assert(st.claimed.contains(st.renamed[k].0.path));
        }
    }
}

} // verus!
