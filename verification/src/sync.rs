//! The synchronization plan: applying a changeset safely.
//!
//! A changeset is turned into an ordered list of operations whose order is
//! load-bearing: first every added and modified file is transferred, then
//! each renamed pair copies the new path before removing the old one (an
//! interruption leaves at worst a duplicate, never a loss), and removals of
//! destination-only files come last, after all copying has finished. The
//! effect of a plan on a destination is modelled as a map from paths to
//! records (`run_plan`), against which the safety laws of this module are
//! proved.

use vstd::prelude::*;

use crate::diff::{at_path, has_path, path_index, DiffResult};
use crate::snapshot::{paths_unique, FileMeta, FileMetaV};

verus! {

/// Options for sync operations.
#[derive(Debug)]
pub struct SyncOptions {
    /// Delete files in destination not present in source.
    pub delete_removed: bool,
    /// Preserve file timestamps.
    pub preserve_timestamps: bool,
    /// Verify file content after copying.
    pub verify_after_copy: bool,
}

impl Default for SyncOptions {
    /// By default destination-only files are preserved, timestamps are
    /// carried over, and no post-copy verification runs.
    fn default() -> (r: SyncOptions)
        ensures
            r.delete_removed == false,
            r.preserve_timestamps == true,
            r.verify_after_copy == false,
    {
        SyncOptions { delete_removed: false, preserve_timestamps: true, verify_after_copy: false }
    }
}

/// Mathematical model of a `SyncOp`.
pub ghost enum OpV {
    /// Copy the file at this relative path from source to destination.
    Transfer { path: Seq<char> },
    /// Remove the file at this relative path from the destination.
    Remove { path: Seq<char> },
}

/// One step of a synchronization plan.
#[derive(Debug)]
pub enum SyncOp {
    /// Copy the file at this relative path from source to destination,
    /// creating missing parent directories first.
    Transfer { path: String },
    /// Remove the file at this relative path from the destination;
    /// removing an already-absent file is not an error.
    Remove { path: String },
}

impl View for SyncOp {
    type V = OpV;

    open spec fn view(&self) -> OpV {
        match self {
            SyncOp::Transfer { path } => OpV::Transfer { path: path@ },
            SyncOp::Remove { path } => OpV::Remove { path: path@ },
        }
    }
}

/// The relative path an operation acts on.
pub open spec fn op_path(op: OpV) -> Seq<char> {
    match op {
        OpV::Transfer { path } => path,
        OpV::Remove { path } => path,
    }
}

/// Transfer operations for a run of records, in order.
pub open spec fn transfer_ops(files: Seq<FileMetaV>) -> Seq<OpV> {
    files.map_values(|f: FileMetaV| OpV::Transfer { path: f.path })
}

/// Removal operations for a run of records, in order.
pub open spec fn remove_ops(files: Seq<FileMetaV>) -> Seq<OpV> {
    files.map_values(|f: FileMetaV| OpV::Remove { path: f.path })
}

/// Operations of the rename pairs, in order: for each pair, the transfer
/// to the new path comes immediately before the removal of the old one.
pub open spec fn rename_ops(pairs: Seq<(FileMetaV, FileMetaV)>) -> Seq<OpV>
    decreases pairs.len(),
{
    if pairs.len() == 0 {
        Seq::empty()
    } else {
        rename_ops(pairs.drop_last()) + seq![
            OpV::Transfer { path: pairs.last().1.path },
            OpV::Remove { path: pairs.last().0.path },
        ]
    }
}

/// The full plan for a changeset: transfers of added and modified files,
/// then the rename pairs (copy before remove), then — only when deletion
/// is requested — removal of the destination-only files.
pub open spec fn plan_spec(c: crate::diff::ChangesetV, delete_removed: bool) -> Seq<OpV> {
    transfer_ops(c.added) + transfer_ops(c.modified) + rename_ops(c.renamed) + if delete_removed {
        remove_ops(c.removed)
    } else {
        Seq::empty()
    }
}

/// Turn a changeset into the ordered list of operations that applies it.
///
/// The order is the safety order of `plan_spec`: all copying before any
/// rename removal, and the removed set last, only when `delete_removed`
/// is set.
pub fn plan_changes(diff: &DiffResult, options: &SyncOptions) -> (r: Vec<SyncOp>)
    ensures
        r@.map_values(|o: SyncOp| o@) == plan_spec(diff@, options.delete_removed),
{
    let mut ops: Vec<SyncOp> = Vec::new();
    let ghost cs = diff@;

    let na = diff.added.len();
    let mut i: usize = 0;
    while i < na
        invariant
            cs == diff@,
            na == diff.added@.len(),
            0 <= i <= na,
            ops@.map_values(|o: SyncOp| o@) == transfer_ops(cs.added.take(i as int)),
        decreases na - i,
    {
        let ghost oldo = ops@;
        ops.push(SyncOp::Transfer { path: diff.added[i].path.clone() });
        proof {
            assert(cs.added[i as int] == diff.added@[i as int]@);
            oldo.lemma_push_map_commute(|o: SyncOp| o@, ops@.last());
            assert(cs.added.take(i as int + 1) =~= cs.added.take(i as int).push(
                cs.added[i as int],
            ));
            cs.added.take(i as int).lemma_push_map_commute(
                |f: FileMetaV| OpV::Transfer { path: f.path },
                cs.added[i as int],
            );
            assert(ops@.map_values(|o: SyncOp| o@) =~= transfer_ops(
                cs.added.take(i as int + 1),
            ));
        }
        i += 1;
    }
    proof {
        assert(cs.added.take(na as int) =~= cs.added);
    }

    let nm = diff.modified.len();
    let mut i2: usize = 0;
    while i2 < nm
        invariant
            cs == diff@,
            nm == diff.modified@.len(),
            0 <= i2 <= nm,
            ops@.map_values(|o: SyncOp| o@) == transfer_ops(cs.added) + transfer_ops(
                cs.modified.take(i2 as int),
            ),
        decreases nm - i2,
    {
        let ghost oldo = ops@;
        ops.push(SyncOp::Transfer { path: diff.modified[i2].path.clone() });
        proof {
            assert(cs.modified[i2 as int] == diff.modified@[i2 as int]@);
            oldo.lemma_push_map_commute(|o: SyncOp| o@, ops@.last());
            assert(cs.modified.take(i2 as int + 1) =~= cs.modified.take(i2 as int).push(
                cs.modified[i2 as int],
            ));
            cs.modified.take(i2 as int).lemma_push_map_commute(
                |f: FileMetaV| OpV::Transfer { path: f.path },
                cs.modified[i2 as int],
            );
            assert(ops@.map_values(|o: SyncOp| o@) =~= transfer_ops(cs.added) + transfer_ops(
                cs.modified.take(i2 as int + 1),
            ));
        }
        i2 += 1;
    }
    proof {
        assert(cs.modified.take(nm as int) =~= cs.modified);
    }

    let nr = diff.renamed.len();
    let mut i3: usize = 0;
    while i3 < nr
        invariant
            cs == diff@,
            nr == diff.renamed@.len(),
            0 <= i3 <= nr,
            ops@.map_values(|o: SyncOp| o@) == transfer_ops(cs.added) + transfer_ops(
                cs.modified,
            ) + rename_ops(cs.renamed.take(i3 as int)),
        decreases nr - i3,
    {
        let ghost oldo = ops@;
        ops.push(SyncOp::Transfer { path: diff.renamed[i3].1.path.clone() });
        ops.push(SyncOp::Remove { path: diff.renamed[i3].0.path.clone() });
        proof {
            assert(cs.renamed[i3 as int] == (
                diff.renamed@[i3 as int].0@,
                diff.renamed@[i3 as int].1@,
            ));
            let t = SyncOp::Transfer { path: diff.renamed@[i3 as int].1.path };
            assert(ops@ == oldo.push(ops@[ops@.len() - 2]).push(ops@.last()));
            oldo.lemma_push_map_commute(|o: SyncOp| o@, ops@[ops@.len() - 2]);
            oldo.push(ops@[ops@.len() - 2]).lemma_push_map_commute(
                |o: SyncOp| o@,
                ops@.last(),
            );
            assert(cs.renamed.take(i3 as int + 1).drop_last() =~= cs.renamed.take(i3 as int));
            assert(cs.renamed.take(i3 as int + 1).last() == cs.renamed[i3 as int]);
            assert(ops@.map_values(|o: SyncOp| o@) =~= transfer_ops(cs.added) + transfer_ops(
                cs.modified,
            ) + rename_ops(cs.renamed.take(i3 as int + 1)));
        }
        i3 += 1;
    }
    proof {
        assert(cs.renamed.take(nr as int) =~= cs.renamed);
    }

    if options.delete_removed {
        let nd = diff.removed.len();
        let mut i4: usize = 0;
        while i4 < nd
            invariant
                cs == diff@,
                nd == diff.removed@.len(),
                0 <= i4 <= nd,
                ops@.map_values(|o: SyncOp| o@) == transfer_ops(cs.added) + transfer_ops(
                    cs.modified,
                ) + rename_ops(cs.renamed) + remove_ops(cs.removed.take(i4 as int)),
            decreases nd - i4,
        {
            let ghost oldo = ops@;
            ops.push(SyncOp::Remove { path: diff.removed[i4].path.clone() });
            proof {
                assert(cs.removed[i4 as int] == diff.removed@[i4 as int]@);
                oldo.lemma_push_map_commute(|o: SyncOp| o@, ops@.last());
                assert(cs.removed.take(i4 as int + 1) =~= cs.removed.take(i4 as int).push(
                    cs.removed[i4 as int],
                ));
                cs.removed.take(i4 as int).lemma_push_map_commute(
                    |f: FileMetaV| OpV::Remove { path: f.path },
                    cs.removed[i4 as int],
                );
                assert(ops@.map_values(|o: SyncOp| o@) =~= transfer_ops(cs.added)
                    + transfer_ops(cs.modified) + rename_ops(cs.renamed) + remove_ops(
                    cs.removed.take(i4 as int + 1),
                ));
            }
            i4 += 1;
        }
        proof {
            assert(cs.removed.take(nd as int) =~= cs.removed);
            assert(ops@.map_values(|o: SyncOp| o@) =~= plan_spec(cs, true));
        }
    } else {
        proof {
            assert(ops@.map_values(|o: SyncOp| o@) =~= plan_spec(cs, false));
        }
    }
    ops
}

/// The records of a snapshot as a map from each path to its record.
pub open spec fn files_map(files: Seq<FileMetaV>) -> Map<Seq<char>, FileMetaV> {
    Map::new(|p: Seq<char>| has_path(files, p), |p: Seq<char>| at_path(files, p))
}

/// One operation applied to a destination state: a transfer copies the
/// source record over (when the source has the path), a removal drops the
/// path (absent paths are left alone).
pub open spec fn apply_op(
    src: Map<Seq<char>, FileMetaV>,
    dst: Map<Seq<char>, FileMetaV>,
    op: OpV,
) -> Map<Seq<char>, FileMetaV> {
    match op {
        OpV::Transfer { path } => if src.dom().contains(path) {
            dst.insert(path, src[path])
        } else {
            dst
        },
        OpV::Remove { path } => dst.remove(path),
    }
}

/// The destination state after running a plan front to back.
pub open spec fn run_plan(
    src: Map<Seq<char>, FileMetaV>,
    dst: Map<Seq<char>, FileMetaV>,
    ops: Seq<OpV>,
) -> Map<Seq<char>, FileMetaV>
    decreases ops.len(),
{
    if ops.len() == 0 {
        dst
    } else {
        run_plan(src, apply_op(src, dst, ops.first()), ops.drop_first())
    }
}

/// Folding one more operation at the end applies it to the folded state.
proof fn lemma_run_plan_snoc(
    src: Map<Seq<char>, FileMetaV>,
    dst: Map<Seq<char>, FileMetaV>,
    ops: Seq<OpV>,
    op: OpV,
)
    ensures
        run_plan(src, dst, ops.push(op)) == apply_op(src, run_plan(src, dst, ops), op),
    decreases ops.len(),
{
    reveal_with_fuel(run_plan, 3);
    if ops.len() == 0 {
        assert(ops.push(op).first() == op);
        assert(ops.push(op).drop_first() =~= Seq::<OpV>::empty());
    } else {
        assert(ops.push(op).first() == ops.first());
        assert(ops.push(op).drop_first() =~= ops.drop_first().push(op));
        lemma_run_plan_snoc(src, apply_op(src, dst, ops.first()), ops.drop_first(), op);
    }
}

/// Replacing the record at `j` by one with the same path updates the map
/// at that path and keeps the paths unique.
proof fn lemma_files_map_update(files: Seq<FileMetaV>, j: int, rec: FileMetaV)
    requires
        paths_unique(files),
        0 <= j < files.len(),
        rec.path == files[j].path,
    ensures
        paths_unique(files.update(j, rec)),
        files_map(files.update(j, rec)) == files_map(files).insert(rec.path, rec),
{
    let f2 = files.update(j, rec);
    assert(paths_unique(f2)) by {
        assert forall|i1: int, i2: int| 0 <= i1 < i2 < f2.len() implies f2[i1].path
            != f2[i2].path by {
            assert(f2[i1].path == files[i1].path);
            assert(f2[i2].path == files[i2].path);
        }
    }
    let m1 = files_map(f2);
    let m2 = files_map(files).insert(rec.path, rec);
    assert forall|p: Seq<char>| #[trigger] m1.dom().contains(p) implies m2.dom().contains(p)
        && m1[p] == m2[p] by {
        let i2 = path_index(f2, p);
        assert(0 <= i2 < f2.len() && f2[i2].path == p);
        if p == rec.path {
            assert(i2 == j) by {
                if i2 != j {
                    assert(f2[j].path == rec.path);
                }
            }
            assert(m1[p] == rec);
        } else {
            assert(i2 != j);
            assert(files[i2].path == p);
            assert(has_path(files, p));
            let i1 = path_index(files, p);
            assert(0 <= i1 < files.len() && files[i1].path == p);
            assert(i1 == i2);
            assert(m1[p] == files[i1]);
        }
    }
    assert forall|p: Seq<char>| #[trigger] m2.dom().contains(p) implies m1.dom().contains(
        p,
    ) by {
        if p == rec.path {
            assert(f2[j].path == p);
        } else {
            let i1 = path_index(files, p);
            assert(0 <= i1 < files.len() && files[i1].path == p);
            assert(i1 != j);
            assert(f2[i1].path == p);
        }
    }
    assert(m1 =~= m2);
}

/// Appending a record with a fresh path inserts it into the map and keeps
/// the paths unique.
proof fn lemma_files_map_push(files: Seq<FileMetaV>, rec: FileMetaV)
    requires
        paths_unique(files),
        !has_path(files, rec.path),
    ensures
        paths_unique(files.push(rec)),
        files_map(files.push(rec)) == files_map(files).insert(rec.path, rec),
{
    let f2 = files.push(rec);
    assert(paths_unique(f2)) by {
        assert forall|i1: int, i2: int| 0 <= i1 < i2 < f2.len() implies f2[i1].path
            != f2[i2].path by {
            if i2 == files.len() {
                assert(f2[i1] == files[i1]);
                if files[i1].path == rec.path {
                    assert(has_path(files, rec.path));
                }
            } else {
                assert(f2[i1] == files[i1]);
                assert(f2[i2] == files[i2]);
            }
        }
    }
    let m1 = files_map(f2);
    let m2 = files_map(files).insert(rec.path, rec);
    assert forall|p: Seq<char>| #[trigger] m1.dom().contains(p) implies m2.dom().contains(p)
        && m1[p] == m2[p] by {
        let i2 = path_index(f2, p);
        assert(0 <= i2 < f2.len() && f2[i2].path == p);
        if p == rec.path {
            assert(i2 == files.len()) by {
                if i2 < files.len() {
                    assert(files[i2].path == rec.path);
                    assert(has_path(files, rec.path));
                }
            }
            assert(m1[p] == rec);
        } else {
            assert(i2 != files.len());
            assert(files[i2].path == p);
            assert(has_path(files, p));
            let i1 = path_index(files, p);
            assert(0 <= i1 < files.len() && files[i1].path == p);
            assert(i1 == i2);
            assert(m1[p] == files[i1]);
        }
    }
    assert forall|p: Seq<char>| #[trigger] m2.dom().contains(p) implies m1.dom().contains(
        p,
    ) by {
        if p == rec.path {
            assert(f2[files.len() as int].path == p);
        } else {
            let i1 = path_index(files, p);
            assert(0 <= i1 < files.len() && files[i1].path == p);
            assert(f2[i1].path == p);
        }
    }
    assert(m1 =~= m2);
}

/// Deleting the record at `j` removes its path from the map and keeps the
/// paths unique.
proof fn lemma_files_map_remove(files: Seq<FileMetaV>, j: int)
    requires
        paths_unique(files),
        0 <= j < files.len(),
    ensures
        paths_unique(files.remove(j)),
        files_map(files.remove(j)) == files_map(files).remove(files[j].path),
{
    let f2 = files.remove(j);
    assert(f2.len() == files.len() - 1);
    assert(forall|i: int| 0 <= i < j ==> f2[i] == files[i]);
    assert(forall|i: int| j <= i < f2.len() ==> f2[i] == files[i + 1]);
    assert(paths_unique(f2)) by {
        assert forall|i1: int, i2: int| 0 <= i1 < i2 < f2.len() implies f2[i1].path
            != f2[i2].path by {
            let o1 = if i1 < j { i1 } else { i1 + 1 };
            let o2 = if i2 < j { i2 } else { i2 + 1 };
            assert(f2[i1] == files[o1]);
            assert(f2[i2] == files[o2]);
        }
    }
    let m1 = files_map(f2);
    let m2 = files_map(files).remove(files[j].path);
    assert forall|p: Seq<char>| #[trigger] m1.dom().contains(p) implies m2.dom().contains(p)
        && m1[p] == m2[p] by {
        let i2 = path_index(f2, p);
        assert(0 <= i2 < f2.len() && f2[i2].path == p);
        let o2 = if i2 < j { i2 } else { i2 + 1 };
        assert(f2[i2] == files[o2]);
        assert(files[o2].path == p);
        assert(p != files[j].path) by {
            if p == files[j].path {
                assert(o2 != j);
            }
        }
        assert(has_path(files, p));
        let i1 = path_index(files, p);
        assert(0 <= i1 < files.len() && files[i1].path == p);
        assert(i1 == o2);
        assert(m1[p] == f2[i2]);
    }
    assert forall|p: Seq<char>| #[trigger] m2.dom().contains(p) implies m1.dom().contains(
        p,
    ) by {
        let i1 = path_index(files, p);
        assert(0 <= i1 < files.len() && files[i1].path == p);
        assert(i1 != j);
        let i2 = if i1 < j { i1 } else { i1 - 1 };
        assert(f2[i2] == files[i1]);
        assert(f2[i2].path == p);
    }
    assert(m1 =~= m2);
}

/// Apply a plan to an in-memory listing of the destination.
///
/// This is the plan's effect on the data model: transfers copy the source
/// record for the path over the destination listing, removals drop it, in
/// plan order. The result is exactly `run_plan` on the two listings.
pub fn apply_plan(
    source_files: &Vec<FileMeta>,
    dest_files: &Vec<FileMeta>,
    ops: &Vec<SyncOp>,
) -> (r: Vec<FileMeta>)
    requires
        paths_unique(source_files@.map_values(|f: FileMeta| f@)),
        paths_unique(dest_files@.map_values(|f: FileMeta| f@)),
    ensures
        paths_unique(r@.map_values(|f: FileMeta| f@)),
        files_map(r@.map_values(|f: FileMeta| f@)) == run_plan(
            files_map(source_files@.map_values(|f: FileMeta| f@)),
            files_map(dest_files@.map_values(|f: FileMeta| f@)),
            ops@.map_values(|o: SyncOp| o@),
        ),
{
    let ghost smv = source_files@.map_values(|f: FileMeta| f@);
    let ghost dmv = dest_files@.map_values(|f: FileMeta| f@);
    let ghost opsv = ops@.map_values(|o: SyncOp| o@);

    let mut state: Vec<FileMeta> = Vec::new();
    let nd = dest_files.len();
    let mut t: usize = 0;
    while t < nd
        invariant
            dmv == dest_files@.map_values(|f: FileMeta| f@),
            nd == dest_files@.len(),
            0 <= t <= nd,
            state@.map_values(|f: FileMeta| f@) == dmv.take(t as int),
        decreases nd - t,
    {
        let ghost olds = state@;
        state.push(dest_files[t].duplicate());
        proof {
            olds.lemma_push_map_commute(|f: FileMeta| f@, state@.last());
            assert(dmv[t as int] == dest_files@[t as int]@);
            assert(state@.map_values(|f: FileMeta| f@) =~= dmv.take(t as int + 1));
        }
        t += 1;
    }
    proof {
        assert(dmv.take(nd as int) =~= dmv);
        assert(opsv.take(0) =~= Seq::<OpV>::empty());
    }

    let n = ops.len();
    let mut i: usize = 0;
    while i < n
        invariant
            paths_unique(smv),
            smv == source_files@.map_values(|f: FileMeta| f@),
            dmv == dest_files@.map_values(|f: FileMeta| f@),
            opsv == ops@.map_values(|o: SyncOp| o@),
            n == ops@.len(),
            0 <= i <= n,
            paths_unique(state@.map_values(|f: FileMeta| f@)),
            files_map(state@.map_values(|f: FileMeta| f@)) == run_plan(
                files_map(smv),
                files_map(dmv),
                opsv.take(i as int),
            ),
        decreases n - i,
    {
        let ghost stv = state@.map_values(|f: FileMeta| f@);
        proof {
            assert(opsv.take(i as int + 1) =~= opsv.take(i as int).push(opsv[i as int]));
            lemma_run_plan_snoc(
                files_map(smv),
                files_map(dmv),
                opsv.take(i as int),
                opsv[i as int],
            );
            assert(opsv[i as int] == ops@[i as int]@);
        }
        match &ops[i] {
            SyncOp::Transfer { path } => {
                proof {
                    assert(opsv[i as int] == OpV::Transfer { path: path@ });
                }
                match crate::diff::find_by_path(source_files, path) {
                    Some(js) => {
                        let rec = source_files[js].duplicate();
                        proof {
                            assert(smv[js as int] == source_files@[js as int]@);
                            crate::diff::lemma_at_path(smv, js as int);
                            assert(files_map(smv).dom().contains(path@));
                            assert(files_map(smv)[path@] == smv[js as int]);
                            assert(rec@ == smv[js as int]);
                        }
                        match crate::diff::find_by_path(&state, path) {
                            Some(jd) => {
                                proof {
                                    assert(stv[jd as int] == state@[jd as int]@);
                                }
                                state[jd] = rec;
                                proof {
                                    assert(state@.map_values(|f: FileMeta| f@) =~= stv.update(
                                        jd as int,
                                        smv[js as int],
                                    ));
                                    lemma_files_map_update(stv, jd as int, smv[js as int]);
                                }
                            },
                            None => {
                                state.push(rec);
                                proof {
                                    stv.lemma_push_map_commute(
                                        |f: FileMetaV| f,
                                        smv[js as int],
                                    );
                                    assert(state@.map_values(|f: FileMeta| f@) =~= stv.push(
                                        smv[js as int],
                                    ));
                                    lemma_files_map_push(stv, smv[js as int]);
                                }
                            },
                        }
                    },
                    None => {
                        proof {
                            assert(!has_path(smv, path@));
                            assert(!files_map(smv).dom().contains(path@));
                        }
                    },
                }
            },
            SyncOp::Remove { path } => {
                proof {
                    assert(opsv[i as int] == OpV::Remove { path: path@ });
                }
                match crate::diff::find_by_path(&state, path) {
                    Some(j) => {
                        proof {
                            assert(stv[j as int] == state@[j as int]@);
                        }
                        state.remove(j);
                        proof {
                            assert(state@.map_values(|f: FileMeta| f@) =~= stv.remove(
                                j as int,
                            ));
                            lemma_files_map_remove(stv, j as int);
                        }
                    },
                    None => {
                        proof {
                            assert(!has_path(stv, path@));
                            assert(!files_map(stv).dom().contains(path@));
                            assert(files_map(stv).remove(path@) =~= files_map(stv));
                        }
                    },
                }
            },
        }
        i += 1;
    }
    proof {
        assert(opsv.take(n as int) =~= opsv);
    }
    state
}

} // verus!
