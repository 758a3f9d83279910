//! Safety laws of the synchronization plan.
//!
//! The effect of a plan on a destination state is settled by the last
//! operation that touches each path (`lemma_run_plan_last_op`). From that
//! and the shape of a well-formed changeset follow the laws: a rename
//! leaves the new path carrying the source record and the old path gone;
//! without `delete_removed` every destination-only file survives intact;
//! with it, exactly the removed set disappears and nothing else.

use vstd::prelude::*;

use crate::diff::{at_path, has_path, ChangesetV};
use crate::diff_props::changeset_wf;
use crate::snapshot::{paths_unique, FileMetaV};
use crate::sync::{
    apply_op, files_map, op_path, plan_spec, remove_ops, rename_ops, run_plan, transfer_ops,
    OpV,
};

verus! {

/// The last operation in `ops` acting on path `p`, if any.
pub open spec fn last_op_on(ops: Seq<OpV>, p: Seq<char>) -> Option<OpV>
    decreases ops.len(),
{
    if ops.len() == 0 {
        None
    } else if op_path(ops.last()) == p {
        Some(ops.last())
    } else {
        last_op_on(ops.drop_last(), p)
    }
}

/// Scanning from the front: the tail decides unless it is silent on `p`.
proof fn lemma_last_op_on_front(ops: Seq<OpV>, p: Seq<char>)
    requires
        ops.len() > 0,
    ensures
        last_op_on(ops, p) == (match last_op_on(ops.drop_first(), p) {
            Some(o) => Some(o),
            None => if op_path(ops.first()) == p {
                Some(ops.first())
            } else {
                None
            },
        }),
    decreases ops.len(),
{
    if ops.len() == 1 {
        assert(ops.drop_first() =~= Seq::<OpV>::empty());
        assert(ops.last() == ops.first());
    } else {
        assert(ops.drop_first().last() == ops.last());
        if op_path(ops.last()) == p {
        } else {
            assert(ops.drop_last().drop_first() =~= ops.drop_first().drop_last());
            lemma_last_op_on_front(ops.drop_last(), p);
            assert(ops.drop_last().first() == ops.first());
        }
    }
}

/// `last_op_on` distributes over concatenation: the right part decides
/// unless it is silent on `p`.
pub proof fn lemma_last_op_on_concat(a: Seq<OpV>, b: Seq<OpV>, p: Seq<char>)
    ensures
        last_op_on(a + b, p) == (match last_op_on(b, p) {
            Some(o) => Some(o),
            None => last_op_on(a, p),
        }),
    decreases b.len(),
{
    if b.len() == 0 {
        assert(a + b =~= a);
    } else {
        assert((a + b).last() == b.last());
        if op_path(b.last()) == p {
        } else {
            assert((a + b).drop_last() =~= a + b.drop_last());
            lemma_last_op_on_concat(a, b.drop_last(), p);
        }
    }
}

/// The last operation of a transfer run on `p` is a transfer exactly when
/// some record carries `p`.
pub proof fn lemma_last_op_on_transfers(files: Seq<FileMetaV>, p: Seq<char>)
    ensures
        last_op_on(transfer_ops(files), p) == if has_path(files, p) {
            Some(OpV::Transfer { path: p })
        } else {
            None::<OpV>
        },
    decreases files.len(),
{
    let ops = transfer_ops(files);
    if files.len() == 0 {
    } else {
        assert(ops.last() == OpV::Transfer { path: files.last().path });
        assert(ops.drop_last() =~= transfer_ops(files.drop_last()));
        lemma_last_op_on_transfers(files.drop_last(), p);
        if files.last().path == p {
            assert(files[files.len() - 1].path == p);
            assert(has_path(files, p));
        } else {
            assert(has_path(files, p) == has_path(files.drop_last(), p)) by {
                if has_path(files, p) {
                    let i = choose|i: int| 0 <= i < files.len() && files[i].path == p;
                    assert(files.drop_last()[i] == files[i]);
                }
                if has_path(files.drop_last(), p) {
                    let i = choose|i: int|
                        0 <= i < files.len() - 1 && files.drop_last()[i].path == p;
                    assert(files[i] == files.drop_last()[i]);
                }
            }
        }
    }
}

/// The last operation of a removal run on `p` is a removal exactly when
/// some record carries `p`.
pub proof fn lemma_last_op_on_removes(files: Seq<FileMetaV>, p: Seq<char>)
    ensures
        last_op_on(remove_ops(files), p) == if has_path(files, p) {
            Some(OpV::Remove { path: p })
        } else {
            None::<OpV>
        },
    decreases files.len(),
{
    let ops = remove_ops(files);
    if files.len() == 0 {
    } else {
        assert(ops.last() == OpV::Remove { path: files.last().path });
        assert(ops.drop_last() =~= remove_ops(files.drop_last()));
        lemma_last_op_on_removes(files.drop_last(), p);
        if files.last().path == p {
            assert(files[files.len() - 1].path == p);
            assert(has_path(files, p));
        } else {
            assert(has_path(files, p) == has_path(files.drop_last(), p)) by {
                if has_path(files, p) {
                    let i = choose|i: int| 0 <= i < files.len() && files[i].path == p;
                    assert(files.drop_last()[i] == files[i]);
                }
                if has_path(files.drop_last(), p) {
                    let i = choose|i: int|
                        0 <= i < files.len() - 1 && files.drop_last()[i].path == p;
                    assert(files[i] == files.drop_last()[i]);
                }
            }
        }
    }
}

/// What the rename run leaves on `p`: nothing when no pair touches `p`, a
/// removal when `p` is an old path touched by no new path, a transfer when
/// `p` is a new path touched by no old path.
pub proof fn lemma_last_op_on_renames(pairs: Seq<(FileMetaV, FileMetaV)>, p: Seq<char>)
    ensures
        (forall|k: int|
            0 <= k < pairs.len() ==> (#[trigger] pairs[k]).0.path != p && pairs[k].1.path != p)
            ==> last_op_on(rename_ops(pairs), p) is None,
        ((exists|k: int| 0 <= k < pairs.len() && (#[trigger] pairs[k]).0.path == p) && (forall|
            k: int,
        |
            0 <= k < pairs.len() ==> (#[trigger] pairs[k]).1.path != p)) ==> last_op_on(
            rename_ops(pairs),
            p,
        ) == Some(OpV::Remove { path: p }),
        ((exists|k: int| 0 <= k < pairs.len() && (#[trigger] pairs[k]).1.path == p) && (forall|
            k: int,
        |
            0 <= k < pairs.len() ==> (#[trigger] pairs[k]).0.path != p)) ==> last_op_on(
            rename_ops(pairs),
            p,
        ) == Some(OpV::Transfer { path: p }),
    decreases pairs.len(),
{
    reveal_with_fuel(last_op_on, 4);
    if pairs.len() == 0 {
    } else {
        let rest = pairs.drop_last();
        lemma_last_op_on_renames(rest, p);
        let tail = seq![
            OpV::Transfer { path: pairs.last().1.path },
            OpV::Remove { path: pairs.last().0.path },
        ];
        lemma_last_op_on_concat(rename_ops(rest), tail, p);
        assert(forall|k: int| 0 <= k < rest.len() ==> rest[k] == pairs[k]);
        assert(pairs[pairs.len() - 1] == pairs.last());
        // the two-element tail's own last operation on p
        assert(tail.last() == OpV::Remove { path: pairs.last().0.path });
        assert(tail.drop_last() =~= seq![OpV::Transfer { path: pairs.last().1.path }]);
        assert(tail.drop_last().last() == OpV::Transfer { path: pairs.last().1.path });
        assert(tail.drop_last().drop_last() =~= Seq::<OpV>::empty());
        assert(last_op_on(tail, p) == (if pairs.last().0.path == p {
            Some(OpV::Remove { path: pairs.last().0.path })
        } else if pairs.last().1.path == p {
            Some(OpV::Transfer { path: pairs.last().1.path })
        } else {
            None::<OpV>
        }));
        if exists|k: int| 0 <= k < pairs.len() && (#[trigger] pairs[k]).0.path == p {
            if forall|k: int|
                0 <= k < pairs.len() ==> (#[trigger] pairs[k]).1.path != p {
                if pairs.last().0.path == p {
                } else {
                    let k = choose|k: int|
                        0 <= k < pairs.len() && (#[trigger] pairs[k]).0.path == p;
                    assert(rest[k].0.path == p);
                }
            }
        }
        if exists|k: int| 0 <= k < pairs.len() && (#[trigger] pairs[k]).1.path == p {
            if forall|k: int|
                0 <= k < pairs.len() ==> (#[trigger] pairs[k]).0.path != p {
                if pairs.last().1.path == p {
                } else {
                    let k = choose|k: int|
                        0 <= k < pairs.len() && (#[trigger] pairs[k]).1.path == p;
                    assert(rest[k].1.path == p);
                }
            }
        }
    }
}

/// Running a plan, the state of each path is decided by the last operation
/// on it: a transfer leaves the source record, a removal leaves the path
/// absent, and a path no operation touches keeps its destination state.
/// Every transferred path must exist in the source.
pub proof fn lemma_run_plan_last_op(
    src: Map<Seq<char>, FileMetaV>,
    dst: Map<Seq<char>, FileMetaV>,
    ops: Seq<OpV>,
    p: Seq<char>,
)
    requires
        forall|i: int|
            0 <= i < ops.len() && (#[trigger] ops[i]) is Transfer ==> src.dom().contains(
                op_path(ops[i]),
            ),
    ensures
        (match last_op_on(ops, p) {
            None => run_plan(src, dst, ops).dom().contains(p) == dst.dom().contains(p) && (
            dst.dom().contains(p) ==> run_plan(src, dst, ops)[p] == dst[p]),
            Some(op) => match op {
                OpV::Transfer { .. } => run_plan(src, dst, ops).dom().contains(p) && run_plan(
                    src,
                    dst,
                    ops,
                )[p] == src[p],
                OpV::Remove { .. } => !run_plan(src, dst, ops).dom().contains(p),
            },
        }),
    decreases ops.len(),
{
    if ops.len() == 0 {
    } else {
        let first = ops.first();
        let d1 = apply_op(src, dst, first);
        let rest = ops.drop_first();
        assert(forall|i: int|
            0 <= i < rest.len() ==> rest[i] == ops[i + 1]);
        assert forall|i: int|
            0 <= i < rest.len() && (#[trigger] rest[i]) is Transfer implies src.dom().contains(
            op_path(rest[i]),
        ) by {
            assert(rest[i] == ops[i + 1]);
        }
        assert(first == ops[0]);
        lemma_run_plan_last_op(src, d1, rest, p);
        lemma_last_op_on_front(ops, p);
        if last_op_on(rest, p) is None {
            if op_path(first) == p {
                match first {
                    OpV::Transfer { .. } => {
                        assert(src.dom().contains(p));
                        assert(d1.dom().contains(p) && d1[p] == src[p]);
                    },
                    OpV::Remove { .. } => {
                        assert(!d1.dom().contains(p));
                    },
                }
            } else {
                assert(d1.dom().contains(p) == dst.dom().contains(p));
                assert(dst.dom().contains(p) ==> d1[p] == dst[p]);
            }
        }
    }
}

/// A rename is applied safely: after the whole plan runs, the new path
/// carries exactly the source record and the old destination path is gone
/// — whatever `delete_removed` is set to and however many removed entries
/// the same run processes.
pub proof fn lemma_rename_applied(
    source: Seq<FileMetaV>,
    dest: Seq<FileMetaV>,
    c: ChangesetV,
    delete_removed: bool,
    k: int,
)
    requires
        paths_unique(source),
        paths_unique(dest),
        changeset_wf(source, dest, c),
        0 <= k < c.renamed.len(),
    ensures
        ({
            let m = run_plan(files_map(source), files_map(dest), plan_spec(c, delete_removed));
            &&& m.dom().contains(c.renamed[k].1.path)
            &&& m[c.renamed[k].1.path] == c.renamed[k].1
            &&& !m.dom().contains(c.renamed[k].0.path)
        }),
{
    let sm = files_map(source);
    let dm = files_map(dest);
    let plan = plan_spec(c, delete_removed);
    let o = c.renamed[k].0;
    let n = c.renamed[k].1;
    lemma_plan_transfers_in_source(source, dest, c, delete_removed);

    let rm_seg: Seq<OpV> = if delete_removed {
        remove_ops(c.removed)
    } else {
        Seq::empty()
    };
    let head = transfer_ops(c.added) + transfer_ops(c.modified) + rename_ops(c.renamed);

    // the new path: its transfer is the last operation on it
    lemma_dest_record_has_dest_path(dest, o);
    assert forall|i: int| 0 <= i < c.removed.len() implies (#[trigger] c.removed[i]).path
        != n.path by {
        lemma_dest_record_has_dest_path(dest, c.removed[i]);
    }
    lemma_last_op_on_removes(c.removed, n.path);
    assert(!has_path(c.removed, n.path)) by {
        if has_path(c.removed, n.path) {
            let i = choose|i: int| 0 <= i < c.removed.len() && c.removed[i].path == n.path;
        }
    }
    lemma_last_op_on_concat(head, rm_seg, n.path);
    assert(last_op_on(rm_seg, n.path) is None) by {
        if delete_removed {
        } else {
            assert(rm_seg.len() == 0);
        }
    }
    assert(plan =~= head + rm_seg);
    lemma_last_op_on_renames(c.renamed, n.path);
    assert(exists|q: int| 0 <= q < c.renamed.len() && (#[trigger] c.renamed[q]).1.path
        == n.path);
    assert forall|q: int| 0 <= q < c.renamed.len() implies (#[trigger] c.renamed[q]).0.path
        != n.path by {
        lemma_dest_record_has_dest_path(dest, c.renamed[q].0);
    }
    lemma_last_op_on_concat(
        transfer_ops(c.added) + transfer_ops(c.modified),
        rename_ops(c.renamed),
        n.path,
    );
    assert(transfer_ops(c.added) + transfer_ops(c.modified) + rename_ops(c.renamed) =~= (
    transfer_ops(c.added) + transfer_ops(c.modified)) + rename_ops(c.renamed));
    assert(last_op_on(head, n.path) == Some(OpV::Transfer { path: n.path }));
    assert(last_op_on(plan, n.path) == Some(OpV::Transfer { path: n.path }));
    lemma_run_plan_last_op(sm, dm, plan, n.path);
    assert(source.contains(n));
    let qn = choose|q: int| 0 <= q < source.len() && source[q] == n;
    crate::diff::lemma_at_path(source, qn);
    assert(sm.dom().contains(n.path));
    assert(sm[n.path] == n);

    // the old path: its removal is the last operation on it
    assert forall|i: int| 0 <= i < c.removed.len() implies (#[trigger] c.removed[i]).path
        != o.path by {}
    lemma_last_op_on_removes(c.removed, o.path);
    assert(!has_path(c.removed, o.path)) by {
        if has_path(c.removed, o.path) {
            let i = choose|i: int| 0 <= i < c.removed.len() && c.removed[i].path == o.path;
        }
    }
    lemma_last_op_on_concat(head, rm_seg, o.path);
    assert(last_op_on(rm_seg, o.path) is None) by {
        if !delete_removed {
            assert(rm_seg.len() == 0);
        }
    }
    lemma_last_op_on_renames(c.renamed, o.path);
    assert(exists|q: int| 0 <= q < c.renamed.len() && (#[trigger] c.renamed[q]).0.path
        == o.path);
    assert forall|q: int| 0 <= q < c.renamed.len() implies (#[trigger] c.renamed[q]).1.path
        != o.path by {
        assert(!has_path(dest, c.renamed[q].1.path));
        lemma_dest_record_has_dest_path(dest, o);
    }
    lemma_last_op_on_concat(
        transfer_ops(c.added) + transfer_ops(c.modified),
        rename_ops(c.renamed),
        o.path,
    );
    assert(last_op_on(head, o.path) == Some(OpV::Remove { path: o.path }));
    assert(last_op_on(plan, o.path) == Some(OpV::Remove { path: o.path }));
    lemma_run_plan_last_op(sm, dm, plan, o.path);
}

/// A record taken from the destination carries a destination path.
proof fn lemma_dest_record_has_dest_path(dest: Seq<FileMetaV>, d: FileMetaV)
    requires
        dest.contains(d),
    ensures
        has_path(dest, d.path),
{
    let q = choose|q: int| 0 <= q < dest.len() && dest[q] == d;
    assert(dest[q].path == d.path);
}

/// Every transfer of the plan names a source path.
proof fn lemma_plan_transfers_in_source(
    source: Seq<FileMetaV>,
    dest: Seq<FileMetaV>,
    c: ChangesetV,
    delete_removed: bool,
)
    requires
        paths_unique(source),
        changeset_wf(source, dest, c),
    ensures
        forall|i: int|
            0 <= i < plan_spec(c, delete_removed).len() && (#[trigger] plan_spec(
                c,
                delete_removed,
            )[i]) is Transfer ==> files_map(source).dom().contains(
                op_path(plan_spec(c, delete_removed)[i]),
            ),
{
    let plan = plan_spec(c, delete_removed);
    assert forall|i: int|
        0 <= i < plan.len() && (#[trigger] plan[i]) is Transfer implies files_map(
        source,
    ).dom().contains(op_path(plan[i])) by {
        let na = c.added.len() as int;
        let nm = c.modified.len() as int;
        let nr = rename_ops(c.renamed).len();
        lemma_rename_ops_len(c.renamed);
        if i < na {
            assert(plan[i] == transfer_ops(c.added)[i]);
            assert(source.contains(c.added[i]));
            lemma_source_path_in_map(source, c.added[i]);
        } else if i < na + nm {
            assert(plan[i] == transfer_ops(c.modified)[i - na]);
            assert(source.contains(c.modified[i - na]));
            lemma_source_path_in_map(source, c.modified[i - na]);
        } else if i < na + nm + nr {
            let j = i - na - nm;
            lemma_rename_ops_index(c.renamed, j);
            assert(plan[i] == rename_ops(c.renamed)[j]);
            if j % 2 == 0 {
                assert(source.contains(c.renamed[j / 2].1));
                lemma_source_path_in_map(source, c.renamed[j / 2].1);
            }
        } else {
            assert(plan[i] == remove_ops(c.removed)[i - na - nm - nr]);
        }
    }
}

/// A source record's path is in the source map.
proof fn lemma_source_path_in_map(source: Seq<FileMetaV>, s: FileMetaV)
    requires
        source.contains(s),
    ensures
        files_map(source).dom().contains(s.path),
{
    let q = choose|q: int| 0 <= q < source.len() && source[q] == s;
    assert(source[q].path == s.path);
}

/// A rename run has two operations per pair.
proof fn lemma_rename_ops_len(pairs: Seq<(FileMetaV, FileMetaV)>)
    ensures
        rename_ops(pairs).len() == 2 * pairs.len(),
    decreases pairs.len(),
{
    if pairs.len() > 0 {
        lemma_rename_ops_len(pairs.drop_last());
    }
}

/// The shape of the rename run: even positions transfer a pair's new path,
/// odd positions remove its old path.
proof fn lemma_rename_ops_index(pairs: Seq<(FileMetaV, FileMetaV)>, j: int)
    requires
        0 <= j < 2 * pairs.len(),
    ensures
        rename_ops(pairs).len() == 2 * pairs.len(),
        j % 2 == 0 ==> rename_ops(pairs)[j] == (OpV::Transfer { path: pairs[j / 2].1.path }),
        j % 2 == 1 ==> rename_ops(pairs)[j] == (OpV::Remove { path: pairs[j / 2].0.path }),
    decreases pairs.len(),
{
    lemma_rename_ops_len(pairs);
    if pairs.len() > 0 {
        lemma_rename_ops_len(pairs.drop_last());
        if j < 2 * (pairs.len() - 1) {
            lemma_rename_ops_index(pairs.drop_last(), j);
            assert(pairs.drop_last()[j / 2] == pairs[j / 2]);
        } else {
            assert(j / 2 == pairs.len() - 1);
            assert(pairs[j / 2] == pairs.last());
        }
    }
}

/// Without `delete_removed`, no destination-only file is touched: every
/// removed record survives the run unchanged.
pub proof fn lemma_no_delete_preserves_removed(
    source: Seq<FileMetaV>,
    dest: Seq<FileMetaV>,
    c: ChangesetV,
    k: int,
)
    requires
        paths_unique(source),
        paths_unique(dest),
        changeset_wf(source, dest, c),
        0 <= k < c.removed.len(),
    ensures
        ({
            let m = run_plan(files_map(source), files_map(dest), plan_spec(c, false));
            &&& m.dom().contains(c.removed[k].path)
            &&& m[c.removed[k].path] == c.removed[k]
        }),
{
    let sm = files_map(source);
    let dm = files_map(dest);
    let plan = plan_spec(c, false);
    let r = c.removed[k];
    lemma_plan_transfers_in_source(source, dest, c, false);
    lemma_plan_silent_on_removed(source, dest, c, k);
    assert(plan =~= (transfer_ops(c.added) + transfer_ops(c.modified) + rename_ops(c.renamed))
        + Seq::<OpV>::empty());
    lemma_last_op_on_concat(
        transfer_ops(c.added) + transfer_ops(c.modified) + rename_ops(c.renamed),
        Seq::<OpV>::empty(),
        r.path,
    );
    lemma_run_plan_last_op(sm, dm, plan, r.path);
    assert(dest.contains(r));
    let q = choose|q: int| 0 <= q < dest.len() && dest[q] == r;
    crate::diff::lemma_at_path(dest, q);
    assert(dm.dom().contains(r.path));
    assert(dm[r.path] == r);
}

/// The copy phases never touch a removed record's path.
proof fn lemma_plan_silent_on_removed(
    source: Seq<FileMetaV>,
    dest: Seq<FileMetaV>,
    c: ChangesetV,
    k: int,
)
    requires
        paths_unique(source),
        changeset_wf(source, dest, c),
        0 <= k < c.removed.len(),
    ensures
        last_op_on(
            transfer_ops(c.added) + transfer_ops(c.modified) + rename_ops(c.renamed),
            c.removed[k].path,
        ) is None,
{
    let r = c.removed[k];
    // no transfer: added, modified and rename-new records are source
    // records, and the removed path has no source record
    assert(!has_path(c.added, r.path)) by {
        if has_path(c.added, r.path) {
            let i = choose|i: int| 0 <= i < c.added.len() && c.added[i].path == r.path;
            assert(source.contains(c.added[i]));
            lemma_dest_record_has_dest_path(source, c.added[i]);
        }
    }
    assert(!has_path(c.modified, r.path)) by {
        if has_path(c.modified, r.path) {
            let i = choose|i: int| 0 <= i < c.modified.len() && c.modified[i].path == r.path;
            assert(source.contains(c.modified[i]));
            lemma_dest_record_has_dest_path(source, c.modified[i]);
        }
    }
    lemma_last_op_on_transfers(c.added, r.path);
    lemma_last_op_on_transfers(c.modified, r.path);
    assert forall|q: int| 0 <= q < c.renamed.len() implies (#[trigger] c.renamed[q]).0.path
        != r.path && c.renamed[q].1.path != r.path by {
        assert(source.contains(c.renamed[q].1));
        if c.renamed[q].1.path == r.path {
            lemma_dest_record_has_dest_path(source, c.renamed[q].1);
        }
    }
    lemma_last_op_on_renames(c.renamed, r.path);
    lemma_last_op_on_concat(transfer_ops(c.added), transfer_ops(c.modified), r.path);
    lemma_last_op_on_concat(
        transfer_ops(c.added) + transfer_ops(c.modified),
        rename_ops(c.renamed),
        r.path,
    );
}

/// With `delete_removed`, exactly the removed set is deleted: every
/// removed record's path is gone, and every other destination path —
/// except those claimed as rename sources — is still present.
pub proof fn lemma_delete_removes_exactly(
    source: Seq<FileMetaV>,
    dest: Seq<FileMetaV>,
    c: ChangesetV,
)
    requires
        paths_unique(source),
        paths_unique(dest),
        changeset_wf(source, dest, c),
    ensures
        forall|k: int|
            0 <= k < c.removed.len() ==> !run_plan(
                files_map(source),
                files_map(dest),
                plan_spec(c, true),
            ).dom().contains((#[trigger] c.removed[k]).path),
        forall|p: Seq<char>|
            has_path(dest, p) && !has_path(c.removed, p) && (forall|q: int|
                0 <= q < c.renamed.len() ==> (#[trigger] c.renamed[q]).0.path != p)
                ==> #[trigger] run_plan(
                files_map(source),
                files_map(dest),
                plan_spec(c, true),
            ).dom().contains(p),
{
    let sm = files_map(source);
    let dm = files_map(dest);
    let plan = plan_spec(c, true);
    let head = transfer_ops(c.added) + transfer_ops(c.modified) + rename_ops(c.renamed);
    lemma_plan_transfers_in_source(source, dest, c, true);
    assert(plan =~= head + remove_ops(c.removed));

    assert forall|k: int| 0 <= k < c.removed.len() implies !run_plan(
        sm,
        dm,
        plan,
    ).dom().contains((#[trigger] c.removed[k]).path) by {
        let r = c.removed[k];
        assert(r.path == c.removed[k].path);
        assert(has_path(c.removed, r.path)) by {
            assert(c.removed[k].path == r.path);
        }
        lemma_last_op_on_removes(c.removed, r.path);
        lemma_last_op_on_concat(head, remove_ops(c.removed), r.path);
        assert(last_op_on(plan, r.path) == Some(OpV::Remove { path: r.path }));
        lemma_run_plan_last_op(sm, dm, plan, r.path);
    }

    assert forall|p: Seq<char>|
        has_path(dest, p) && !has_path(c.removed, p) && (forall|q: int|
            0 <= q < c.renamed.len() ==> (#[trigger] c.renamed[q]).0.path != p)
        implies #[trigger] run_plan(sm, dm, plan).dom().contains(p) by {
        lemma_last_op_on_removes(c.removed, p);
        lemma_last_op_on_concat(head, remove_ops(c.removed), p);
        lemma_last_op_on_transfers(c.added, p);
        lemma_last_op_on_transfers(c.modified, p);
        lemma_last_op_on_concat(transfer_ops(c.added), transfer_ops(c.modified), p);
        lemma_last_op_on_concat(
            transfer_ops(c.added) + transfer_ops(c.modified),
            rename_ops(c.renamed),
            p,
        );
        assert forall|q: int| 0 <= q < c.renamed.len() implies (#[trigger] c.renamed[q]).1.path
            != p by {
            assert(!has_path(dest, c.renamed[q].1.path));
        }
        lemma_last_op_on_renames(c.renamed, p);
        match last_op_on(plan, p) {
            None => {
                lemma_run_plan_last_op(sm, dm, plan, p);
                assert(dm.dom().contains(p));
            },
            Some(op) => {
                assert(last_op_on(rename_ops(c.renamed), p) is None);
                assert(op is Transfer);
                lemma_run_plan_last_op(sm, dm, plan, p);
            },
        }
    }
}

} // verus!
