//! Detecting drift: partitions the configuration declares that the live
//! system no longer has.

use vstd::prelude::*;

use crate::models::Disk;
use crate::models::DiskView;
use crate::models::Partition;
use crate::models::PartitionView;
use crate::models::str_eq;

verus! {

/// Some partition of the live tree carries this stable identity path.
pub open spec fn live_has_identity(disks: Seq<DiskView>, id: Seq<char>) -> bool {
    exists|i: int, j: int|
        0 <= i < disks.len() && 0 <= j < disks[i].partitions.len()
            && (#[trigger] disks[i].partitions[j]).uuid_path == Some(id)
}

/// The configured partitions that are missing from the live tree, in input
/// order: those whose stable identity path no live partition carries.
/// Partitions with no identity path are never reported missing.
pub open spec fn missing_spec(
    configured: Seq<PartitionView>,
    disks: Seq<DiskView>,
) -> Seq<PartitionView> {
    configured.filter(
        |p: PartitionView| p.uuid_path is Some && !live_has_identity(disks, p.uuid_path->0),
    )
}

/// Whether any live partition carries the identity path `id`.
fn live_contains_identity(existing_disks: &[Disk], id: &str) -> (b: bool)
    ensures
        b == live_has_identity(existing_disks.deep_view(), id@),
{
    let ghost dv = existing_disks.deep_view();
    let mut i: usize = 0;
    while i < existing_disks.len()
        invariant
            i <= existing_disks.len(),
            dv == existing_disks.deep_view(),
            dv.len() == existing_disks.len(),
            forall|m: int, n: int|
                0 <= m < i && 0 <= n < dv[m].partitions.len()
                    ==> (#[trigger] dv[m].partitions[n]).uuid_path != Some(id@),
        decreases existing_disks.len() - i,
    {
        let d = &existing_disks[i];
        assert(d@ == dv[i as int]);
        let mut j: usize = 0;
        while j < d.partitions.len()
            invariant
                j <= d.partitions.len(),
                dv == existing_disks.deep_view(),
                d@ == dv[i as int],
                i < dv.len(),
                d.partitions.deep_view() == dv[i as int].partitions,
                forall|n: int|
                    0 <= n < j ==> (#[trigger] dv[i as int].partitions[n]).uuid_path != Some(id@),
            decreases d.partitions.len() - j,
        {
            let p = &d.partitions[j];
            assert(p@ == dv[i as int].partitions[j as int]);
            match &p.uuid_path {
                Some(u) => {
                    if str_eq(u.as_str(), id) {
                        proof {
                            assert(p@.uuid_path == Some(id@));
                            assert(0 <= (i as int) < dv.len());
                            assert(0 <= (j as int) < dv[i as int].partitions.len());
                            assert((dv[i as int].partitions[j as int]).uuid_path == Some(id@));
                            assert(live_has_identity(dv, id@));
                        }
                        return true;
                    }
                },
                None => {},
            }
            j = j + 1;
        }
        i = i + 1;
    }
    false
}

/// Returns every configured partition whose stable identity path is absent
/// from the live tree, preserving input order. A partition with no identity
/// path is never reported.
pub fn find_missing_partitions(
    configured_partitions: &[Partition],
    existing_disks: &[Disk],
) -> (r: Vec<Partition>)
    ensures
        r.deep_view() == missing_spec(
            configured_partitions.deep_view(),
            existing_disks.deep_view(),
        ),
{
    let ghost cv = configured_partitions.deep_view();
    let ghost dv = existing_disks.deep_view();
    let ghost pred = |p: PartitionView| p.uuid_path is Some && !live_has_identity(
        dv,
        p.uuid_path->0,
    );
    let mut out: Vec<Partition> = Vec::new();
    let mut i: usize = 0;
    assert(out.deep_view() =~= cv.take(0).filter(pred)) by {
        reveal(Seq::filter);
        assert(cv.take(0).len() == 0);
    }
    while i < configured_partitions.len()
        invariant
            i <= configured_partitions.len(),
            cv == configured_partitions.deep_view(),
            dv == existing_disks.deep_view(),
            cv.len() == configured_partitions.len(),
            pred == (|p: PartitionView| p.uuid_path is Some && !live_has_identity(
                dv,
                p.uuid_path->0,
            )),
            out.deep_view() == cv.take(i as int).filter(pred),
        decreases configured_partitions.len() - i,
    {
        let p = &configured_partitions[i];
        assert(p@ == cv[i as int]);
        let ghost before = out.deep_view();
        let is_missing = match &p.uuid_path {
            Some(u) => !live_contains_identity(existing_disks, u.as_str()),
            None => false,
        };
        assert(is_missing == pred(cv[i as int]));
        if is_missing {
            out.push(p.duplicate());
            assert(out.deep_view() =~= before.push(cv[i as int]));
        }
        proof {
            assert(cv.take(i + 1) =~= cv.take(i as int).push(cv[i as int]));
            cv.take(i as int).lemma_filter_push(cv[i as int], pred);
        }
        i = i + 1;
    }
    proof {
        assert(cv.take(cv.len() as int) =~= cv);
    }
    out
}

/// Some partition in `missing` has this canonical path.
pub open spec fn missing_has_path(missing: Seq<PartitionView>, path: Seq<char>) -> bool {
    exists|i: int| 0 <= i < missing.len() && (#[trigger] missing[i]).path == path
}

/// A disk with every partition whose path appears in `missing` removed.
pub open spec fn without_missing(d: DiskView, missing: Seq<PartitionView>) -> DiskView {
    DiskView {
        partitions: d.partitions.filter(|p: PartitionView| !missing_has_path(missing, p.path)),
        ..d
    }
}

/// Whether any partition in `missing` has the given canonical path.
fn missing_contains_path(missing: &[Partition], path: &str) -> (b: bool)
    ensures
        b == missing_has_path(missing.deep_view(), path@),
{
    let ghost mv = missing.deep_view();
    let mut i: usize = 0;
    while i < missing.len()
        invariant
            i <= missing.len(),
            mv == missing.deep_view(),
            mv.len() == missing.len(),
            forall|m: int| 0 <= m < i ==> (#[trigger] mv[m]).path != path@,
        decreases missing.len() - i,
    {
        let p = &missing[i];
        assert(p@ == mv[i as int]);
        if str_eq(p.path.as_str(), path) {
            assert(mv[i as int].path == path@);
            return true;
        }
        i = i + 1;
    }
    false
}

/// Removes from every disk the partitions whose canonical path appears in
/// `missing`: the explicit drift-removal operation.
pub fn remove_missing_partitions(disks: &mut Vec<Disk>, missing: &[Partition])
    ensures
        final (disks).deep_view() == old(disks).deep_view().map_values(
            |d: DiskView| without_missing(d, missing.deep_view()),
        ),
{
    let ghost dv = old(disks).deep_view();
    let ghost mv = missing.deep_view();
    let ghost pred = |p: PartitionView| !missing_has_path(mv, p.path);
    let n = disks.len();
    let mut i: usize = 0;
    while i < n
        invariant
            i <= n,
            mv == missing.deep_view(),
            pred == (|p: PartitionView| !missing_has_path(mv, p.path)),
            dv.len() == n,
            disks.deep_view().len() == n,
            forall|m: int| i <= m < n ==> disks.deep_view()[m] == dv[m],
            forall|m: int|
                0 <= m < i ==> disks.deep_view()[m] == without_missing(#[trigger] dv[m], mv),
        decreases n - i,
    {
        let d = &disks[i];
        assert(d@ == dv[i as int]);
        let ghost pv = dv[i as int].partitions;
        let mut kept: Vec<Partition> = Vec::new();
        let mut j: usize = 0;
        assert(kept.deep_view() =~= pv.take(0).filter(pred)) by {
            reveal(Seq::filter);
            assert(pv.take(0).len() == 0);
        }
        while j < d.partitions.len()
            invariant
                j <= d.partitions.len(),
                i < n,
                disks.deep_view().len() == n,
                d == &disks[i as int],
                d@ == dv[i as int],
                pv == dv[i as int].partitions,
                pv.len() == d.partitions.len(),
                mv == missing.deep_view(),
                pred == (|p: PartitionView| !missing_has_path(mv, p.path)),
                kept.deep_view() == pv.take(j as int).filter(pred),
            decreases d.partitions.len() - j,
        {
            let p = &d.partitions[j];
            assert(p@ == pv[j as int]);
            let ghost before = kept.deep_view();
            if !missing_contains_path(missing, p.path.as_str()) {
                kept.push(p.duplicate());
                assert(kept.deep_view() =~= before.push(pv[j as int]));
            }
            proof {
                assert(pv.take(j + 1) =~= pv.take(j as int).push(pv[j as int]));
                pv.take(j as int).lemma_filter_push(pv[j as int], pred);
            }
            j = j + 1;
        }
        assert(pv.take(pv.len() as int) =~= pv);
        let replacement = Disk { path: d.path.clone(), partitions: kept, size: d.size };
        assert(replacement@ == without_missing(dv[i as int], mv));
        disks[i] = replacement;
        i = i + 1;
    }
    proof {
        assert(disks.deep_view() =~= dv.map_values(|d: DiskView| without_missing(d, mv)));
    }
}

} // verus!
