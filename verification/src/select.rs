//! Deciding which partitions and disks an operator may manage: partitions
//! that carry a critical mount point or hold swap are never offered.

use vstd::prelude::*;

use crate::models::Disk;
use crate::models::Partition;
use crate::models::PartitionView;
use crate::writer::is_critical;
use crate::writer::is_critical_mount_point;

verus! {

/// Some mount point in the list is critical.
pub open spec fn any_critical(mount_points: Seq<Seq<char>>) -> bool {
    exists|i: int| 0 <= i < mount_points.len() && is_critical(#[trigger] mount_points[i])
}

/// Whether any of the given mount points is critical for boot.
pub fn has_critical_mount_point(mount_points: &[String]) -> (b: bool)
    ensures
        b == any_critical(mount_points.deep_view()),
{
    let ghost mv = mount_points.deep_view();
    let mut i: usize = 0;
    while i < mount_points.len()
        invariant
            i <= mount_points.len(),
            mv == mount_points.deep_view(),
            mv.len() == mount_points.len(),
            forall|k: int| 0 <= k < i ==> !is_critical(#[trigger] mv[k]),
        decreases mount_points.len() - i,
    {
        let mp = &mount_points[i];
        assert(mp@ == mv[i as int]);
        if is_critical_mount_point(mp.as_str()) {
            assert(is_critical(mv[i as int]));
            return true;
        }
        i = i + 1;
    }
    false
}

/// A partition the operator may not manage: it carries a critical mount
/// point, or it holds swap.
pub open spec fn partition_is_filtered(p: PartitionView) -> bool {
    any_critical(p.mount_points) || p.fs_type == Some("swap"@)
}

/// Whether a partition is kept out of the operator's reach.
pub fn should_filter_partition(partition: &Partition) -> (b: bool)
    ensures
        b == partition_is_filtered(partition@),
{
    if has_critical_mount_point(partition.mount_points.as_slice()) {
        return true;
    }
    match &partition.fs_type {
        Some(fs) => crate::models::str_eq(fs.as_str(), "swap"),
        None => false,
    }
}

/// A disk worth showing: it has no partitions at all, or at least one
/// partition the operator may manage.
pub open spec fn disk_is_visible(d: crate::models::DiskView) -> bool {
    d.partitions.len() == 0 || exists|i: int|
        0 <= i < d.partitions.len() && !partition_is_filtered(#[trigger] d.partitions[i])
}

/// How many of the given disks are worth showing.
pub open spec fn visible_count(ds: Seq<crate::models::DiskView>) -> int
    decreases ds.len(),
{
    if ds.len() == 0 {
        0
    } else {
        (if disk_is_visible(ds[0]) {
            1int
        } else {
            0int
        }) + visible_count(ds.drop_first())
    }
}

/// Whether one disk is worth showing.
fn disk_visible(d: &Disk) -> (b: bool)
    ensures
        b == disk_is_visible(d@),
{
    if d.partitions.len() == 0 {
        return true;
    }
    let ghost pv = d@.partitions;
    let mut i: usize = 0;
    while i < d.partitions.len()
        invariant
            i <= d.partitions.len(),
            pv == d@.partitions,
            pv.len() == d.partitions.len(),
            forall|k: int| 0 <= k < i ==> partition_is_filtered(#[trigger] pv[k]),
        decreases d.partitions.len() - i,
    {
        let p = &d.partitions[i];
        assert(p@ == pv[i as int]);
        if !should_filter_partition(p) {
            assert(!partition_is_filtered(pv[i as int]));
            return true;
        }
        i = i + 1;
    }
    false
}

/// Counts the disks worth showing.
pub fn count_visible_disks(disks: &[Disk]) -> (r: usize)
    ensures
        r as int == visible_count(disks.deep_view()),
{
    let ghost dv = disks.deep_view();
    let mut count: usize = 0;
    let mut i: usize = 0;
    assert(visible_count(dv.take(0)) == 0) by {
        assert(dv.take(0).len() == 0);
    }
    while i < disks.len()
        invariant
            i <= disks.len(),
            dv == disks.deep_view(),
            dv.len() == disks.len(),
            count <= i,
            count as int == visible_count(dv.take(i as int)),
        decreases disks.len() - i,
    {
        let d = &disks[i];
        assert(d@ == dv[i as int]);
        if disk_visible(d) {
            count = count + 1;
        }
        proof {
            assert(dv.take(i + 1) =~= dv.take(i as int).push(dv[i as int]));
            lemma_visible_count_snoc(dv.take(i as int), dv[i as int]);
        }
        i = i + 1;
    }
    proof {
        assert(dv.take(dv.len() as int) =~= dv);
    }
    count
}

/// Counting distributes over appending one disk.
proof fn lemma_visible_count_snoc(ds: Seq<crate::models::DiskView>, d: crate::models::DiskView)
    ensures
        visible_count(ds.push(d)) == visible_count(ds) + (if disk_is_visible(d) {
            1int
        } else {
            0int
        }),
    decreases ds.len(),
{
    if ds.len() == 0 {
        assert(ds.push(d)[0] == d);
        assert(ds.push(d).drop_first() =~= Seq::<crate::models::DiskView>::empty());
        assert(visible_count(Seq::<crate::models::DiskView>::empty()) == 0);
    } else {
        assert(ds.push(d)[0] == ds[0]);
        assert(ds.push(d).drop_first() =~= ds.drop_first().push(d));
        lemma_visible_count_snoc(ds.drop_first(), d);
    }
}

} // verus!
