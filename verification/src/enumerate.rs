//! Building the disk→partitions tree from the probed device listing and the
//! configuration-declared partition index.

use vstd::prelude::*;

use crate::models::Disk;
use crate::models::DiskView;
use crate::models::Partition;
use crate::models::PartitionView;
use crate::models::clone_opt_string;
use crate::models::str_eq;
use crate::parser::find_path_position;
use crate::parser::path_index;
use crate::probe::ProbedDevice;
use crate::probe::ProbedDeviceView;
use crate::text::is_prefix;
use crate::text::starts_with;

verus! {

/// First disk whose path is a proper prefix of `path`: the disk that owns
/// the device as a partition.
pub open spec fn parent_index(disks: Seq<DiskView>, path: Seq<char>) -> Option<int>
    decreases disks.len(),
{
    if disks.len() == 0 {
        None
    } else if is_prefix(path, disks[0].path) && path != disks[0].path {
        Some(0)
    } else {
        match parent_index(disks.drop_first(), path) {
            Some(i) => Some(i + 1),
            None => None,
        }
    }
}

/// `parent_index` is the first match.
pub proof fn lemma_parent_index_first(disks: Seq<DiskView>, path: Seq<char>)
    ensures
        match parent_index(disks, path) {
            Some(i) => 0 <= i < disks.len() && is_prefix(path, disks[i].path) && path
                != disks[i].path && (forall|m: int|
                0 <= m < i ==> !(is_prefix(path, disks[m].path) && path != disks[m].path)),
            None => forall|m: int|
                0 <= m < disks.len() ==> !(is_prefix(path, disks[m].path) && path
                    != disks[m].path),
        },
    decreases disks.len(),
{
    if disks.len() > 0 && !(is_prefix(path, disks[0].path) && path != disks[0].path) {
        lemma_parent_index_first(disks.drop_first(), path);
        assert(forall|m: int| 1 <= m < disks.len() ==> disks[m] == disks.drop_first()[m - 1]);
    }
}

/// A configuration-declared record enriched with what probing found: probed
/// metadata wins where present, the exact size is taken over, and the
/// record's mount points and identity are preserved.
pub open spec fn enriched(p: PartitionView, d: ProbedDeviceView) -> PartitionView {
    PartitionView {
        fs_type: if d.fs_type is Some {
            d.fs_type
        } else {
            p.fs_type
        },
        label: if d.label is Some {
            d.label
        } else {
            p.label
        },
        size: d.size,
        ..p
    }
}

/// The stable identity path built from a probed filesystem UUID.
pub open spec fn by_uuid_path(u: Seq<char>) -> Seq<char> {
    "/dev/disk/by-uuid/"@ + u
}

/// The partition record a probed device becomes: the configuration-declared
/// record for its path, enriched, when there is one; otherwise a fresh
/// record, identity-less when the probe reported no UUID.
pub open spec fn probed_partition(d: ProbedDeviceView, index: Seq<PartitionView>) -> PartitionView {
    match path_index(index, d.path) {
        Some(i) => enriched(index[i], d),
        None => PartitionView {
            path: d.path,
            uuid_path: match d.uuid {
                Some(u) => Some(by_uuid_path(u)),
                None => None,
            },
            mount_points: Seq::empty(),
            fs_type: d.fs_type,
            size: d.size,
            label: d.label,
        },
    }
}

/// Classifies one probed device: a partition of the first disk whose path is
/// a proper prefix of its path, else a new disk with no partitions.
pub open spec fn enum_step(
    disks: Seq<DiskView>,
    d: ProbedDeviceView,
    index: Seq<PartitionView>,
) -> Seq<DiskView> {
    match parent_index(disks, d.path) {
        Some(i) => disks.update(
            i,
            DiskView { partitions: disks[i].partitions.push(probed_partition(d, index)), ..disks[i] },
        ),
        None => disks.push(DiskView { path: d.path, partitions: Seq::empty(), size: d.size }),
    }
}

/// Folds the probed devices into a disk tree, in listing order.
pub open spec fn enum_fold(
    disks: Seq<DiskView>,
    devices: Seq<ProbedDeviceView>,
    index: Seq<PartitionView>,
) -> Seq<DiskView>
    decreases devices.len(),
{
    if devices.len() == 0 {
        disks
    } else {
        enum_fold(enum_step(disks, devices[0], index), devices.drop_first(), index)
    }
}

/// The disk tree of a probed device listing.
pub open spec fn enumerate_spec(
    devices: Seq<ProbedDeviceView>,
    index: Seq<PartitionView>,
) -> Seq<DiskView> {
    enum_fold(Seq::empty(), devices, index)
}

/// Folding distributes over appending one device on the right.
proof fn lemma_enum_fold_snoc(
    disks: Seq<DiskView>,
    devices: Seq<ProbedDeviceView>,
    d: ProbedDeviceView,
    index: Seq<PartitionView>,
)
    ensures
        enum_fold(disks, devices.push(d), index) == enum_step(
            enum_fold(disks, devices, index),
            d,
            index,
        ),
    decreases devices.len(),
{
    if devices.len() == 0 {
        assert(devices.push(d)[0] == d);
        assert(devices.push(d).drop_first() =~= Seq::<ProbedDeviceView>::empty());
        assert(enum_fold(enum_step(disks, d, index), Seq::<ProbedDeviceView>::empty(), index)
            == enum_step(disks, d, index));
    } else {
        assert(devices.push(d)[0] == devices[0]);
        assert(devices.push(d).drop_first() =~= devices.drop_first().push(d));
        lemma_enum_fold_snoc(enum_step(disks, devices[0], index), devices.drop_first(), d, index);
    }
}

/// Position of the first disk that owns `path` as a partition.
fn find_parent_position(disks: &Vec<Disk>, path: &str) -> (r: Option<usize>)
    ensures
        match r {
            Some(i) => i < disks@.len() && parent_index(disks.deep_view(), path@) == Some(
                i as int,
            ),
            None => parent_index(disks.deep_view(), path@) is None,
        },
{
    let ghost dv = disks.deep_view();
    let mut i: usize = 0;
    while i < disks.len()
        invariant
            i <= disks.len(),
            dv == disks.deep_view(),
            dv.len() == disks.len(),
            forall|m: int|
                0 <= m < i ==> !(is_prefix(path@, (#[trigger] dv[m]).path) && path@ != dv[m].path),
        decreases disks.len() - i,
    {
        let dp = disks[i].path.as_str();
        assert(dp@ == dv[i as int].path);
        if starts_with(path, dp) && !str_eq(path, dp) {
            proof {
                lemma_parent_index_first(dv, path@);
                if parent_index(dv, path@) is None {
                    assert(false);
                } else {
                    let k = parent_index(dv, path@)->0;
                    if k < i {
                        assert(is_prefix(path@, dv[k].path) && path@ != dv[k].path);
                        assert(false);
                    }
                    if k > i {
                        assert(!(is_prefix(path@, dv[i as int].path)
                            && path@ != dv[i as int].path));
                        assert(false);
                    }
                }
            }
            return Some(i);
        }
        i = i + 1;
    }
    proof {
        lemma_parent_index_first(dv, path@);
        if parent_index(dv, path@) is Some {
            let k = parent_index(dv, path@)->0;
            assert(is_prefix(path@, dv[k].path) && path@ != dv[k].path);
            assert(false);
        }
    }
    None
}

/// The partition record for one probed device.
fn build_probed_partition(d: &ProbedDevice, index: &Vec<Partition>) -> (r: Partition)
    ensures
        r@ == probed_partition(d@, index.deep_view()),
{
    match find_path_position(index, d.path.as_str()) {
        Some(j) => {
            let mut p = index[j].duplicate();
            assert(p@ == index.deep_view()[j as int]);
            p.size = d.size;
            if d.fs_type.is_some() {
                p.fs_type = clone_opt_string(&d.fs_type);
            }
            if d.label.is_some() {
                p.label = clone_opt_string(&d.label);
            }
            assert(p@ == enriched(index.deep_view()[j as int], d@));
            p
        },
        None => {
            let uuid_path: Option<String> = match &d.uuid {
                Some(u) => {
                    let mut s = String::new();
                    s.append("/dev/disk/by-uuid/");
                    s.append(u.as_str());
                    assert(s@ =~= by_uuid_path(u@));
                    Some(s)
                },
                None => None,
            };
            let r = Partition {
                path: d.path.clone(),
                uuid_path,
                mount_points: Vec::new(),
                fs_type: clone_opt_string(&d.fs_type),
                size: d.size,
                label: clone_opt_string(&d.label),
            };
            assert(r@.mount_points =~= Seq::<Seq<char>>::empty());
            assert(r@ == probed_partition(d@, index.deep_view()));
            r
        },
    }
}

/// Builds the disk tree: walks the probed devices in listing order, decides
/// disk-vs-partition membership by a path-prefix test against disks already
/// seen, merges configuration-declared records (preserving their mount
/// points), and starts a new disk for an entry with no parent.
///
/// The prefix test is order-sensitive: it relies on the listing naming a
/// disk before its partitions.
pub fn enumerate_disks(devices: &Vec<ProbedDevice>, index: &Vec<Partition>) -> (r: Vec<Disk>)
    ensures
        r.deep_view() == enumerate_spec(devices.deep_view(), index.deep_view()),
{
    let ghost devs = devices.deep_view();
    let ghost iv = index.deep_view();
    let mut disks: Vec<Disk> = Vec::new();
    let mut i: usize = 0;
    assert(disks.deep_view() =~= Seq::<DiskView>::empty());
    assert(devs.take(0) =~= Seq::<ProbedDeviceView>::empty());
    while i < devices.len()
        invariant
            i <= devices.len(),
            devs == devices.deep_view(),
            iv == index.deep_view(),
            devs.len() == devices.len(),
            disks.deep_view() == enum_fold(Seq::empty(), devs.take(i as int), iv),
        decreases devices.len() - i,
    {
        let d = &devices[i];
        assert(d@ == devs[i as int]);
        let ghost before = disks.deep_view();
        match find_parent_position(&disks, d.path.as_str()) {
            Some(pi) => {
                let part = build_probed_partition(d, index);
                let mut dsk = disks[pi].duplicate();
                assert(dsk@ == before[pi as int]);
                dsk.add_partition(part);
                disks[pi] = dsk;
                assert(disks.deep_view() =~= before.update(
                    pi as int,
                    DiskView {
                        partitions: before[pi as int].partitions.push(probed_partition(d@, iv)),
                        ..before[pi as int]
                    },
                ));
            },
            None => {
                let fresh = Disk::new(d.path.clone(), Vec::new(), d.size);
                assert(fresh@.partitions =~= Seq::<PartitionView>::empty());
                disks.push(fresh);
                assert(disks.deep_view() =~= before.push(
                    DiskView { path: d@.path, partitions: Seq::empty(), size: d@.size },
                ));
            },
        }
        proof {
            assert(devs.take(i + 1) =~= devs.take(i as int).push(devs[i as int]));
            lemma_enum_fold_snoc(Seq::empty(), devs.take(i as int), devs[i as int], iv);
            assert(disks.deep_view() == enum_step(before, devs[i as int], iv));
        }
        i = i + 1;
    }
    proof {
        assert(devs.take(devs.len() as int) =~= devs);
    }
    disks
}

/// The listing names every device after all of its ancestors: a device
/// whose path is a proper prefix of another's comes first.
pub open spec fn ancestor_first(devices: Seq<ProbedDeviceView>) -> bool {
    forall|i: int, j: int|
        0 <= i < devices.len() && 0 <= j < devices.len() && is_prefix(
            devices[j].path,
            #[trigger] devices[i].path,
        ) && devices[i].path != #[trigger] devices[j].path ==> i < j
}

/// No disk's path is a proper prefix of another disk's path: no disk is a
/// sub-path or partition of another disk in the same collection.
pub open spec fn disk_paths_unnested(disks: Seq<DiskView>) -> bool {
    forall|a: int, b: int|
        0 <= a < disks.len() && 0 <= b < disks.len() && is_prefix(
            disks[b].path,
            #[trigger] disks[a].path,
        ) && disks[a].path != #[trigger] disks[b].path ==> false
}

/// Classifying one device keeps every disk's path, and adds at most the
/// device's own path.
proof fn lemma_fold_unnested(
    acc: Seq<DiskView>,
    full: Seq<ProbedDeviceView>,
    t: int,
    index: Seq<PartitionView>,
)
    requires
        0 <= t <= full.len(),
        ancestor_first(full),
        disk_paths_unnested(acc),
        forall|a: int|
            0 <= a < acc.len() ==> exists|s: int|
                0 <= s < t && (#[trigger] acc[a]).path == full[s].path,
    ensures
        disk_paths_unnested(enum_fold(acc, full.skip(t), index)),
    decreases full.len() - t,
{
    if t == full.len() {
        assert(full.skip(t).len() == 0);
    } else {
        let d = full[t];
        assert(full.skip(t)[0] == d);
        let acc2 = enum_step(acc, d, index);
        lemma_parent_index_first(acc, d.path);
        match parent_index(acc, d.path) {
            Some(i) => {
                assert(acc2 == acc.update(
                    i,
                    DiskView {
                        partitions: acc[i].partitions.push(probed_partition(d, index)),
                        ..acc[i]
                    },
                ));
                assert(disk_paths_unnested(acc2)) by {
                    assert(forall|a: int| 0 <= a < acc2.len() ==> (#[trigger] acc2[a]).path
                        == acc[a].path);
                }
                assert(forall|a: int|
                    0 <= a < acc2.len() ==> exists|s: int|
                        0 <= s < t + 1 && (#[trigger] acc2[a]).path == full[s].path) by {
                    assert forall|a: int| 0 <= a < acc2.len() implies exists|s: int|
                        0 <= s < t + 1 && (#[trigger] acc2[a]).path == full[s].path by {
                        let s = choose|s: int| 0 <= s < t && acc[a].path == full[s].path;
                        assert(acc2[a].path == full[s].path);
                    }
                }
            },
            None => {
                let fresh = DiskView { path: d.path, partitions: Seq::empty(), size: d.size };
                assert(acc2 == acc.push(fresh));
                assert(disk_paths_unnested(acc2)) by {
                    assert forall|a: int, b: int|
                        0 <= a < acc2.len() && 0 <= b < acc2.len() && is_prefix(
                            acc2[b].path,
                            #[trigger] acc2[a].path,
                        ) && acc2[a].path != #[trigger] acc2[b].path implies false by {
                        if a < acc.len() && b < acc.len() {
                            assert(acc2[a] == acc[a]);
                            assert(acc2[b] == acc[b]);
                        } else if b == acc.len() && a < acc.len() {
                            // the new disk's path would be a proper prefix of an
                            // earlier disk's path: its device would then have come
                            // after that disk's device in the listing
                            assert(acc2[b].path == d.path);
                            assert(acc2[a] == acc[a]);
                            let s = choose|s: int| 0 <= s < t && acc[a].path == full[s].path;
                            assert(is_prefix(full[s].path, full[t].path));
                            assert(full[s].path != full[t].path);
                            assert(t < s);
                        } else if a == acc.len() && b < acc.len() {
                            // an earlier disk's path would be a proper prefix of
                            // the new one's: the new device would have been
                            // classified as its partition
                            assert(acc2[a].path == d.path);
                            assert(acc2[b] == acc[b]);
                            assert(is_prefix(d.path, acc[b].path) && d.path != acc[b].path);
                        }
                    }
                }
                assert(forall|a: int|
                    0 <= a < acc2.len() ==> exists|s: int|
                        0 <= s < t + 1 && (#[trigger] acc2[a]).path == full[s].path) by {
                    assert forall|a: int| 0 <= a < acc2.len() implies exists|s: int|
                        0 <= s < t + 1 && (#[trigger] acc2[a]).path == full[s].path by {
                        if a < acc.len() {
                            let s = choose|s: int| 0 <= s < t && acc[a].path == full[s].path;
                            assert(acc2[a].path == full[s].path);
                        } else {
                            assert(acc2[a].path == full[t].path);
                        }
                    }
                }
            },
        }
        assert(full.skip(t).drop_first() =~= full.skip(t + 1));
        lemma_fold_unnested(acc2, full, t + 1, index);
    }
}

/// The disk-collection invariant: when the listing names every device after
/// its ancestors — as the kernel listing does, a whole disk before its
/// partitions — no enumerated disk's path is a sub-path of another's.
pub proof fn law_disk_paths_unnested(devices: Seq<ProbedDeviceView>, index: Seq<PartitionView>)
    requires
        ancestor_first(devices),
    ensures
        disk_paths_unnested(enumerate_spec(devices, index)),
{
    assert(devices.skip(0) =~= devices);
    lemma_fold_unnested(Seq::empty(), devices, 0, index);
}

} // verus!
