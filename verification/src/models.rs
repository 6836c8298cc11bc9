//! In-memory model of the machine's storage: disks owning partitions.

use vstd::prelude::*;

verus! {

/// Abstract value of a [`Partition`]: every text field as a sequence of
/// characters.
pub struct PartitionView {
    pub path: Seq<char>,
    pub uuid_path: Option<Seq<char>>,
    pub mount_points: Seq<Seq<char>>,
    pub fs_type: Option<Seq<char>>,
    pub size: u64,
    pub label: Option<Seq<char>>,
}

impl PartitionView {
    /// A partition never lists the same mount point twice.
    pub open spec fn wf(self) -> bool {
        forall|i: int, j: int|
            0 <= i < j < self.mount_points.len() ==> self.mount_points[i] != self.mount_points[j]
    }
}

/// One addressable filesystem-bearing device.
///
/// `path` is the canonical (symlink-free) device path; `uuid_path` is the
/// stable identity path used to correlate configuration with live state, or
/// `None` when the device exposes no durable identity; `mount_points` keeps
/// insertion order and holds no duplicates.
#[derive(Debug, Clone)]
pub struct Partition {
    pub path: String,
    pub uuid_path: Option<String>,
    pub mount_points: Vec<String>,
    pub fs_type: Option<String>,
    pub size: u64,
    pub label: Option<String>,
}

impl View for Partition {
    type V = PartitionView;

    open spec fn view(&self) -> PartitionView {
        PartitionView {
            path: self.path@,
            uuid_path: self.uuid_path.deep_view(),
            mount_points: self.mount_points.deep_view(),
            fs_type: self.fs_type.deep_view(),
            size: self.size,
            label: self.label.deep_view(),
        }
    }
}

impl DeepView for Partition {
    type V = PartitionView;

    open spec fn deep_view(&self) -> PartitionView {
        self.view()
    }
}

impl Partition {
    pub fn new(
        path: String,
        uuid_path: Option<String>,
        mount_points: Vec<String>,
        fs_type: Option<String>,
        size: u64,
        label: Option<String>,
    ) -> (r: Self)
        requires
            forall|i: int, j: int|
                0 <= i < j < mount_points.deep_view().len() ==> mount_points.deep_view()[i]
                    != mount_points.deep_view()[j],
        ensures
            r@ == (PartitionView {
                path: path@,
                uuid_path: uuid_path.deep_view(),
                mount_points: mount_points.deep_view(),
                fs_type: fs_type.deep_view(),
                size: size,
                label: label.deep_view(),
            }),
            r@.wf(),
    {
        Self { path, uuid_path, mount_points, fs_type, size, label }
    }

    /// Copy of this partition whose abstract value is known to be equal.
    pub fn duplicate(&self) -> (r: Self)
        ensures
            r@ == self@,
    {
        let mut mount_points: Vec<String> = Vec::new();
        let mut i: usize = 0;
        while i < self.mount_points.len()
            invariant
                i <= self.mount_points.len(),
                mount_points.deep_view() == self.mount_points.deep_view().take(i as int),
            decreases self.mount_points.len() - i,
        {
            let ghost before = mount_points.deep_view();
            let elem = self.mount_points[i].clone();
            assert(elem.deep_view() == self.mount_points.deep_view()[i as int]);
            mount_points.push(elem);
            proof {
                assert(mount_points.deep_view() =~= before.push(
                    self.mount_points.deep_view()[i as int],
                ));
                assert(mount_points.deep_view() =~= self.mount_points.deep_view().take(i + 1));
            }
            i = i + 1;
        }
        assert(mount_points.deep_view() =~= self.mount_points.deep_view());
        let r = Self {
            path: self.path.clone(),
            uuid_path: clone_opt_string(&self.uuid_path),
            mount_points,
            fs_type: clone_opt_string(&self.fs_type),
            size: self.size,
            label: clone_opt_string(&self.label),
        };
        assert(r@ == self@);
        r
    }

    /// Adds a mount point; a mount point that is already present is left
    /// alone, so the no-duplicates invariant is preserved.
    pub fn add_mount_point(&mut self, mount_point: String)
        ensures
            old(self)@.mount_points.contains(mount_point@) ==> final (self)@ == old(self)@,
            !old(self)@.mount_points.contains(mount_point@) ==> final (self)@ == (PartitionView {
                mount_points: old(self)@.mount_points.push(mount_point@),
                ..old(self)@
            }),
            old(self)@.wf() ==> final (self)@.wf(),
    {
        let mut i: usize = 0;
        while i < self.mount_points.len()
            invariant
                i <= self.mount_points.len(),
                *self == *old(self),
                forall|k: int| 0 <= k < i ==> old(self)@.mount_points[k] != mount_point@,
            decreases self.mount_points.len() - i,
        {
            if self.mount_points[i] == mount_point {
                assert(old(self)@.mount_points[i as int] == mount_point@);
                assert(old(self)@.mount_points.contains(mount_point@));
                return ;
            }
            i = i + 1;
        }
        assert(!old(self)@.mount_points.contains(mount_point@));
        let ghost mp_view = mount_point@;
        self.mount_points.push(mount_point);
        proof {
            assert(self@.mount_points =~= old(self)@.mount_points.push(mp_view));
            assert(self@ == (PartitionView {
                mount_points: old(self)@.mount_points.push(mp_view),
                ..old(self)@
            }));
            if old(self)@.wf() {
                let mps = self@.mount_points;
                assert forall|a: int, b: int| 0 <= a < b < mps.len() implies mps[a] != mps[b] by {
                    if b == mps.len() - 1 {
                        assert(old(self)@.mount_points[a] == mps[a]);
                        assert(old(self)@.mount_points.contains(mps[a])) by {
                            assert(old(self)@.mount_points[a] == mps[a]);
                        }
                    }
                }
            }
        }
    }

    /// Removes every occurrence of the given mount point.
    pub fn remove_mount_point(&mut self, mount_point: &str)
        ensures
            final (self)@ == (PartitionView {
                mount_points: old(self)@.mount_points.filter(
                    |mp: Seq<char>| mp != mount_point@,
                ),
                ..old(self)@
            }),
            old(self)@.wf() ==> final (self)@.wf(),
    {
        let mut kept: Vec<String> = Vec::new();
        let mut i: usize = 0;
        while i < self.mount_points.len()
            invariant
                i <= self.mount_points.len(),
                *self == *old(self),
                kept.deep_view() == old(self)@.mount_points.take(i as int).filter(
                    |mp: Seq<char>| mp != mount_point@,
                ),
            decreases self.mount_points.len() - i,
        {
            let ghost prefix = old(self)@.mount_points.take(i as int);
            let ghost pred = |mp: Seq<char>| mp != mount_point@;
            let ghost elem = old(self)@.mount_points[i as int];
            if !str_eq(self.mount_points[i].as_str(), mount_point) {
                kept.push(self.mount_points[i].clone());
                assert(kept.deep_view() =~= prefix.filter(pred).push(elem));
            }
            proof {
                assert(old(self)@.mount_points.take(i + 1) =~= prefix.push(elem));
                prefix.lemma_filter_push(elem, pred);
            }
            i = i + 1;
        }
        assert(old(self)@.mount_points.take(i as int) =~= old(self)@.mount_points);
        self.mount_points = kept;
        proof {
            let pred = |mp: Seq<char>| mp != mount_point@;
            let filtered = old(self)@.mount_points.filter(pred);
            assert(self@ == (PartitionView { mount_points: filtered, ..old(self)@ }));
            if old(self)@.wf() {
                lemma_filter_preserves_distinct(old(self)@.mount_points, pred);
            }
        }
    }
}

/// Filtering a duplicate-free sequence leaves it duplicate-free.
proof fn lemma_filter_preserves_distinct<A>(s: Seq<A>, pred: spec_fn(A) -> bool)
    requires
        forall|i: int, j: int| 0 <= i < j < s.len() ==> s[i] != s[j],
    ensures
        forall|i: int, j: int|
            0 <= i < j < s.filter(pred).len() ==> s.filter(pred)[i] != s.filter(pred)[j],
    decreases s.len(),
{
    reveal(Seq::filter);
    if s.len() > 0 {
        let rest = s.drop_last();
        let last = s.last();
        lemma_filter_preserves_distinct(rest, pred);
        let f = s.filter(pred);
        let fr = rest.filter(pred);
        if pred(last) {
            assert(f == fr.push(last));
            assert forall|i: int, j: int| 0 <= i < j < f.len() implies f[i] != f[j] by {
                if j == f.len() - 1 {
                    assert(f[j] == last);
                    assert(fr.contains(f[i])) by {
                        assert(fr[i] == f[i]);
                    }
                    rest.lemma_filter_contains_rev(pred, f[i]);
                    let k = choose|k: int| 0 <= k < rest.len() && rest[k] == f[i];
                    assert(s[k] == f[i]);
                    assert(s[s.len() - 1] == last);
                }
            }
        }
    }
}

/// Character-for-character equality of two string slices.
pub fn str_eq(a: &str, b: &str) -> (r: bool)
    ensures
        r == (a@ == b@),
{
    let a_len = a.unicode_len();
    let b_len = b.unicode_len();
    if a_len != b_len {
        assert(a@ != b@);
        return false;
    }
    let mut i: usize = 0;
    while i < a_len
        invariant
            i <= a_len,
            a_len == a@.len(),
            b_len == b@.len(),
            a_len == b_len,
            forall|k: int| 0 <= k < i ==> a@[k] == b@[k],
        decreases a_len - i,
    {
        if a.get_char(i) != b.get_char(i) {
            assert(a@ != b@);
            return false;
        }
        i = i + 1;
    }
    assert(a@ =~= b@);
    true
}

/// Copy of an optional string whose abstract value is known to be equal.
pub fn clone_opt_string(o: &Option<String>) -> (r: Option<String>)
    ensures
        r.deep_view() == o.deep_view(),
{
    match o {
        Some(s) => Some(s.clone()),
        None => None,
    }
}

/// Abstract value of a [`Disk`].
pub struct DiskView {
    pub path: Seq<char>,
    pub partitions: Seq<PartitionView>,
    pub size: u64,
}

/// One physical block device and the partitions it owns.
#[derive(Debug, Clone)]
pub struct Disk {
    pub path: String,
    pub partitions: Vec<Partition>,
    pub size: u64,
}

impl View for Disk {
    type V = DiskView;

    open spec fn view(&self) -> DiskView {
        DiskView {
            path: self.path@,
            partitions: self.partitions.deep_view(),
            size: self.size,
        }
    }
}

impl DeepView for Disk {
    type V = DiskView;

    open spec fn deep_view(&self) -> DiskView {
        self.view()
    }
}

impl Disk {
    pub fn new(path: String, partitions: Vec<Partition>, size: u64) -> (r: Self)
        ensures
            r@ == (DiskView { path: path@, partitions: partitions.deep_view(), size: size }),
    {
        Self { path, partitions, size }
    }

    /// Copy of this disk whose abstract value is known to be equal.
    pub fn duplicate(&self) -> (r: Self)
        ensures
            r@ == self@,
    {
        let mut partitions: Vec<Partition> = Vec::new();
        let mut i: usize = 0;
        while i < self.partitions.len()
            invariant
                i <= self.partitions.len(),
                partitions.deep_view() == self.partitions.deep_view().take(i as int),
            decreases self.partitions.len() - i,
        {
            let ghost before = partitions.deep_view();
            let p = self.partitions[i].duplicate();
            assert(p@ == self.partitions.deep_view()[i as int]);
            partitions.push(p);
            proof {
                assert(partitions.deep_view() =~= before.push(
                    self.partitions.deep_view()[i as int],
                ));
                assert(partitions.deep_view() =~= self.partitions.deep_view().take(i + 1));
            }
            i = i + 1;
        }
        assert(partitions.deep_view() =~= self.partitions.deep_view());
        let r = Self { path: self.path.clone(), partitions, size: self.size };
        assert(r@ == self@);
        r
    }

    pub fn add_partition(&mut self, partition: Partition)
        ensures
            final (self)@ == (DiskView {
                partitions: old(self)@.partitions.push(partition@),
                ..old(self)@
            }),
    {
        self.partitions.push(partition);
        assert(self@.partitions =~= old(self)@.partitions.push(partition@));
    }
}

} // verus!
