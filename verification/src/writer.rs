//! Regenerating configuration text from the in-memory disk tree.
//!
//! Regeneration removes every located declaration block, keeps the text
//! around them, re-inserts the blocks whose mount point is critical for boot
//! verbatim, and emits a fresh block for every non-critical mount point of
//! the disk tree.

use vstd::prelude::*;

use crate::models::Disk;
use crate::models::DiskView;
use crate::models::PartitionView;
use crate::models::str_eq;
use crate::scan::BlockScan;
use crate::scan::device_key;
use crate::scan::fstype_key;
use crate::scan::key_of;
use crate::scan::lemma_scan_from_spans;
use crate::scan::lemma_scan_span_wf;
use crate::scan::locate_blocks;
use crate::scan::marker;
use crate::scan::scan_spec;
use crate::scan::extract_mount_point;
use crate::text::trim_end;
use crate::text::trim_end_spec;

verus! {

/// The critical mount points: required for the machine to boot, never
/// removed from the configuration and never regenerated from the disk tree.
pub open spec fn is_critical(mount_point: Seq<char>) -> bool {
    ||| mount_point == "/"@
    ||| mount_point == "/boot"@
    ||| mount_point == "/boot/efi"@
    ||| mount_point == "/nix"@
    ||| mount_point == "/nix/store"@
}

/// Whether a mount point is in the critical set.
pub fn is_critical_mount_point(mount_point: &str) -> (b: bool)
    ensures
        b == is_critical(mount_point@),
{
    str_eq(mount_point, "/") || str_eq(mount_point, "/boot") || str_eq(mount_point, "/boot/efi")
        || str_eq(mount_point, "/nix") || str_eq(mount_point, "/nix/store")
}

/// The `x-gvfs-show` option is left out for the root and boot mount points.
pub open spec fn hide_in_manager(mount_point: Seq<char>) -> bool {
    mount_point == "/"@ || mount_point == "/boot"@
}

/// The per-filesystem mount-option list, already rendered as the text of the
/// `options` field.
pub open spec fn options_for(fs_type: Seq<char>, mount_point: Seq<char>) -> Seq<char> {
    if fs_type == "btrfs"@ {
        if hide_in_manager(mount_point) {
            "[ \"defaults\" \"nofail\" \"compress=zstd\" ]"@
        } else {
            "[ \"defaults\" \"nofail\" \"x-gvfs-show\" \"compress=zstd\" ]"@
        }
    } else if fs_type == "ntfs"@ || fs_type == "ntfs3"@ {
        if hide_in_manager(mount_point) {
            "[ \"defaults\" \"nofail\" \"uid=1000\" \"gid=100\" \"umask=022\" ]"@
        } else {
            "[ \"defaults\" \"nofail\" \"x-gvfs-show\" \"uid=1000\" \"gid=100\" \"umask=022\" ]"@
        }
    } else {
        if hide_in_manager(mount_point) {
            "[ \"defaults\" \"nofail\" ]"@
        } else {
            "[ \"defaults\" \"nofail\" \"x-gvfs-show\" ]"@
        }
    }
}

/// Mount options for a filesystem type at a mount point.
pub fn get_filesystem_options(fs_type: &str, mount_point: &str) -> (r: String)
    ensures
        r@ == options_for(fs_type@, mount_point@),
{
    let hide = str_eq(mount_point, "/") || str_eq(mount_point, "/boot");
    if str_eq(fs_type, "btrfs") {
        if hide {
            "[ \"defaults\" \"nofail\" \"compress=zstd\" ]".to_owned()
        } else {
            "[ \"defaults\" \"nofail\" \"x-gvfs-show\" \"compress=zstd\" ]".to_owned()
        }
    } else if str_eq(fs_type, "ntfs") || str_eq(fs_type, "ntfs3") {
        if hide {
            "[ \"defaults\" \"nofail\" \"uid=1000\" \"gid=100\" \"umask=022\" ]".to_owned()
        } else {
            "[ \"defaults\" \"nofail\" \"x-gvfs-show\" \"uid=1000\" \"gid=100\" \"umask=022\" ]".to_owned()
        }
    } else {
        if hide {
            "[ \"defaults\" \"nofail\" ]".to_owned()
        } else {
            "[ \"defaults\" \"nofail\" \"x-gvfs-show\" ]".to_owned()
        }
    }
}

/// Separator written before each re-inserted or emitted block.
pub open spec fn sep() -> Seq<char> {
    seq!['\n', ' ', ' ']
}

/// `" = {` and the indentation before the device key.
pub open spec fn seg_key_close() -> Seq<char> {
    seq!['"', ' ', '=', ' ', '{', '\n', ' ', ' ', ' ', ' ']
}

/// `";` and the indentation before the filesystem-type key.
pub open spec fn seg_dev_close() -> Seq<char> {
    seq!['"', ';', '\n', ' ', ' ', ' ', ' ']
}

/// `";` and the `options = ` key.
pub open spec fn seg_fs_close() -> Seq<char> {
    seq!['"', ';', '\n', ' ', ' ', ' ', ' ', 'o', 'p', 't', 'i', 'o', 'n', 's', ' ', '=', ' ']
}

/// `;` and the block's closing `};`.
pub open spec fn seg_tail() -> Seq<char> {
    seq![';', '\n', ' ', ' ', '}', ';']
}

/// Closing text of the whole document.
pub open spec fn doc_tail() -> Seq<char> {
    seq!['\n', '\n', '}']
}

/// One freshly emitted declaration block for a mount point, device reference
/// and filesystem type.
#[verifier::opaque]
pub open spec fn block_of(mp: Seq<char>, dev: Seq<char>, fs: Seq<char>) -> Seq<char> {
    marker() + mp + seg_key_close() + device_key() + dev + seg_dev_close() + fstype_key() + fs
        + seg_fs_close() + options_for(fs, mp) + seg_tail()
}

/// The filesystem type a partition's block is emitted with.
pub open spec fn fs_of(p: PartitionView) -> Seq<char> {
    match p.fs_type {
        Some(f) => f,
        None => "auto"@,
    }
}

/// Blocks emitted for a partition's mount points, in insertion order:
/// nothing for a critical mount point.
pub open spec fn emitted_mps(mps: Seq<Seq<char>>, dev: Seq<char>, fs: Seq<char>) -> Seq<char>
    decreases mps.len(),
{
    if mps.len() == 0 {
        Seq::empty()
    } else {
        (if is_critical(mps[0]) {
            Seq::<char>::empty()
        } else {
            sep() + block_of(mps[0], dev, fs)
        }) + emitted_mps(mps.drop_first(), dev, fs)
    }
}

/// Blocks emitted for one partition: nothing when it has no stable identity
/// path to use as a device reference.
pub open spec fn emitted_partition(p: PartitionView) -> Seq<char> {
    match p.uuid_path {
        None => Seq::empty(),
        Some(dev) => emitted_mps(p.mount_points, dev, fs_of(p)),
    }
}

/// Blocks emitted for a sequence of partitions, in order.
pub open spec fn emitted_partitions(ps: Seq<PartitionView>) -> Seq<char>
    decreases ps.len(),
{
    if ps.len() == 0 {
        Seq::empty()
    } else {
        emitted_partition(ps[0]) + emitted_partitions(ps.drop_first())
    }
}

/// Blocks emitted for the whole disk tree: disk order, then partition order,
/// then mount-point insertion order.
pub open spec fn emitted_disks(ds: Seq<DiskView>) -> Seq<char>
    decreases ds.len(),
{
    if ds.len() == 0 {
        Seq::empty()
    } else {
        emitted_partitions(ds[0].partitions) + emitted_disks(ds.drop_first())
    }
}

/// The raw text of each located block of `text`, in text order.
pub open spec fn block_texts(text: Seq<char>) -> Seq<Seq<char>> {
    scan_spec(text).0.map_values(|sp: (int, int)| text.subrange(sp.0, sp.1))
}

/// A block is protected when its mount-point key can be read and is
/// critical.
pub open spec fn is_protected_block(b: Seq<char>) -> bool {
    match key_of(b) {
        Some(k) => is_critical(k),
        None => false,
    }
}

/// The protected blocks of `text`: located blocks whose mount point is
/// critical, kept verbatim.
pub open spec fn preserved_blocks(text: Seq<char>) -> Seq<Seq<char>> {
    block_texts(text).filter(|b: Seq<char>| is_protected_block(b))
}

/// Text that remains when every span in `spans` is deleted, starting the
/// walk at `pos`.
pub open spec fn gaps_from(text: Seq<char>, spans: Seq<(int, int)>, pos: int) -> Seq<char>
    decreases spans.len(),
{
    if spans.len() == 0 {
        text.subrange(pos, text.len() as int)
    } else {
        text.subrange(pos, spans[0].0) + gaps_from(text, spans.drop_first(), spans[0].1)
    }
}

/// The document with every located block deleted, trailing whitespace
/// trimmed, one trailing closing brace dropped, and the whitespace the
/// deleted blocks left behind trimmed as well; the brace is re-added after
/// the blocks are emitted.
pub open spec fn base_text(text: Seq<char>) -> Seq<char> {
    let g = trim_end_spec(gaps_from(text, scan_spec(text).0, 0));
    let p = if g.len() > 0 && g.last() == '}' {
        g.drop_last()
    } else {
        g
    };
    trim_end_spec(p)
}

/// Preserved blocks re-inserted, each after a separator.
pub open spec fn inserted_blocks(blocks: Seq<Seq<char>>) -> Seq<char>
    decreases blocks.len(),
{
    if blocks.len() == 0 {
        Seq::empty()
    } else {
        sep() + blocks[0] + inserted_blocks(blocks.drop_first())
    }
}

/// The whole regenerated document.
pub open spec fn regen_spec(text: Seq<char>, disks: Seq<DiskView>) -> Seq<char> {
    base_text(text) + inserted_blocks(preserved_blocks(text)) + emitted_disks(disks) + doc_tail()
}

/// Block location failed structurally: a declaration marker at this offset
/// has no end delimiter after it.
#[derive(Debug, Clone, Copy, PartialEq, Eq, Structural)]
pub struct GenerationError {
    pub offset: usize,
}

pub proof fn lemma_sep_lit()
    ensures
        "\n  "@ == sep(),
{
    reveal_strlit("\n  ");
    assert("\n  "@ =~= sep());
}

pub proof fn lemma_sep_marker_lit()
    ensures
        "\n  fileSystems.\""@ == sep() + marker(),
{
    reveal_strlit("\n  fileSystems.\"");
    assert("\n  fileSystems.\""@ =~= sep() + marker());
}

pub proof fn lemma_seg_key_close_lit()
    ensures
        "\" = {\n    device = \""@ == seg_key_close() + device_key(),
{
    reveal_strlit("\" = {\n    device = \"");
    assert("\" = {\n    device = \""@ =~= seg_key_close() + device_key());
}

pub proof fn lemma_seg_dev_close_lit()
    ensures
        "\";\n    fsType = \""@ == seg_dev_close() + fstype_key(),
{
    reveal_strlit("\";\n    fsType = \"");
    assert("\";\n    fsType = \""@ =~= seg_dev_close() + fstype_key());
}

pub proof fn lemma_seg_fs_close_lit()
    ensures
        "\";\n    options = "@ == seg_fs_close(),
{
    reveal_strlit("\";\n    options = ");
    assert("\";\n    options = "@ =~= seg_fs_close());
}

pub proof fn lemma_seg_tail_lit()
    ensures
        ";\n  };"@ == seg_tail(),
{
    reveal_strlit(";\n  };");
    assert(";\n  };"@ =~= seg_tail());
}

pub proof fn lemma_doc_tail_lit()
    ensures
        "\n\n}"@ == doc_tail(),
{
    reveal_strlit("\n\n}");
    assert("\n\n}"@ =~= doc_tail());
}

/// Emitting distributes over concatenation of mount-point sequences.
pub proof fn lemma_emitted_mps_concat(a: Seq<Seq<char>>, b: Seq<Seq<char>>, dev: Seq<char>, fs: Seq<char>)
    ensures
        emitted_mps(a + b, dev, fs) == emitted_mps(a, dev, fs) + emitted_mps(b, dev, fs),
    decreases a.len(),
{
    if a.len() == 0 {
        assert(a + b =~= b);
        assert(emitted_mps(a, dev, fs) + emitted_mps(b, dev, fs) =~= emitted_mps(b, dev, fs));
    } else {
        assert((a + b)[0] == a[0]);
        assert((a + b).len() > 0);
        assert((a + b).drop_first() =~= a.drop_first() + b);
        lemma_emitted_mps_concat(a.drop_first(), b, dev, fs);
        let head = if is_critical(a[0]) {
            Seq::<char>::empty()
        } else {
            sep() + block_of(a[0], dev, fs)
        };
        assert(emitted_mps(a + b, dev, fs) == head + (emitted_mps(a.drop_first(), dev, fs)
            + emitted_mps(b, dev, fs)));
        assert(head + (emitted_mps(a.drop_first(), dev, fs) + emitted_mps(b, dev, fs)) =~= (head
            + emitted_mps(a.drop_first(), dev, fs)) + emitted_mps(b, dev, fs));
    }
}

/// Emitting distributes over concatenation of partition sequences.
proof fn lemma_emitted_partitions_concat(a: Seq<PartitionView>, b: Seq<PartitionView>)
    ensures
        emitted_partitions(a + b) == emitted_partitions(a) + emitted_partitions(b),
    decreases a.len(),
{
    if a.len() == 0 {
        assert(a + b =~= b);
        assert(emitted_partitions(a) + emitted_partitions(b) =~= emitted_partitions(b));
    } else {
        assert((a + b)[0] == a[0]);
        assert((a + b).drop_first() =~= a.drop_first() + b);
        lemma_emitted_partitions_concat(a.drop_first(), b);
        assert(emitted_partition(a[0]) + (emitted_partitions(a.drop_first()) + emitted_partitions(
            b,
        )) =~= (emitted_partition(a[0]) + emitted_partitions(a.drop_first())) + emitted_partitions(
            b,
        ));
    }
}

/// Emitting distributes over concatenation of disk sequences.
proof fn lemma_emitted_disks_concat(a: Seq<DiskView>, b: Seq<DiskView>)
    ensures
        emitted_disks(a + b) == emitted_disks(a) + emitted_disks(b),
    decreases a.len(),
{
    if a.len() == 0 {
        assert(a + b =~= b);
        assert(emitted_disks(a) + emitted_disks(b) =~= emitted_disks(b));
    } else {
        assert((a + b)[0] == a[0]);
        assert((a + b).drop_first() =~= a.drop_first() + b);
        lemma_emitted_disks_concat(a.drop_first(), b);
        assert(emitted_partitions(a[0].partitions) + (emitted_disks(a.drop_first())
            + emitted_disks(b)) =~= (emitted_partitions(a[0].partitions) + emitted_disks(
            a.drop_first(),
        )) + emitted_disks(b));
    }
}

/// Insertion distributes over concatenation of block sequences.
pub proof fn lemma_inserted_blocks_concat(a: Seq<Seq<char>>, b: Seq<Seq<char>>)
    ensures
        inserted_blocks(a + b) == inserted_blocks(a) + inserted_blocks(b),
    decreases a.len(),
{
    if a.len() == 0 {
        assert(a + b =~= b);
        assert(inserted_blocks(a) + inserted_blocks(b) =~= inserted_blocks(b));
    } else {
        assert((a + b)[0] == a[0]);
        assert((a + b).drop_first() =~= a.drop_first() + b);
        lemma_inserted_blocks_concat(a.drop_first(), b);
        assert((sep() + a[0]) + (inserted_blocks(a.drop_first()) + inserted_blocks(b)) =~= ((sep()
            + a[0]) + inserted_blocks(a.drop_first())) + inserted_blocks(b));
    }
}

/// Appends one freshly emitted declaration block, after a separator.
fn emit_one_block(out: &mut String, mp: &str, dev: &str, fs: &str)
    ensures
        final (out)@ == old(out)@ + sep() + block_of(mp@, dev@, fs@),
{
    out.append("\n  fileSystems.\"");
    out.append(mp);
    out.append("\" = {\n    device = \"");
    out.append(dev);
    out.append("\";\n    fsType = \"");
    out.append(fs);
    out.append("\";\n    options = ");
    let opts = get_filesystem_options(fs, mp);
    out.append(opts.as_str());
    out.append(";\n  };");
    proof {
        reveal(block_of);
        lemma_sep_marker_lit();
        lemma_seg_key_close_lit();
        lemma_seg_dev_close_lit();
        lemma_seg_fs_close_lit();
        lemma_seg_tail_lit();
        assert(out@ =~= old(out)@ + sep() + block_of(mp@, dev@, fs@));
    }
}

/// Appends the blocks emitted for one partition.
fn emit_partition_blocks(out: &mut String, p: &crate::models::Partition)
    ensures
        final (out)@ == old(out)@ + emitted_partition(p@),
{
    match &p.uuid_path {
        None => {
            assert(old(out)@ + emitted_partition(p@) =~= old(out)@);
        },
        Some(dev) => {
            let fs: &str = match &p.fs_type {
                Some(f) => f.as_str(),
                None => "auto",
            };
            assert(fs@ == fs_of(p@));
            assert(dev@ == p@.uuid_path->0);
            let ghost mps = p@.mount_points;
            let mut j: usize = 0;
            assert(emitted_mps(mps.take(0), dev@, fs@) =~= Seq::<char>::empty()) by {
                assert(mps.take(0).len() == 0);
            }
            assert(old(out)@ + emitted_mps(mps.take(0), dev@, fs@) =~= old(out)@);
            while j < p.mount_points.len()
                invariant
                    j <= p.mount_points.len(),
                    mps == p@.mount_points,
                    mps.len() == p.mount_points.len(),
                    fs@ == fs_of(p@),
                    dev@ == p@.uuid_path->0,
                    p.uuid_path matches Some(d) && d@ == dev@,
                    out@ == old(out)@ + emitted_mps(mps.take(j as int), dev@, fs@),
                decreases p.mount_points.len() - j,
            {
                let mp = &p.mount_points[j];
                assert(mp@ == mps[j as int]);
                let ghost before = out@;
                if !is_critical_mount_point(mp.as_str()) {
                    emit_one_block(out, mp.as_str(), dev.as_str(), fs);
                }
                proof {
                    assert(mps.take(j + 1) =~= mps.take(j as int) + seq![mps[j as int]]);
                    lemma_emitted_mps_concat(mps.take(j as int), seq![mps[j as int]], dev@, fs@);
                    assert(seq![mps[j as int]].drop_first() =~= Seq::<Seq<char>>::empty());
                    assert(emitted_mps(Seq::<Seq<char>>::empty(), dev@, fs@) == Seq::<char>::empty());
                    if is_critical(mps[j as int]) {
                        assert(emitted_mps(seq![mps[j as int]], dev@, fs@) =~= Seq::<char>::empty());
                        assert(out@ =~= old(out)@ + emitted_mps(mps.take(j + 1), dev@, fs@));
                    } else {
                        assert(emitted_mps(seq![mps[j as int]], dev@, fs@) =~= sep() + block_of(
                            mps[j as int],
                            dev@,
                            fs@,
                        ));
                        assert(out@ =~= old(out)@ + emitted_mps(mps.take(j + 1), dev@, fs@));
                    }
                }
                j = j + 1;
            }
            proof {
                assert(mps.take(mps.len() as int) =~= mps);
                assert(emitted_partition(p@) == emitted_mps(mps, dev@, fs@));
            }
        },
    }
}

/// Appends the blocks emitted for the whole disk tree.
fn emit_disk_blocks(out: &mut String, disks: &[Disk])
    ensures
        final (out)@ == old(out)@ + emitted_disks(disks.deep_view()),
{
    let ghost ds = disks.deep_view();
    let n = disks.len();
    assert(ds.len() == n);
    let mut i: usize = 0;
    assert(old(out)@ + emitted_disks(ds.take(0)) =~= old(out)@) by {
        assert(ds.take(0).len() == 0);
    }
    while i < n
        invariant
            i <= n,
            ds == disks.deep_view(),
            ds.len() == n,
            n == disks@.len(),
            out@ == old(out)@ + emitted_disks(ds.take(i as int)),
        decreases n - i,
    {
        let d = &disks[i];
        assert(d@ == ds[i as int]);
        let ghost ps = d@.partitions;
        let m = d.partitions.len();
        let mut j: usize = 0;
        let ghost mid = out@;
        assert(mid + emitted_partitions(ps.take(0)) =~= mid) by {
            assert(ps.take(0).len() == 0);
        }
        while j < m
            invariant
                j <= m,
                ds == disks.deep_view(),
                ds.len() == n,
                n == disks@.len(),
                i < n,
                d == &disks[i as int],
                d@ == ds[i as int],
                ps == d@.partitions,
                ps.len() == m,
                m == d.partitions.len(),
                out@ == mid + emitted_partitions(ps.take(j as int)),
                mid == old(out)@ + emitted_disks(ds.take(i as int)),
            decreases m - j,
        {
            let p = &d.partitions[j];
            assert(p@ == ps[j as int]);
            emit_partition_blocks(out, p);
            proof {
                assert(ps.take(j + 1) =~= ps.take(j as int) + seq![ps[j as int]]);
                lemma_emitted_partitions_concat(ps.take(j as int), seq![ps[j as int]]);
                assert(seq![ps[j as int]].drop_first() =~= Seq::<PartitionView>::empty());
                assert(emitted_partitions(Seq::<PartitionView>::empty()) == Seq::<char>::empty());
                assert(emitted_partitions(seq![ps[j as int]]) =~= emitted_partition(ps[j as int])
                    + Seq::<char>::empty());
                assert(emitted_partition(ps[j as int]) + Seq::<char>::empty() =~= emitted_partition(
                    ps[j as int],
                ));
                assert(out@ =~= mid + emitted_partitions(ps.take(j + 1)));
            }
            j = j + 1;
        }
        proof {
            assert(ps.take(ps.len() as int) =~= ps);
            assert(ds.take(i + 1) =~= ds.take(i as int) + seq![ds[i as int]]);
            lemma_emitted_disks_concat(ds.take(i as int), seq![ds[i as int]]);
            assert(seq![ds[i as int]].drop_first() =~= Seq::<DiskView>::empty());
            assert(emitted_disks(Seq::<DiskView>::empty()) == Seq::<char>::empty());
            assert(emitted_disks(seq![ds[i as int]]) =~= emitted_partitions(ps) + Seq::<
                char,
            >::empty());
            assert(emitted_partitions(ps) + Seq::<char>::empty() =~= emitted_partitions(ps));
            assert(out@ =~= old(out)@ + emitted_disks(ds.take(i + 1)));
        }
        i = i + 1;
    }
    proof {
        assert(ds.take(ds.len() as int) =~= ds);
    }
}

/// Collects the protected blocks of `text`, verbatim.
fn collect_preserved(text: &str, bs: &BlockScan) -> (r: Vec<String>)
    requires
        bs.matches(text@),
    ensures
        r.deep_view() == preserved_blocks(text@),
{
    let text_len = text.unicode_len();
    proof {
        lemma_scan_from_spans(text@, 0);
    }
    let ghost bts = block_texts(text@);
    let mut out: Vec<String> = Vec::new();
    let mut i: usize = 0;
    assert(out.deep_view() =~= bts.take(0).filter(|b: Seq<char>| is_protected_block(b))) by {
        reveal(Seq::filter);
        assert(bts.take(0).len() == 0);
    }
    while i < bs.spans.len()
        invariant
            bs.matches(text@),
            text_len == text@.len(),
            i <= bs.spans.len(),
            bts == block_texts(text@),
            bts.len() == bs.spans.len(),
            out.deep_view() == bts.take(i as int).filter(|b: Seq<char>| is_protected_block(b)),
        decreases bs.spans.len() - i,
    {
        let (s, e) = bs.spans[i];
        proof {
            assert(crate::scan::spans_view(bs.spans@)[i as int] == (s as int, e as int));
            assert(scan_spec(text@).0[i as int] == (s as int, e as int));
            lemma_scan_span_wf(text@, i as int);
        }
        assert(s as int <= e as int <= text_len as int);
        let block = text.substring_char(s, e);
        let ghost bv = text@.subrange(s as int, e as int);
        assert(block@ == bv);
        assert(bts[i as int] == bv);
        let keep = match extract_mount_point(block) {
            Some(mp) => is_critical_mount_point(mp.as_str()),
            None => false,
        };
        assert(keep == is_protected_block(bv));
        let ghost before = out.deep_view();
        if keep {
            out.push(block.to_owned());
            assert(out.deep_view() =~= before.push(bv));
        }
        proof {
            assert(bts.take(i + 1) =~= bts.take(i as int).push(bv));
            bts.take(i as int).lemma_filter_push(bv, |b: Seq<char>| is_protected_block(b));
        }
        i = i + 1;
    }
    proof {
        assert(bts.take(bts.len() as int) =~= bts);
    }
    out
}

/// Deletes every located span from `text`.
fn remove_spans(text: &str, bs: &BlockScan) -> (r: String)
    requires
        bs.matches(text@),
    ensures
        r@ == gaps_from(text@, scan_spec(text@).0, 0),
{
    let text_len = text.unicode_len();
    proof {
        lemma_scan_from_spans(text@, 0);
    }
    let ghost spans = scan_spec(text@).0;
    let n = bs.spans.len();
    assert(spans.len() == n);
    let mut out = String::new();
    let mut pos: usize = 0;
    let mut i: usize = 0;
    assert(spans.skip(0) =~= spans);
    while i < n
        invariant
            bs.matches(text@),
            text_len == text@.len(),
            i <= n,
            spans == scan_spec(text@).0,
            spans.len() == n,
            n == bs.spans.len(),
            pos <= text_len,
            i < n ==> pos as int <= spans[i as int].0,
            out@ + gaps_from(text@, spans.skip(i as int), pos as int) == gaps_from(
                text@,
                spans,
                0,
            ),
        decreases n - i,
    {
        let (s, e) = bs.spans[i];
        proof {
            assert(crate::scan::spans_view(bs.spans@)[i as int] == (s as int, e as int));
            assert(spans[i as int] == (s as int, e as int));
            lemma_scan_span_wf(text@, i as int);
        }
        assert(pos <= s && s as int + 15 <= e as int && e <= text_len);
        let seg = text.substring_char(pos, s);
        let ghost before = out@;
        out.append(seg);
        proof {
            let rest = spans.skip(i as int);
            assert(rest[0] == (s as int, e as int));
            assert(rest.drop_first() =~= spans.skip(i + 1));
            assert(gaps_from(text@, rest, pos as int) == text@.subrange(pos as int, s as int)
                + gaps_from(text@, spans.skip(i + 1), e as int));
            assert(out@ + gaps_from(text@, spans.skip(i + 1), e as int) =~= before + gaps_from(
                text@,
                rest,
                pos as int,
            ));
            if i + 1 < n {
                assert(spans[i + 1] == rest[1]);
                assert(rest.drop_first()[0] == rest[1]);
                assert(e as int <= spans[i as int + 1].0);
            }
        }
        pos = e;
        i = i + 1;
    }
    let seg = text.substring_char(pos, text_len);
    let ghost before = out@;
    out.append(seg);
    proof {
        assert(spans.skip(n as int).len() == 0);
        assert(gaps_from(text@, spans.skip(n as int), pos as int) == text@.subrange(
            pos as int,
            text_len as int,
        ));
        assert(out@ =~= before + gaps_from(text@, spans.skip(n as int), pos as int));
    }
    out
}

/// Builds the document base: blocks removed, trailing whitespace trimmed,
/// one trailing closing brace dropped, and trimmed again.
fn build_base(text: &str, bs: &BlockScan) -> (r: String)
    requires
        bs.matches(text@),
    ensures
        r@ == base_text(text@),
{
    let gaps = remove_spans(text, bs);
    let trimmed = trim_end(gaps.as_str());
    let tlen = trimmed.as_str().unicode_len();
    let popped: String = if tlen > 0 && trimmed.as_str().get_char(tlen - 1) == '}' {
        let ghost g = trimmed@;
        let p = trimmed.as_str().substring_char(0, tlen - 1);
        assert(p@ =~= g.drop_last());
        p.to_owned()
    } else {
        trimmed
    };
    let r = trim_end(popped.as_str());
    r
}

/// Re-inserts preserved blocks, each after a separator.
fn insert_preserved(out: &mut String, blocks: &Vec<String>)
    ensures
        final (out)@ == old(out)@ + inserted_blocks(blocks.deep_view()),
{
    let ghost bls = blocks.deep_view();
    let n = blocks.len();
    assert(bls.len() == n);
    let mut i: usize = 0;
    assert(old(out)@ + inserted_blocks(bls.take(0)) =~= old(out)@) by {
        assert(bls.take(0).len() == 0);
    }
    while i < n
        invariant
            i <= n,
            bls == blocks.deep_view(),
            bls.len() == n,
            n == blocks@.len(),
            out@ == old(out)@ + inserted_blocks(bls.take(i as int)),
        decreases n - i,
    {
        let b = &blocks[i];
        assert(b@ == bls[i as int]);
        out.append("\n  ");
        out.append(b.as_str());
        proof {
            lemma_sep_lit();
            assert(bls.take(i + 1) =~= bls.take(i as int) + seq![bls[i as int]]);
            lemma_inserted_blocks_concat(bls.take(i as int), seq![bls[i as int]]);
            assert(seq![bls[i as int]].drop_first() =~= Seq::<Seq<char>>::empty());
            assert(inserted_blocks(Seq::<Seq<char>>::empty()) == Seq::<char>::empty());
            assert(inserted_blocks(seq![bls[i as int]]) =~= sep() + bls[i as int]);
            assert(out@ =~= old(out)@ + inserted_blocks(bls.take(i + 1)));
        }
        i = i + 1;
    }
    proof {
        assert(bls.take(bls.len() as int) =~= bls);
    }
}

/// Regenerates the configuration text from the disk tree.
///
/// Every located declaration block is removed; blocks with a critical mount
/// point are re-inserted verbatim; one fresh block is emitted for every
/// non-critical mount point of every partition that has a stable identity
/// path; the document's closing brace is re-appended. Fails only when block
/// location fails structurally: a marker with no end delimiter.
pub fn get_nix_disks_config(nix_config: &str, disks: &[Disk]) -> (r: Result<
    String,
    GenerationError,
>)
    ensures
        r is Ok <==> scan_spec(nix_config@).1 is None,
        (r matches Ok(out) ==> out@ == regen_spec(nix_config@, disks.deep_view())),
        (r matches Err(e) ==> scan_spec(nix_config@).1 == Some(e.offset as int)),
{
    let bs = locate_blocks(nix_config);
    if let Some(u) = bs.unterminated {
        return Err(GenerationError { offset: u });
    }
    let preserved = collect_preserved(nix_config, &bs);
    let mut out = build_base(nix_config, &bs);
    let ghost base = out@;
    insert_preserved(&mut out, &preserved);
    emit_disk_blocks(&mut out, disks);
    out.append("\n\n}");
    proof {
        lemma_doc_tail_lit();
        assert(out@ =~= regen_spec(nix_config@, disks.deep_view()));
    }
    Ok(out)
}

} // verus!
