//! Extracting filesystem declarations from configuration text and building
//! the partition index they describe.

use vstd::prelude::*;

use crate::models::Partition;
use crate::models::PartitionView;
use crate::scan::device_of;
use crate::scan::extract_device;
use crate::scan::extract_fs_type;
use crate::scan::extract_mount_point;
use crate::scan::fstype_of;
use crate::scan::key_of;
use crate::scan::lemma_scan_span_wf;
use crate::scan::locate_blocks;
use crate::scan::scan_spec;
use crate::scan::spans_view;
use crate::models::str_eq;

verus! {

/// A declaration block could not be parsed: its marker has no end delimiter,
/// or a required field (mount point or device) is missing. `offset` is the
/// character position of the block's marker.
#[derive(Debug, Clone, Copy, PartialEq, Eq, Structural)]
pub enum ParseError {
    MalformedDeclaration { offset: usize },
}

/// Abstract value of a [`Declaration`].
pub struct DeclarationView {
    pub mount_point: Seq<char>,
    pub device: Seq<char>,
    pub fs_type: Option<Seq<char>>,
    pub text: Seq<char>,
    pub offset: int,
}

/// One filesystem declaration extracted from configuration text: its
/// mount-point key, its device reference, its optional filesystem type, its
/// raw text, and the character offset of its marker.
#[derive(Debug, Clone)]
pub struct Declaration {
    pub mount_point: String,
    pub device: String,
    pub fs_type: Option<String>,
    pub text: String,
    pub offset: usize,
}

impl View for Declaration {
    type V = DeclarationView;

    open spec fn view(&self) -> DeclarationView {
        DeclarationView {
            mount_point: self.mount_point@,
            device: self.device@,
            fs_type: self.fs_type.deep_view(),
            text: self.text@,
            offset: self.offset as int,
        }
    }
}

impl DeepView for Declaration {
    type V = DeclarationView;

    open spec fn deep_view(&self) -> DeclarationView {
        self.view()
    }
}

/// The raw text of the block at span `sp` of `text`.
pub open spec fn block_at(text: Seq<char>, sp: (int, int)) -> Seq<char> {
    text.subrange(sp.0, sp.1)
}

/// A block parses when both its mount-point key and its device reference can
/// be read.
pub open spec fn block_parses(b: Seq<char>) -> bool {
    key_of(b) is Some && device_of(b) is Some
}

/// The declaration described by the block at span `sp`.
pub open spec fn decl_at(text: Seq<char>, sp: (int, int)) -> DeclarationView {
    let b = block_at(text, sp);
    DeclarationView {
        mount_point: key_of(b)->0,
        device: device_of(b)->0,
        fs_type: fstype_of(b),
        text: b,
        offset: sp.0,
    }
}

/// Every declaration of `text`, in text order.
pub open spec fn decls_spec(text: Seq<char>) -> Seq<DeclarationView> {
    scan_spec(text).0.map_values(|sp: (int, int)| decl_at(text, sp))
}

/// Extraction succeeds exactly when the scan runs to the end of the text and
/// every located block parses.
pub open spec fn extraction_ok(text: Seq<char>) -> bool {
    &&& scan_spec(text).1 is None
    &&& forall|k: int|
        0 <= k < scan_spec(text).0.len() ==> block_parses(
            block_at(text, #[trigger] scan_spec(text).0[k]),
        )
}

/// Extracts every filesystem declaration from configuration text.
///
/// Fails with `MalformedDeclaration` — naming the offending block's offset —
/// when a marker has no end delimiter, or when a block is missing its
/// mount-point key or its device reference; the offset names the first such
/// block.
pub fn extract_declarations(text: &str) -> (r: Result<Vec<Declaration>, ParseError>)
    ensures
        r is Ok <==> extraction_ok(text@),
        (r matches Ok(ds) ==> ds.deep_view() == decls_spec(text@)),
        (r matches Err(e) ==> ({
            let ParseError::MalformedDeclaration { offset } = e;
            ||| scan_spec(text@).1 == Some(offset as int)
            ||| (scan_spec(text@).1 is None && exists|k: int|
                0 <= k < scan_spec(text@).0.len() && (#[trigger] scan_spec(text@).0[k]).0
                    == offset as int && !block_parses(block_at(text@, scan_spec(text@).0[k]))
                && (forall|m: int|
                    0 <= m < k ==> block_parses(block_at(text@, #[trigger] scan_spec(text@).0[m]))))
        })),
{
    let text_len = text.unicode_len();
    let bs = locate_blocks(text);
    if let Some(u) = bs.unterminated {
        return Err(ParseError::MalformedDeclaration { offset: u });
    }
    let ghost spans = scan_spec(text@).0;
    let n = bs.spans.len();
    assert(spans.len() == n);
    let mut out: Vec<Declaration> = Vec::new();
    let mut i: usize = 0;
    assert(out.deep_view() =~= spans.take(0).map_values(|sp: (int, int)| decl_at(text@, sp)));
    while i < n
        invariant
            text_len == text@.len(),
            bs.matches(text@),
            bs.unterminated is None,
            spans == scan_spec(text@).0,
            spans.len() == n,
            n == bs.spans.len(),
            i <= n,
            out.deep_view() == spans.take(i as int).map_values(
                |sp: (int, int)| decl_at(text@, sp),
            ),
            forall|m: int| 0 <= m < i ==> block_parses(block_at(text@, #[trigger] spans[m])),
        decreases n - i,
    {
        let (s, e) = bs.spans[i];
        proof {
            assert(spans_view(bs.spans@)[i as int] == (s as int, e as int));
            assert(spans[i as int] == (s as int, e as int));
            lemma_scan_span_wf(text@, i as int);
        }
        let block = text.substring_char(s, e);
        let ghost bv = block_at(text@, (s as int, e as int));
        assert(block@ == bv);
        let mp = extract_mount_point(block);
        let dev = extract_device(block);
        match (mp, dev) {
            (Some(mp), Some(dev)) => {
                let fs = extract_fs_type(block);
                let decl = Declaration {
                    mount_point: mp,
                    device: dev,
                    fs_type: fs,
                    text: block.to_owned(),
                    offset: s,
                };
                assert(decl@ == decl_at(text@, (s as int, e as int)));
                let ghost before = out.deep_view();
                out.push(decl);
                proof {
                    assert(out.deep_view() =~= before.push(decl_at(text@, (s as int, e as int))));
                    assert(spans.take(i + 1) =~= spans.take(i as int).push(spans[i as int]));
                    assert(out.deep_view() =~= spans.take(i + 1).map_values(
                        |sp: (int, int)| decl_at(text@, sp),
                    ));
                }
            },
            _ => {
                assert(!block_parses(bv));
                return Err(ParseError::MalformedDeclaration { offset: s });
            },
        }
        i = i + 1;
    }
    proof {
        assert(spans.take(n as int) =~= spans);
    }
    Ok(out)
}

/// The canonical path that `dev` resolves to: the second component of the
/// first matching pair, or `dev` itself when no pair matches.
pub open spec fn resolve_spec(resolved: Seq<(Seq<char>, Seq<char>)>, dev: Seq<char>) -> Seq<char>
    decreases resolved.len(),
{
    if resolved.len() == 0 {
        dev
    } else if resolved[0].0 == dev {
        resolved[0].1
    } else {
        resolve_spec(resolved.drop_first(), dev)
    }
}

/// Looks `dev` up in the resolution table; falls back to `dev` itself.
pub fn resolve_device(resolved: &Vec<(String, String)>, dev: &str) -> (r: String)
    ensures
        r@ == resolve_spec(resolved.deep_view(), dev@),
{
    let ghost rv = resolved.deep_view();
    let mut i: usize = 0;
    assert(rv.skip(0) =~= rv);
    while i < resolved.len()
        invariant
            i <= resolved.len(),
            rv == resolved.deep_view(),
            rv.len() == resolved.len(),
            resolve_spec(rv, dev@) == resolve_spec(rv.skip(i as int), dev@),
        decreases resolved.len() - i,
    {
        let ghost rest = rv.skip(i as int);
        assert(rest[0] == rv[i as int]);
        assert(rest.drop_first() =~= rv.skip(i + 1));
        if str_eq(resolved[i].0.as_str(), dev) {
            assert(resolve_spec(rest, dev@) == rv[i as int].1);
            return resolved[i].1.clone();
        }
        i = i + 1;
    }
    assert(rv.skip(i as int).len() == 0);
    dev.to_owned()
}

/// First position in `ps` whose canonical path is `path`.
pub open spec fn path_index(ps: Seq<PartitionView>, path: Seq<char>) -> Option<int>
    decreases ps.len(),
{
    if ps.len() == 0 {
        None
    } else if ps[0].path == path {
        Some(0)
    } else {
        match path_index(ps.drop_first(), path) {
            Some(i) => Some(i + 1),
            None => None,
        }
    }
}

/// `path_index` is the first match.
pub proof fn lemma_path_index_first(ps: Seq<PartitionView>, path: Seq<char>)
    ensures
        match path_index(ps, path) {
            Some(i) => 0 <= i < ps.len() && ps[i].path == path && (forall|m: int|
                0 <= m < i ==> ps[m].path != path),
            None => forall|m: int| 0 <= m < ps.len() ==> ps[m].path != path,
        },
    decreases ps.len(),
{
    if ps.len() > 0 && ps[0].path != path {
        lemma_path_index_first(ps.drop_first(), path);
        assert(forall|m: int| 1 <= m < ps.len() ==> ps[m] == ps.drop_first()[m - 1]);
    }
}

/// A partition record with one more mount point, when it is new.
pub open spec fn with_mount_point(p: PartitionView, mp: Seq<char>) -> PartitionView {
    if p.mount_points.contains(mp) {
        p
    } else {
        PartitionView { mount_points: p.mount_points.push(mp), ..p }
    }
}

/// The fresh partition record a declaration creates: keyed by the canonical
/// path, with the declaration's device reference as its stable identity.
pub open spec fn fresh_partition(d: DeclarationView, canon: Seq<char>) -> PartitionView {
    PartitionView {
        path: canon,
        uuid_path: Some(d.device),
        mount_points: seq![d.mount_point],
        fs_type: d.fs_type,
        size: 0,
        label: None,
    }
}

/// Folds one declaration into the index: merge into the record with the same
/// canonical path, or append a fresh record.
pub open spec fn index_step(
    ps: Seq<PartitionView>,
    d: DeclarationView,
    resolved: Seq<(Seq<char>, Seq<char>)>,
) -> Seq<PartitionView> {
    let canon = resolve_spec(resolved, d.device);
    match path_index(ps, canon) {
        Some(i) => ps.update(i, with_mount_point(ps[i], d.mount_point)),
        None => ps.push(fresh_partition(d, canon)),
    }
}

/// Folds a sequence of declarations into an index, left to right.
pub open spec fn index_fold(
    acc: Seq<PartitionView>,
    decls: Seq<DeclarationView>,
    resolved: Seq<(Seq<char>, Seq<char>)>,
) -> Seq<PartitionView>
    decreases decls.len(),
{
    if decls.len() == 0 {
        acc
    } else {
        index_fold(index_step(acc, decls[0], resolved), decls.drop_first(), resolved)
    }
}

/// The partition index of a sequence of declarations.
pub open spec fn index_spec(
    decls: Seq<DeclarationView>,
    resolved: Seq<(Seq<char>, Seq<char>)>,
) -> Seq<PartitionView> {
    index_fold(Seq::empty(), decls, resolved)
}

/// Folding distributes over appending one declaration on the right.
proof fn lemma_index_fold_snoc(
    acc: Seq<PartitionView>,
    decls: Seq<DeclarationView>,
    d: DeclarationView,
    resolved: Seq<(Seq<char>, Seq<char>)>,
)
    ensures
        index_fold(acc, decls.push(d), resolved) == index_step(
            index_fold(acc, decls, resolved),
            d,
            resolved,
        ),
    decreases decls.len(),
{
    if decls.len() == 0 {
        assert(decls.push(d)[0] == d);
        assert(decls.push(d).drop_first() =~= Seq::<DeclarationView>::empty());
        assert(index_fold(
            index_step(acc, d, resolved),
            Seq::<DeclarationView>::empty(),
            resolved,
        ) == index_step(acc, d, resolved));
    } else {
        assert(decls.push(d)[0] == decls[0]);
        assert(decls.push(d).drop_first() =~= decls.drop_first().push(d));
        lemma_index_fold_snoc(index_step(acc, decls[0], resolved), decls.drop_first(), d, resolved);
    }
}

/// Some record of the index carries this mount point.
pub open spec fn index_has_mount_point(ps: Seq<PartitionView>, mp: Seq<char>) -> bool {
    exists|i: int| 0 <= i < ps.len() && (#[trigger] ps[i]).mount_points.contains(mp)
}

/// Some declaration carries this mount point as its key.
pub open spec fn decls_have_mount_point(decls: Seq<DeclarationView>, mp: Seq<char>) -> bool {
    exists|i: int| 0 <= i < decls.len() && (#[trigger] decls[i]).mount_point == mp
}

/// One fold step adds exactly the declaration's mount point to the index's
/// mount points.
proof fn lemma_index_step_mount_points(
    ps: Seq<PartitionView>,
    d: DeclarationView,
    resolved: Seq<(Seq<char>, Seq<char>)>,
    mp: Seq<char>,
)
    ensures
        index_has_mount_point(index_step(ps, d, resolved), mp) <==> (index_has_mount_point(ps, mp)
            || d.mount_point == mp),
{
    let canon = resolve_spec(resolved, d.device);
    lemma_path_index_first(ps, canon);
    match path_index(ps, canon) {
        Some(i) => {
            let merged = with_mount_point(ps[i], d.mount_point);
            let ps2 = ps.update(i, merged);
            assert(merged.mount_points.contains(mp) <==> (ps[i].mount_points.contains(mp)
                || d.mount_point == mp)) by {
                if !ps[i].mount_points.contains(d.mount_point) {
                    let pushed = ps[i].mount_points.push(d.mount_point);
                    assert(merged.mount_points == pushed);
                    if ps[i].mount_points.contains(mp) {
                        let w = choose|w: int|
                            0 <= w < ps[i].mount_points.len() && ps[i].mount_points[w] == mp;
                        assert(pushed[w] == mp);
                        assert(pushed.contains(mp));
                    }
                    if d.mount_point == mp {
                        assert(pushed[pushed.len() - 1] == mp);
                        assert(pushed.contains(mp));
                    }
                    if pushed.contains(mp) {
                        let w = choose|w: int| 0 <= w < pushed.len() && pushed[w] == mp;
                        if w < ps[i].mount_points.len() {
                            assert(ps[i].mount_points[w] == mp);
                            assert(ps[i].mount_points.contains(mp));
                        } else {
                            assert(d.mount_point == mp);
                        }
                    }
                } else {
                    if d.mount_point == mp {
                        assert(ps[i].mount_points.contains(mp));
                    }
                }
            }
            if index_has_mount_point(ps2, mp) {
                let w = choose|w: int|
                    0 <= w < ps2.len() && (#[trigger] ps2[w]).mount_points.contains(mp);
                if w == i {
                    assert(index_has_mount_point(ps, mp) || d.mount_point == mp) by {
                        if ps[i].mount_points.contains(mp) {
                            assert(index_has_mount_point(ps, mp));
                        }
                    }
                } else {
                    assert(ps[w] == ps2[w]);
                    assert(index_has_mount_point(ps, mp));
                }
            }
            if index_has_mount_point(ps, mp) {
                let w = choose|w: int|
                    0 <= w < ps.len() && (#[trigger] ps[w]).mount_points.contains(mp);
                if w == i {
                    assert(ps2[i].mount_points.contains(mp));
                } else {
                    assert(ps2[w] == ps[w]);
                }
                assert(index_has_mount_point(ps2, mp));
            }
            if d.mount_point == mp {
                assert(ps2[i].mount_points.contains(mp));
                assert(index_has_mount_point(ps2, mp));
            }
        },
        None => {
            let fresh = fresh_partition(d, canon);
            let ps2 = ps.push(fresh);
            assert(fresh.mount_points == seq![d.mount_point]);
            if index_has_mount_point(ps2, mp) {
                let w = choose|w: int|
                    0 <= w < ps2.len() && (#[trigger] ps2[w]).mount_points.contains(mp);
                if w < ps.len() {
                    assert(ps[w] == ps2[w]);
                    assert(index_has_mount_point(ps, mp));
                } else {
                    assert(seq![d.mount_point].contains(mp));
                    let v = choose|v: int| 0 <= v < 1 && seq![d.mount_point][v] == mp;
                    assert(d.mount_point == mp);
                }
            }
            if index_has_mount_point(ps, mp) {
                let w = choose|w: int|
                    0 <= w < ps.len() && (#[trigger] ps[w]).mount_points.contains(mp);
                assert(ps2[w] == ps[w]);
                assert(index_has_mount_point(ps2, mp));
            }
            if d.mount_point == mp {
                assert(seq![d.mount_point][0] == mp);
                assert(fresh.mount_points.contains(mp));
                assert(ps2[ps.len() as int] == fresh);
                assert(index_has_mount_point(ps2, mp));
            }
        },
    }
}

/// The mount points of the built index are exactly the keys of the
/// declarations it was built from.
pub proof fn lemma_index_spec_mount_points(
    decls: Seq<DeclarationView>,
    resolved: Seq<(Seq<char>, Seq<char>)>,
    mp: Seq<char>,
)
    ensures
        index_has_mount_point(index_spec(decls, resolved), mp) <==> decls_have_mount_point(
            decls,
            mp,
        ),
    decreases decls.len(),
{
    if decls.len() == 0 {
        assert(index_spec(decls, resolved) == Seq::<PartitionView>::empty());
    } else {
        let a = decls.drop_last();
        let d = decls.last();
        assert(a.push(d) =~= decls);
        lemma_index_fold_snoc(Seq::empty(), a, d, resolved);
        lemma_index_spec_mount_points(a, resolved, mp);
        lemma_index_step_mount_points(index_spec(a, resolved), d, resolved, mp);
        assert(decls_have_mount_point(decls, mp) <==> (decls_have_mount_point(a, mp)
            || d.mount_point == mp)) by {
            if decls_have_mount_point(a, mp) {
                let w = choose|w: int|
                    0 <= w < a.len() && (#[trigger] a[w]).mount_point == mp;
                assert(decls[w].mount_point == mp);
            }
            if d.mount_point == mp {
                assert(decls[decls.len() - 1].mount_point == mp);
            }
            if decls_have_mount_point(decls, mp) {
                let w = choose|w: int|
                    0 <= w < decls.len() && (#[trigger] decls[w]).mount_point == mp;
                if w < a.len() {
                    assert(a[w].mount_point == mp);
                }
            }
        }
    }
}

/// Every record of the built index satisfies the partition invariant: its
/// mount points hold no duplicates.
pub proof fn lemma_index_spec_wf(
    decls: Seq<DeclarationView>,
    resolved: Seq<(Seq<char>, Seq<char>)>,
)
    ensures
        forall|k: int|
            0 <= k < index_spec(decls, resolved).len() ==> (#[trigger] index_spec(
                decls,
                resolved,
            )[k]).wf(),
    decreases decls.len(),
{
    if decls.len() > 0 {
        let a = decls.drop_last();
        let d = decls.last();
        assert(a.push(d) =~= decls);
        lemma_index_fold_snoc(Seq::empty(), a, d, resolved);
        lemma_index_spec_wf(a, resolved);
        let ps = index_spec(a, resolved);
        let canon = resolve_spec(resolved, d.device);
        lemma_path_index_first(ps, canon);
        let ps2 = index_spec(decls, resolved);
        assert forall|k: int| 0 <= k < ps2.len() implies (#[trigger] ps2[k]).wf() by {
            match path_index(ps, canon) {
                Some(i) => {
                    if k == i {
                        assert(ps2[k] == with_mount_point(ps[i], d.mount_point));
                        assert(ps[i].wf());
                        if !ps[i].mount_points.contains(d.mount_point) {
                            let mps = ps2[k].mount_points;
                            assert forall|x: int, y: int|
                                0 <= x < y < mps.len() implies mps[x] != mps[y] by {
                                if y == mps.len() - 1 {
                                    assert(ps[i].mount_points[x] == mps[x]);
                                    assert(ps[i].mount_points.contains(mps[x])) by {
                                        assert(ps[i].mount_points[x] == mps[x]);
                                    }
                                }
                            }
                        }
                    } else {
                        assert(ps2[k] == ps[k]);
                    }
                },
                None => {
                    if k < ps.len() {
                        assert(ps2[k] == ps[k]);
                    } else {
                        assert(ps2[k] == fresh_partition(d, canon));
                        assert(ps2[k].mount_points.len() == 1);
                    }
                },
            }
        }
    }
}

/// Position of the record with the given canonical path, if any.
pub(crate) fn find_path_position(ps: &Vec<Partition>, canon: &str) -> (r: Option<usize>)
    ensures
        match r {
            Some(j) => j < ps@.len() && path_index(ps.deep_view(), canon@) == Some(j as int),
            None => path_index(ps.deep_view(), canon@) is None,
        },
{
    let ghost pv = ps.deep_view();
    let mut j: usize = 0;
    while j < ps.len()
        invariant
            j <= ps.len(),
            pv == ps.deep_view(),
            pv.len() == ps.len(),
            forall|m: int| 0 <= m < j ==> (#[trigger] pv[m]).path != canon@,
        decreases ps.len() - j,
    {
        if str_eq(ps[j].path.as_str(), canon) {
            proof {
                lemma_path_index_first(pv, canon@);
                assert(pv[j as int].path == canon@);
                if path_index(pv, canon@) is None {
                    assert(false);
                } else {
                    let i = path_index(pv, canon@)->0;
                    if i < j {
                        assert(pv[i].path == canon@);
                        assert(false);
                    }
                    if i > j {
                        assert(pv[j as int].path != canon@);
                        assert(false);
                    }
                }
            }
            return Some(j);
        }
        j = j + 1;
    }
    proof {
        lemma_path_index_first(pv, canon@);
        if path_index(pv, canon@) is Some {
            let i = path_index(pv, canon@)->0;
            assert(pv[i].path == canon@);
            assert(false);
        }
    }
    None
}

/// Builds the partition index from extracted declarations and a device
/// resolution table: mount points of declarations sharing one canonical path
/// accumulate, deduplicated, into one record.
pub fn build_partition_index(
    decls: &Vec<Declaration>,
    resolved: &Vec<(String, String)>,
) -> (r: Vec<Partition>)
    ensures
        r.deep_view() == index_spec(decls.deep_view(), resolved.deep_view()),
{
    let ghost dv = decls.deep_view();
    let ghost rv = resolved.deep_view();
    let mut ps: Vec<Partition> = Vec::new();
    let mut i: usize = 0;
    assert(ps.deep_view() =~= Seq::<PartitionView>::empty());
    assert(dv.take(0) =~= Seq::<DeclarationView>::empty());
    while i < decls.len()
        invariant
            i <= decls.len(),
            dv == decls.deep_view(),
            rv == resolved.deep_view(),
            dv.len() == decls.len(),
            ps.deep_view() == index_fold(Seq::empty(), dv.take(i as int), rv),
        decreases decls.len() - i,
    {
        let d = &decls[i];
        assert(d@ == dv[i as int]);
        let canon = resolve_device(resolved, d.device.as_str());
        let ghost before = ps.deep_view();
        if let Some(j) = find_path_position(&ps, canon.as_str()) {
            assert(path_index(before, canon@) == Some(j as int));
            proof {
                lemma_path_index_first(before, canon@);
            }
            let mut elem = ps[j].duplicate();
            elem.add_mount_point(d.mount_point.clone());
            assert(elem@ == with_mount_point(before[j as int], dv[i as int].mount_point));
            ps[j] = elem;
            assert(ps.deep_view() =~= before.update(
                j as int,
                with_mount_point(before[j as int], dv[i as int].mount_point),
            ));
        } else {
            let fresh = Partition {
                path: canon,
                uuid_path: Some(d.device.clone()),
                mount_points: vec![d.mount_point.clone()],
                fs_type: crate::models::clone_opt_string(&d.fs_type),
                size: 0,
                label: None,
            };
            assert(fresh@.mount_points =~= seq![dv[i as int].mount_point]);
            assert(fresh@ == fresh_partition(dv[i as int], resolve_spec(rv, dv[i as int].device)));
            ps.push(fresh);
            assert(ps.deep_view() =~= before.push(
                fresh_partition(dv[i as int], resolve_spec(rv, dv[i as int].device)),
            ));
        }
        proof {
            assert(dv.take(i + 1) =~= dv.take(i as int).push(dv[i as int]));
            lemma_index_fold_snoc(Seq::empty(), dv.take(i as int), dv[i as int], rv);
            assert(ps.deep_view() == index_step(before, dv[i as int], rv));
        }
        i = i + 1;
    }
    proof {
        assert(dv.take(dv.len() as int) =~= dv);
    }
    ps
}

/// Parses the filesystem declarations of a configuration text into partition
/// records, one per canonical device path.
///
/// `resolved` maps device references to canonical device paths (one level of
/// symlink indirection, supplied by the caller); references missing from the
/// table stand for themselves.
pub fn parse_nix_filesystems(
    nix_config: &str,
    resolved: &Vec<(String, String)>,
) -> (r: Result<Vec<Partition>, ParseError>)
    ensures
        r is Ok <==> extraction_ok(nix_config@),
        (r matches Ok(ps) ==> ps.deep_view() == index_spec(
            decls_spec(nix_config@),
            resolved.deep_view(),
        )),
{
    let decls = extract_declarations(nix_config)?;
    Ok(build_partition_index(&decls, resolved))
}

} // verus!
