//! The regeneration laws: protected blocks are preserved byte-identically,
//! regeneration is idempotent, and regenerated text re-extracts to exactly
//! the non-critical mount points of the disk tree.

use vstd::prelude::*;

use crate::models::DiskView;
use crate::models::PartitionView;
use crate::scan::device_key;
use crate::scan::device_of;
use crate::scan::end_delim;
use crate::scan::fstype_key;
use crate::scan::fstype_of;
use crate::scan::key_of;
use crate::scan::lemma_scan_span_wf;
use crate::scan::marker;
use crate::scan::quote;
use crate::scan::scan_from;
use crate::scan::scan_spec;
use crate::text::find_at;
use crate::text::is_prefix;
use crate::text::is_wsp;
use crate::text::lemma_find_at;
use crate::text::lemma_find_at_skip;
use crate::text::occurs_at;
use crate::text::trim_end_spec;
use crate::writer::base_text;
use crate::writer::block_of;
use crate::writer::block_texts;
use crate::writer::doc_tail;
use crate::writer::emitted_disks;
use crate::writer::fs_of;
use crate::writer::inserted_blocks;
use crate::writer::is_critical;
use crate::writer::options_for;
use crate::writer::preserved_blocks;
use crate::writer::regen_spec;
use crate::writer::seg_dev_close;
use crate::writer::seg_fs_close;
use crate::writer::seg_key_close;
use crate::writer::seg_tail;
use crate::writer::sep;

verus! {

/// A unit block as the scan sees it: it starts with the declaration marker
/// and its one end delimiter stands at its end.
pub open spec fn good_block(b: Seq<char>) -> bool {
    &&& b.len() >= marker().len() + 2
    &&& is_prefix(b, marker())
    &&& occurs_at(b, end_delim(), b.len() - 2)
    &&& (forall|j: int| 0 <= j < b.len() - 2 ==> !occurs_at(b, end_delim(), j))
}

/// Text that can stand inside an emitted block without disturbing the scan:
/// free of quotes and closing braces.
pub open spec fn text_clean(s: Seq<char>) -> bool {
    forall|i: int| 0 <= i < s.len() ==> #[trigger] s[i] != '"' && s[i] != '}'
}

/// An occurrence starts with the pattern's first character.
proof fn lemma_occurs_head(text: Seq<char>, pat: Seq<char>, j: int, k: int)
    requires
        occurs_at(text, pat, j),
        0 <= k < pat.len(),
    ensures
        text[j + k] == pat[k],
{
    assert(text.subrange(j, j + pat.len())[k] == text[j + k]);
}

/// Every located block of a text is a good block.
proof fn lemma_located_blocks_good(text: Seq<char>, k: int)
    requires
        0 <= k < block_texts(text).len(),
    ensures
        good_block(block_texts(text)[k]),
{
    lemma_scan_span_wf(text, k);
    let span = scan_spec(text).0[k];
    let b = text.subrange(span.0, span.1);
    assert(block_texts(text)[k] == b);
    assert(b.subrange(0, marker().len() as int) =~= text.subrange(
        span.0,
        span.0 + marker().len(),
    ));
    assert(b.subrange(b.len() - 2, b.len() as int) =~= text.subrange(span.1 - 2, span.1));
    assert(occurs_at(b, end_delim(), b.len() - 2));
    assert forall|j: int| 0 <= j < b.len() - 2 implies !occurs_at(b, end_delim(), j) by {
        if occurs_at(b, end_delim(), j) {
            assert(b.subrange(j, j + 2) =~= text.subrange(span.0 + j, span.0 + j + 2));
            assert(occurs_at(text, end_delim(), span.0 + j));
        }
    }
}

/// The spans the scan assigns to a run of separated unit blocks starting at
/// `pos`.
pub open spec fn unit_spans(blocks: Seq<Seq<char>>, pos: int) -> Seq<(int, int)>
    decreases blocks.len(),
{
    if blocks.len() == 0 {
        Seq::empty()
    } else {
        let s = pos + sep().len();
        let e = s + blocks[0].len();
        seq![(s, e)] + unit_spans(blocks.drop_first(), e)
    }
}

/// A scan span for every block.
proof fn lemma_unit_spans_len(blocks: Seq<Seq<char>>, pos: int)
    ensures
        unit_spans(blocks, pos).len() == blocks.len(),
    decreases blocks.len(),
{
    if blocks.len() > 0 {
        lemma_unit_spans_len(blocks.drop_first(), pos + sep().len() + blocks[0].len());
    }
}

/// `n` separators in a row.
pub open spec fn seps(n: int) -> Seq<char>
    decreases n,
{
    if n <= 0 {
        Seq::empty()
    } else {
        sep() + seps(n - 1)
    }
}

/// All characters of `seps(n)` are whitespace.
proof fn lemma_seps_wsp(n: int)
    ensures
        forall|i: int| 0 <= i < seps(n).len() ==> is_wsp(#[trigger] seps(n)[i]),
    decreases n,
{
    if n > 0 {
        lemma_seps_wsp(n - 1);
        assert forall|i: int| 0 <= i < seps(n).len() implies is_wsp(#[trigger] seps(n)[i]) by {
            if i < sep().len() {
                assert(seps(n)[i] == sep()[i]);
            } else {
                assert(seps(n)[i] == seps(n - 1)[i - sep().len()]);
            }
        }
    }
}

/// Scanning a text whose tail from `pos` is a run of separated good blocks
/// followed by the document tail: every block gets its own span, verbatim,
/// the scan runs to the end, and deleting the spans leaves the separators
/// and the tail.
proof fn lemma_scan_units(text: Seq<char>, pos: int, blocks: Seq<Seq<char>>)
    requires
        0 <= pos <= text.len(),
        text.skip(pos) == inserted_blocks(blocks) + doc_tail(),
        forall|k: int| 0 <= k < blocks.len() ==> good_block(#[trigger] blocks[k]),
    ensures
        scan_from(text, pos) == (unit_spans(blocks, pos), None::<int>),
        forall|k: int|
            0 <= k < blocks.len() ==> text.subrange(
                (#[trigger] unit_spans(blocks, pos)[k]).0,
                unit_spans(blocks, pos)[k].1,
            ) == blocks[k],
        crate::writer::gaps_from(text, unit_spans(blocks, pos), pos) == seps(blocks.len() as int)
            + doc_tail(),
    decreases blocks.len(),
{
    let tail = text.skip(pos);
    if blocks.len() == 0 {
        assert(tail =~= doc_tail());
        assert(text.len() == pos + 3);
        assert forall|j: int| pos <= j implies !occurs_at(text, marker(), j) by {
            if occurs_at(text, marker(), j) {
                assert(j + marker().len() <= text.len());
            }
        }
        lemma_find_at_from_none(text, marker(), pos);
        assert(scan_from(text, pos) == (Seq::<(int, int)>::empty(), None::<int>));
        assert(unit_spans(blocks, pos) =~= Seq::<(int, int)>::empty());
        assert(crate::writer::gaps_from(text, unit_spans(blocks, pos), pos) == text.subrange(
            pos,
            text.len() as int,
        ));
        assert(text.subrange(pos, text.len() as int) =~= doc_tail());
        assert(seps(0) + doc_tail() =~= doc_tail());
    } else {
        let b = blocks[0];
        let rest = blocks.drop_first();
        let s = pos + 3;
        let e = s + b.len();
        assert(inserted_blocks(blocks) == sep() + b + inserted_blocks(rest));
        assert(e <= text.len()) by {
            assert(tail.len() == inserted_blocks(blocks).len() + 3);
        }
        // the marker occurs at s and nowhere earlier at or after pos
        assert(occurs_at(text, marker(), s)) by {
            assert forall|i: int| 0 <= i < marker().len() implies text[s + i] == marker()[i] by {
                assert(text[s + i] == text.skip(pos)[3 + i]);
                assert((inserted_blocks(blocks) + doc_tail())[3 + i] == inserted_blocks(
                    blocks,
                )[3 + i]);
                assert(inserted_blocks(blocks)[3 + i] == (sep() + b)[3 + i]);
                assert((sep() + b)[3 + i] == b[i]);
                assert(b.subrange(0, marker().len() as int)[i] == b[i]);
            }
            assert(text.subrange(s, s + marker().len()) =~= marker());
        }
        assert forall|j: int| pos <= j < s implies !occurs_at(text, marker(), j) by {
            if occurs_at(text, marker(), j) {
                lemma_occurs_head(text, marker(), j, 0);
                assert(text[j] == 'f');
                assert(text[j] == sep()[j - pos]);
            }
        }
        assert(find_at(text, marker(), pos) == Some(s)) by {
            lemma_find_at_skip(text, marker(), pos, s);
            lemma_find_at(text, marker(), s);
            match find_at(text, marker(), s) {
                Some(m) => {
                    if m > s {
                        assert(!occurs_at(text, marker(), s));
                    }
                },
                None => {
                    assert(!occurs_at(text, marker(), s));
                },
            }
        }
        // the end delimiter first occurs at e - 2
        assert(occurs_at(text, end_delim(), e - 2)) by {
            assert forall|i: int| 0 <= i < 2 implies text[e - 2 + i] == end_delim()[i] by {
                let m = 3 + b.len() - 2 + i;
                assert(text[e - 2 + i] == text.skip(pos)[m]);
                assert((inserted_blocks(blocks) + doc_tail())[m] == inserted_blocks(blocks)[m]);
                assert(inserted_blocks(blocks)[m] == (sep() + b)[m]);
                assert((sep() + b)[m] == b[b.len() - 2 + i]);
                assert(b.subrange(b.len() - 2, b.len() as int)[i] == b[b.len() - 2 + i]);
            }
            assert(text.subrange(e - 2, e) =~= end_delim());
        }
        assert forall|j: int| s <= j < e - 2 implies !occurs_at(text, end_delim(), j) by {
            if occurs_at(text, end_delim(), j) {
                assert(text[j] == b[j - s]) by {
                    assert(text[j] == text.skip(pos)[j - pos]);
                    assert((inserted_blocks(blocks) + doc_tail())[j - pos] == inserted_blocks(
                        blocks,
                    )[j - pos]);
                    assert(inserted_blocks(blocks)[j - pos] == (sep() + b)[j - pos]);
                }
                assert(text[j + 1] == b[j - s + 1]) by {
                    assert(text[j + 1] == text.skip(pos)[j + 1 - pos]);
                    assert((inserted_blocks(blocks) + doc_tail())[j + 1 - pos]
                        == inserted_blocks(blocks)[j + 1 - pos]);
                    assert(inserted_blocks(blocks)[j + 1 - pos] == (sep() + b)[j + 1 - pos]);
                }
                assert(text.subrange(j, j + 2)[0] == text[j]);
                assert(text.subrange(j, j + 2)[1] == text[j + 1]);
                assert(b.subrange(j - s, j - s + 2)[0] == b[j - s]);
                assert(b.subrange(j - s, j - s + 2)[1] == b[j - s + 1]);
                assert(text.subrange(j, j + 2) =~= b.subrange(j - s, j - s + 2));
                assert(occurs_at(b, end_delim(), j - s));
            }
        }
        assert(find_at(text, end_delim(), s) == Some(e - 2)) by {
            lemma_find_at_skip(text, end_delim(), s, e - 2);
            lemma_find_at(text, end_delim(), e - 2);
            match find_at(text, end_delim(), e - 2) {
                Some(c) => {
                    if c > e - 2 {
                        assert(!occurs_at(text, end_delim(), e - 2));
                    }
                },
                None => {
                    assert(!occurs_at(text, end_delim(), e - 2));
                },
            }
        }
        // recurse on the remaining blocks
        assert(text.skip(pos).len() == (inserted_blocks(blocks) + doc_tail()).len());
        assert forall|i: int|
            0 <= i < text.len() - e implies text.skip(e)[i] == (inserted_blocks(rest)
            + doc_tail())[i] by {
            let m = e - pos + i;
            assert(0 <= m < (inserted_blocks(blocks) + doc_tail()).len());
            assert(text.skip(e)[i] == text[e + i]);
            assert(text[e + i] == text.skip(pos)[m]);
            assert(text.skip(pos)[m] == (inserted_blocks(blocks) + doc_tail())[m]);
            if i < inserted_blocks(rest).len() {
                assert((inserted_blocks(blocks) + doc_tail())[m] == inserted_blocks(blocks)[m]);
                assert(inserted_blocks(blocks)[m] == inserted_blocks(rest)[i]);
            } else {
                assert(inserted_blocks(blocks).len() == 3 + b.len() + inserted_blocks(
                    rest,
                ).len());
                assert((inserted_blocks(blocks) + doc_tail())[m] == doc_tail()[i
                    - inserted_blocks(rest).len()]);
            }
        }
        assert(text.skip(e).len() == (inserted_blocks(rest) + doc_tail()).len()) by {
            assert(text.skip(e).len() == text.len() - e);
            assert(text.skip(pos).len() == text.len() - pos);
            assert(text.len() - pos == inserted_blocks(blocks).len() + 3);
            assert(inserted_blocks(blocks).len() == 3 + b.len() + inserted_blocks(rest).len());
        }
        assert(text.skip(e) =~= inserted_blocks(rest) + doc_tail());
        lemma_scan_units(text, e, rest);
        assert(scan_from(text, pos) == (seq![(s, e)] + unit_spans(rest, e), None::<int>));
        assert(unit_spans(blocks, pos) =~= seq![(s, e)] + unit_spans(rest, e));
        // verbatim spans
        assert forall|k: int| 0 <= k < blocks.len() implies text.subrange(
            (#[trigger] unit_spans(blocks, pos)[k]).0,
            unit_spans(blocks, pos)[k].1,
        ) == blocks[k] by {
            lemma_unit_spans_len(rest, e);
            if k == 0 {
                assert(unit_spans(blocks, pos)[0] == (s, e));
                assert forall|i: int|
                    0 <= i < b.len() implies #[trigger] text.subrange(s, e)[i] == b[i] by {
                    assert(text.subrange(s, e)[i] == text[s + i]);
                    assert(text[s + i] == text.skip(pos)[3 + i]);
                    assert((inserted_blocks(blocks) + doc_tail())[3 + i] == inserted_blocks(
                        blocks,
                    )[3 + i]);
                    assert(inserted_blocks(blocks)[3 + i] == (sep() + b)[3 + i]);
                }
                assert(text.subrange(s, e) =~= b);
            } else {
                assert(unit_spans(blocks, pos)[k] == unit_spans(rest, e)[k - 1]);
                assert(blocks[k] == rest[k - 1]);
            }
        }
        // gaps
        assert(crate::writer::gaps_from(text, unit_spans(blocks, pos), pos) == text.subrange(
            pos,
            s,
        ) + crate::writer::gaps_from(text, unit_spans(rest, e), e)) by {
            assert(unit_spans(blocks, pos)[0] == (s, e));
            assert(unit_spans(blocks, pos).drop_first() =~= unit_spans(rest, e));
        }
        assert(text.subrange(pos, s) =~= sep());
        assert(seps(blocks.len() as int) == sep() + seps(rest.len() as int));
        assert(sep() + (seps(rest.len() as int) + doc_tail()) =~= (sep() + seps(
            rest.len() as int,
        )) + doc_tail());
    }
}

/// A subrange of the right part of a concatenation, shifted.
proof fn lemma_contains_sub_left(x: Seq<char>, y: Seq<char>, off: int, blk: Seq<char>)
    requires
        0 <= off,
        off + blk.len() <= y.len(),
        y.subrange(off, off + blk.len()) == blk,
    ensures
        (x + y).subrange(x.len() + off, x.len() + off + blk.len()) == blk,
{
    assert forall|i: int|
        0 <= i < blk.len() implies #[trigger] (x + y).subrange(
        x.len() + off,
        x.len() + off + blk.len(),
    )[i] == blk[i] by {
        assert((x + y)[x.len() + off + i] == y[off + i]);
        assert(y.subrange(off, off + blk.len())[i] == y[off + i]);
    }
    assert((x + y).subrange(x.len() + off, x.len() + off + blk.len()) =~= blk);
}

/// A subrange of the left part of a concatenation.
proof fn lemma_contains_sub_right(y: Seq<char>, z: Seq<char>, off: int, blk: Seq<char>)
    requires
        0 <= off,
        off + blk.len() <= y.len(),
        y.subrange(off, off + blk.len()) == blk,
    ensures
        (y + z).subrange(off, off + blk.len()) == blk,
{
    assert forall|i: int|
        0 <= i < blk.len() implies #[trigger] (y + z).subrange(off, off + blk.len())[i]
            == blk[i] by {
        assert((y + z)[off + i] == y[off + i]);
        assert(y.subrange(off, off + blk.len())[i] == y[off + i]);
    }
    assert((y + z).subrange(off, off + blk.len()) =~= blk);
}

/// Each block stands verbatim in the inserted run, after its separator.
proof fn lemma_inserted_contains(blocks: Seq<Seq<char>>, k: int)
    requires
        0 <= k < blocks.len(),
    ensures
        ({
            let ins = inserted_blocks(blocks);
            exists|off: int|
                0 <= off && off + blocks[k].len() <= ins.len() && #[trigger] ins.subrange(
                    off,
                    off + blocks[k].len(),
                ) == blocks[k]
        }),
    decreases blocks.len(),
{
    let ins = inserted_blocks(blocks);
    let b = blocks[0];
    let rest = blocks.drop_first();
    assert(ins == sep() + b + inserted_blocks(rest));
    if k == 0 {
        let off = 3;
        assert(ins.subrange(off, off + b.len()) =~= b) by {
            assert forall|i: int|
                0 <= i < b.len() implies #[trigger] ins.subrange(off, off + b.len())[i]
                    == b[i] by {
                assert(ins.subrange(off, off + b.len())[i] == ins[off + i]);
                assert(ins[off + i] == (sep() + b)[off + i]);
            }
        }
        assert(0 <= off && off + blocks[k].len() <= ins.len() && ins.subrange(
            off,
            off + blocks[k].len(),
        ) == blocks[k]);
    } else {
        lemma_inserted_contains(rest, k - 1);
        let rins = inserted_blocks(rest);
        let off0 = choose|off: int|
            0 <= off && off + rest[k - 1].len() <= rins.len() && #[trigger] rins.subrange(
                off,
                off + rest[k - 1].len(),
            ) == rest[k - 1];
        let off = 3 + b.len() + off0;
        assert(blocks[k] == rest[k - 1]);
        assert(ins =~= (sep() + b) + rins);
        lemma_contains_sub_left(sep() + b, rins, off0, rest[k - 1]);
        assert(ins.subrange(off, off + blocks[k].len()) == blocks[k]);
    }
}

/// Splitting the leading gap of a span walk at `pos`.
proof fn lemma_gaps_split(text: Seq<char>, spans: Seq<(int, int)>, pos: int)
    requires
        0 <= pos <= text.len(),
        spans.len() > 0 ==> pos <= spans[0].0 <= text.len(),
    ensures
        crate::writer::gaps_from(text, spans, 0) == text.subrange(0, pos)
            + crate::writer::gaps_from(text, spans, pos),
{
    if spans.len() == 0 {
        assert(text.subrange(0, text.len() as int) =~= text.subrange(0, pos) + text.subrange(
            pos,
            text.len() as int,
        ));
    } else {
        let s0 = spans[0].0;
        assert(text.subrange(0, s0) =~= text.subrange(0, pos) + text.subrange(pos, s0));
        assert(text.subrange(0, pos) + text.subrange(pos, s0) + crate::writer::gaps_from(
            text,
            spans.drop_first(),
            spans[0].1,
        ) =~= text.subrange(0, pos) + (text.subrange(pos, s0) + crate::writer::gaps_from(
            text,
            spans.drop_first(),
            spans[0].1,
        )));
    }
}

/// Scanning a regenerated document: a base with no marker, then separated
/// good blocks, then the document tail. Every block is re-located verbatim;
/// deleting the spans leaves the base, the separators and the tail.
proof fn lemma_scan_regen(base: Seq<char>, blocks: Seq<Seq<char>>)
    requires
        find_at(base, marker(), 0) is None,
        forall|k: int| 0 <= k < blocks.len() ==> good_block(#[trigger] blocks[k]),
    ensures
        ({
            let text = base + inserted_blocks(blocks) + doc_tail();
            let spans = unit_spans(blocks, base.len() as int);
            &&& scan_spec(text) == (spans, None::<int>)
            &&& (forall|k: int|
                0 <= k < blocks.len() ==> text.subrange(
                    (#[trigger] spans[k]).0,
                    spans[k].1,
                ) == blocks[k])
            &&& crate::writer::gaps_from(text, spans, 0) == base + seps(blocks.len() as int)
                + doc_tail()
        }),
{
    let text = base + inserted_blocks(blocks) + doc_tail();
    let ins = inserted_blocks(blocks);
    let el = base.len() as int;
    let spans = unit_spans(blocks, el);
    assert(text.skip(el) =~= ins + doc_tail()) by {
        assert forall|i: int|
            0 <= i < text.len() - el implies #[trigger] text.skip(el)[i] == (ins + doc_tail())[i]
            by {
            assert(text.skip(el)[i] == text[el + i]);
            if i < ins.len() {
                assert(text[el + i] == (base + ins)[el + i]);
                assert((base + ins)[el + i] == ins[i]);
            } else {
                assert(text[el + i] == doc_tail()[el + i - (base + ins).len()]);
            }
        }
    }
    assert(text[el] == '\n') by {
        if blocks.len() > 0 {
            assert(ins == sep() + blocks[0] + inserted_blocks(blocks.drop_first()));
            assert((ins + doc_tail())[0] == sep()[0]);
        } else {
            assert(ins.len() == 0);
            assert((ins + doc_tail())[0] == doc_tail()[0]);
        }
        assert(text.skip(el)[0] == text[el]);
    }
    lemma_find_at(base, marker(), 0);
    assert forall|j: int| 0 <= j < el implies !occurs_at(text, marker(), j) by {
        if occurs_at(text, marker(), j) {
            if j + marker().len() <= el {
                assert forall|i: int|
                    0 <= i < marker().len() implies #[trigger] base.subrange(
                    j,
                    j + marker().len(),
                )[i] == marker()[i] by {
                    assert(base.subrange(j, j + marker().len())[i] == base[j + i]);
                    assert(text[j + i] == (base + ins)[j + i]);
                    assert((base + ins)[j + i] == base[j + i]);
                    lemma_occurs_head(text, marker(), j, i);
                }
                assert(base.subrange(j, j + marker().len()) =~= marker());
                assert(occurs_at(base, marker(), j));
            } else {
                let k = el - j;
                lemma_occurs_head(text, marker(), j, k);
                assert(text[el] == marker()[k]);
                assert(forall|m: int| 0 <= m < marker().len() ==> marker()[m] != '\n');
            }
        }
    }
    assert(find_at(text, marker(), 0) == find_at(text, marker(), el)) by {
        lemma_find_at_skip(text, marker(), 0, el);
    }
    lemma_scan_units(text, el, blocks);
    assert(scan_from(text, 0) == scan_from(text, el)) by {
        match find_at(text, marker(), 0) {
            None => {},
            Some(m) => {},
        }
    }
    lemma_unit_spans_len(blocks, el);
    if spans.len() > 0 {
        assert(spans[0] == (el + 3, el + 3 + blocks[0].len()));
    }
    lemma_gaps_split(text, spans, el);
    assert(text.subrange(0, el) =~= base);
    assert(base + (seps(blocks.len() as int) + doc_tail()) =~= base + seps(blocks.len() as int)
        + doc_tail());
}

/// Protected-block preservation: any located declaration block of `text`
/// whose mount-point key is critical appears byte-identical in the
/// regenerated document, regardless of the disk tree's contents.
pub proof fn law_protected_block_preserved(text: Seq<char>, disks: Seq<DiskView>, k: int)
    requires
        0 <= k < preserved_blocks(text).len(),
    ensures
        exists|off: int|
            0 <= off && off + preserved_blocks(text)[k].len() <= regen_spec(text, disks).len()
                && #[trigger] regen_spec(text, disks).subrange(
                off,
                off + preserved_blocks(text)[k].len(),
            ) == preserved_blocks(text)[k],
{
    let pbs = preserved_blocks(text);
    let blk = pbs[k];
    let base = base_text(text);
    let ins = inserted_blocks(pbs);
    let em = emitted_disks(disks);
    lemma_inserted_contains(pbs, k);
    let off0 = choose|off: int|
        0 <= off && off + blk.len() <= ins.len() && #[trigger] ins.subrange(off, off + blk.len())
            == blk;
    lemma_contains_sub_left(base, ins, off0, blk);
    let off1 = base.len() + off0;
    lemma_contains_sub_right(base + ins, em, off1, blk);
    lemma_contains_sub_right(base + ins + em, doc_tail(), off1, blk);
    assert(regen_spec(text, disks) == base + ins + em + doc_tail());
    assert(regen_spec(text, disks).subrange(off1, off1 + blk.len()) == blk);
}

/// The option text never holds a closing brace.
proof fn lemma_options_no_brace(fs: Seq<char>, mp: Seq<char>)
    ensures
        forall|i: int|
            0 <= i < options_for(fs, mp).len() ==> #[trigger] options_for(fs, mp)[i] != '}',
{
    reveal_strlit("[ \"defaults\" \"nofail\" \"compress=zstd\" ]");
    reveal_strlit("[ \"defaults\" \"nofail\" \"x-gvfs-show\" \"compress=zstd\" ]");
    reveal_strlit("[ \"defaults\" \"nofail\" \"uid=1000\" \"gid=100\" \"umask=022\" ]");
    reveal_strlit("[ \"defaults\" \"nofail\" \"x-gvfs-show\" \"uid=1000\" \"gid=100\" \"umask=022\" ]");
    reveal_strlit("[ \"defaults\" \"nofail\" ]");
    reveal_strlit("[ \"defaults\" \"nofail\" \"x-gvfs-show\" ]");
}

/// Positions of the fixed and variable segments inside an emitted block.
proof fn lemma_block_regions(mp: Seq<char>, dev: Seq<char>, fs: Seq<char>)
    ensures
        ({
            let b = block_of(mp, dev, fs);
            let o2 = 13 + mp.len() as int;
            let o3 = o2 + 10;
            let o4 = o3 + 10;
            let o5 = o4 + dev.len() as int;
            let o6 = o5 + 7;
            let o7 = o6 + 10;
            let o8 = o7 + fs.len() as int;
            &&& b.len() == o8 + 17 + options_for(fs, mp).len() + 6
            &&& b.subrange(0, 13) == marker()
            &&& b.subrange(13, o2) == mp
            &&& b.subrange(o2, o3) == seg_key_close()
            &&& b.subrange(o3, o4) == device_key()
            &&& b.subrange(o4, o5) == dev
            &&& b.subrange(o5, o6) == seg_dev_close()
            &&& b.subrange(o6, o7) == fstype_key()
            &&& b.subrange(o7, o8) == fs
            &&& b.subrange(o8, o8 + 17) == seg_fs_close()
            &&& b.subrange(o8 + 17, b.len() - 6) == options_for(fs, mp)
            &&& b.subrange(b.len() - 6, b.len() as int) == seg_tail()
        }),
{
    reveal(crate::writer::block_of);
    let b = block_of(mp, dev, fs);
    let opts = options_for(fs, mp);
    let node1 = marker();
    let node2 = node1 + mp;
    let node3 = node2 + seg_key_close();
    let node4 = node3 + device_key();
    let node5 = node4 + dev;
    let node6 = node5 + seg_dev_close();
    let node7 = node6 + fstype_key();
    let node8 = node7 + fs;
    let node9 = node8 + seg_fs_close();
    let node10 = node9 + opts;
    let bb = node10 + seg_tail();
    assert(b == bb);
    assert(node1.subrange(0, node1.len() as int) =~= node1);
    lemma_contains_sub_right(node1, mp, 0, marker());
    lemma_contains_sub_right(node2, seg_key_close(), 0, marker());
    lemma_contains_sub_right(node3, device_key(), 0, marker());
    lemma_contains_sub_right(node4, dev, 0, marker());
    lemma_contains_sub_right(node5, seg_dev_close(), 0, marker());
    lemma_contains_sub_right(node6, fstype_key(), 0, marker());
    lemma_contains_sub_right(node7, fs, 0, marker());
    lemma_contains_sub_right(node8, seg_fs_close(), 0, marker());
    lemma_contains_sub_right(node9, opts, 0, marker());
    lemma_contains_sub_right(node10, seg_tail(), 0, marker());
    assert(mp.subrange(0, mp.len() as int) =~= mp);
    lemma_contains_sub_left(node1, mp, 0, mp);
    lemma_contains_sub_right(node2, seg_key_close(), node1.len() as int, mp);
    lemma_contains_sub_right(node3, device_key(), node1.len() as int, mp);
    lemma_contains_sub_right(node4, dev, node1.len() as int, mp);
    lemma_contains_sub_right(node5, seg_dev_close(), node1.len() as int, mp);
    lemma_contains_sub_right(node6, fstype_key(), node1.len() as int, mp);
    lemma_contains_sub_right(node7, fs, node1.len() as int, mp);
    lemma_contains_sub_right(node8, seg_fs_close(), node1.len() as int, mp);
    lemma_contains_sub_right(node9, opts, node1.len() as int, mp);
    lemma_contains_sub_right(node10, seg_tail(), node1.len() as int, mp);
    assert(seg_key_close().subrange(0, seg_key_close().len() as int) =~= seg_key_close());
    lemma_contains_sub_left(node2, seg_key_close(), 0, seg_key_close());
    lemma_contains_sub_right(node3, device_key(), node2.len() as int, seg_key_close());
    lemma_contains_sub_right(node4, dev, node2.len() as int, seg_key_close());
    lemma_contains_sub_right(node5, seg_dev_close(), node2.len() as int, seg_key_close());
    lemma_contains_sub_right(node6, fstype_key(), node2.len() as int, seg_key_close());
    lemma_contains_sub_right(node7, fs, node2.len() as int, seg_key_close());
    lemma_contains_sub_right(node8, seg_fs_close(), node2.len() as int, seg_key_close());
    lemma_contains_sub_right(node9, opts, node2.len() as int, seg_key_close());
    lemma_contains_sub_right(node10, seg_tail(), node2.len() as int, seg_key_close());
    assert(device_key().subrange(0, device_key().len() as int) =~= device_key());
    lemma_contains_sub_left(node3, device_key(), 0, device_key());
    lemma_contains_sub_right(node4, dev, node3.len() as int, device_key());
    lemma_contains_sub_right(node5, seg_dev_close(), node3.len() as int, device_key());
    lemma_contains_sub_right(node6, fstype_key(), node3.len() as int, device_key());
    lemma_contains_sub_right(node7, fs, node3.len() as int, device_key());
    lemma_contains_sub_right(node8, seg_fs_close(), node3.len() as int, device_key());
    lemma_contains_sub_right(node9, opts, node3.len() as int, device_key());
    lemma_contains_sub_right(node10, seg_tail(), node3.len() as int, device_key());
    assert(dev.subrange(0, dev.len() as int) =~= dev);
    lemma_contains_sub_left(node4, dev, 0, dev);
    lemma_contains_sub_right(node5, seg_dev_close(), node4.len() as int, dev);
    lemma_contains_sub_right(node6, fstype_key(), node4.len() as int, dev);
    lemma_contains_sub_right(node7, fs, node4.len() as int, dev);
    lemma_contains_sub_right(node8, seg_fs_close(), node4.len() as int, dev);
    lemma_contains_sub_right(node9, opts, node4.len() as int, dev);
    lemma_contains_sub_right(node10, seg_tail(), node4.len() as int, dev);
    assert(seg_dev_close().subrange(0, seg_dev_close().len() as int) =~= seg_dev_close());
    lemma_contains_sub_left(node5, seg_dev_close(), 0, seg_dev_close());
    lemma_contains_sub_right(node6, fstype_key(), node5.len() as int, seg_dev_close());
    lemma_contains_sub_right(node7, fs, node5.len() as int, seg_dev_close());
    lemma_contains_sub_right(node8, seg_fs_close(), node5.len() as int, seg_dev_close());
    lemma_contains_sub_right(node9, opts, node5.len() as int, seg_dev_close());
    lemma_contains_sub_right(node10, seg_tail(), node5.len() as int, seg_dev_close());
    assert(fstype_key().subrange(0, fstype_key().len() as int) =~= fstype_key());
    lemma_contains_sub_left(node6, fstype_key(), 0, fstype_key());
    lemma_contains_sub_right(node7, fs, node6.len() as int, fstype_key());
    lemma_contains_sub_right(node8, seg_fs_close(), node6.len() as int, fstype_key());
    lemma_contains_sub_right(node9, opts, node6.len() as int, fstype_key());
    lemma_contains_sub_right(node10, seg_tail(), node6.len() as int, fstype_key());
    assert(fs.subrange(0, fs.len() as int) =~= fs);
    lemma_contains_sub_left(node7, fs, 0, fs);
    lemma_contains_sub_right(node8, seg_fs_close(), node7.len() as int, fs);
    lemma_contains_sub_right(node9, opts, node7.len() as int, fs);
    lemma_contains_sub_right(node10, seg_tail(), node7.len() as int, fs);
    assert(seg_fs_close().subrange(0, seg_fs_close().len() as int) =~= seg_fs_close());
    lemma_contains_sub_left(node8, seg_fs_close(), 0, seg_fs_close());
    lemma_contains_sub_right(node9, opts, node8.len() as int, seg_fs_close());
    lemma_contains_sub_right(node10, seg_tail(), node8.len() as int, seg_fs_close());
    assert(opts.subrange(0, opts.len() as int) =~= opts);
    lemma_contains_sub_left(node9, opts, 0, opts);
    lemma_contains_sub_right(node10, seg_tail(), node9.len() as int, opts);
    assert(seg_tail().subrange(0, seg_tail().len() as int) =~= seg_tail());
    lemma_contains_sub_left(node10, seg_tail(), 0, seg_tail());
    assert(b.subrange(0, 13) == marker());
    assert(b.subrange(13, (13 + mp.len()) as int) == mp);
}

/// An emitted block is a good block: quote- and brace-free field values keep
/// its one end delimiter at its end.
#[verifier::rlimit(100)]
pub proof fn lemma_emitted_block_good(mp: Seq<char>, dev: Seq<char>, fs: Seq<char>)
    requires
        text_clean(mp),
        text_clean(dev),
        text_clean(fs),
    ensures
        good_block(block_of(mp, dev, fs)),
{
    let b = block_of(mp, dev, fs);
    let opts = options_for(fs, mp);
    lemma_options_no_brace(fs, mp);
    lemma_block_regions(mp, dev, fs);
    let o2 = 13 + mp.len() as int;
    let o3 = o2 + 10;
    let o4 = o3 + 10;
    let o5 = o4 + dev.len() as int;
    let o6 = o5 + 7;
    let o7 = o6 + 10;
    let o8 = o7 + fs.len() as int;
    let o9 = o8 + 17;
    let o10 = o9 + opts.len() as int;
    assert(b.len() == o10 + 6);
    assert forall|j: int| 0 <= j < b.len() && j != b.len() - 2 implies #[trigger] b[j] != '}' by {
        if j < 13 {
            assert(b.subrange(0, 13)[j] == b[j]);
        } else if j < o2 {
            assert(b.subrange(13, o2)[j - 13] == b[j]);
            assert(mp[j - 13] != '}');
        } else if j < o3 {
            assert(b.subrange(o2, o3)[j - o2] == b[j]);
        } else if j < o4 {
            assert(b.subrange(o3, o4)[j - o3] == b[j]);
        } else if j < o5 {
            assert(b.subrange(o4, o5)[j - o4] == b[j]);
            assert(dev[j - o4] != '}');
        } else if j < o6 {
            assert(b.subrange(o5, o6)[j - o5] == b[j]);
        } else if j < o7 {
            assert(b.subrange(o6, o7)[j - o6] == b[j]);
        } else if j < o8 {
            assert(b.subrange(o7, o8)[j - o7] == b[j]);
            assert(fs[j - o7] != '}');
        } else if j < o9 {
            assert(b.subrange(o8, o9)[j - o8] == b[j]);
        } else if j < o10 {
            assert(b.subrange(o9, o10)[j - o9] == b[j]);
            assert(opts[j - o9] != '}');
        } else {
            assert(b.subrange(o10, b.len() as int)[j - o10] == b[j]);
        }
    }
    assert(b[b.len() - 2] == '}' && b[b.len() - 1] == ';') by {
        assert(b.subrange(o10, b.len() as int)[4] == b[o10 + 4]);
        assert(b.subrange(o10, b.len() as int)[5] == b[o10 + 5]);
    }
    assert(is_prefix(b, marker()));
    assert(occurs_at(b, end_delim(), b.len() - 2)) by {
        assert(b.subrange(b.len() - 2, b.len() as int) =~= end_delim());
    }
    assert forall|j: int| 0 <= j < b.len() - 2 implies !occurs_at(b, end_delim(), j) by {
        if occurs_at(b, end_delim(), j) {
            lemma_occurs_head(b, end_delim(), j, 0);
        }
    }
}

/// A search whose first occurrence is known.
proof fn lemma_find_first_at(text: Seq<char>, pat: Seq<char>, from: int, at: int)
    requires
        0 <= from <= at,
        occurs_at(text, pat, at),
        forall|j: int| from <= j < at ==> !occurs_at(text, pat, j),
    ensures
        find_at(text, pat, from) == Some(at),
{
    lemma_find_at_skip(text, pat, from, at);
    lemma_find_at(text, pat, at);
    match find_at(text, pat, at) {
        Some(m) => {
            if m > at {
                assert(!occurs_at(text, pat, at));
            }
        },
        None => {
            assert(!occurs_at(text, pat, at));
        },
    }
}

/// Re-extracting an emitted block yields exactly the mount point, device
/// reference and filesystem type it was emitted with.
/// The mount-point key of an emitted block.
#[verifier::rlimit(100)]
proof fn lemma_parse_emitted_key(mp: Seq<char>, dev: Seq<char>, fs: Seq<char>)
    requires
        text_clean(mp),
    ensures
        key_of(block_of(mp, dev, fs)) == Some(mp),
        crate::scan::after_key_of(block_of(mp, dev, fs)) == Some(14 + mp.len() as int),
{
    let b = block_of(mp, dev, fs);
    lemma_block_regions(mp, dev, fs);
    let o2 = 13 + mp.len() as int;
    let o3 = o2 + 10;
    assert(find_at(b, marker(), 0) == Some(0int)) by {
        assert(b.subrange(0, 0 + marker().len() as int) == marker());
    }
    assert(occurs_at(b, quote(), o2)) by {
        assert(b.subrange(o2, o3)[0] == b[o2]);
        assert(b.subrange(o2, o2 + 1) =~= quote());
    }
    assert forall|j: int| 13 <= j < o2 implies !occurs_at(b, quote(), j) by {
        if occurs_at(b, quote(), j) {
            lemma_occurs_head(b, quote(), j, 0);
            assert(b.subrange(13, o2)[j - 13] == b[j]);
            assert(mp[j - 13] != '"');
        }
    }
    lemma_find_first_at(b, quote(), 13, o2);
    assert(key_of(b) == Some(b.subrange(13, o2)));
}

/// The device key stands first after the mount-point key's closing quote.
#[verifier::rlimit(100)]
proof fn lemma_device_key_first(mp: Seq<char>, dev: Seq<char>, fs: Seq<char>)
    ensures
        find_at(block_of(mp, dev, fs), device_key(), 14 + mp.len() as int) == Some(
            23 + mp.len() as int,
        ),
{
    let b = block_of(mp, dev, fs);
    lemma_block_regions(mp, dev, fs);
    let o2 = 13 + mp.len() as int;
    let o3 = o2 + 10;
    assert(occurs_at(b, device_key(), o3)) by {
        assert(b.subrange(o3, o3 + device_key().len() as int) == device_key());
    }
    assert forall|j: int| o2 + 1 <= j < o3 implies !occurs_at(b, device_key(), j) by {
        if occurs_at(b, device_key(), j) {
            lemma_occurs_head(b, device_key(), j, 0);
            assert(b.subrange(o2, o3)[j - o2] == b[j]);
        }
    }
    lemma_find_first_at(b, device_key(), o2 + 1, o3);
}

/// The device value's closing quote stands first after the device key.
#[verifier::rlimit(100)]
proof fn lemma_device_value_quote(mp: Seq<char>, dev: Seq<char>, fs: Seq<char>)
    requires
        text_clean(dev),
    ensures
        find_at(block_of(mp, dev, fs), quote(), 33 + mp.len() as int) == Some(
            33 + mp.len() + dev.len() as int,
        ),
        block_of(mp, dev, fs).subrange(33 + mp.len() as int, 33 + mp.len() + dev.len() as int)
            == dev,
{
    let b = block_of(mp, dev, fs);
    lemma_block_regions(mp, dev, fs);
    let o4 = 33 + mp.len() as int;
    let o5 = o4 + dev.len() as int;
    let o6 = o5 + 7;
    assert(occurs_at(b, quote(), o5)) by {
        assert(b.subrange(o5, o6)[0] == b[o5]);
        assert(b.subrange(o5, o5 + 1) =~= quote());
    }
    assert forall|j: int| o4 <= j < o5 implies !occurs_at(b, quote(), j) by {
        if occurs_at(b, quote(), j) {
            lemma_occurs_head(b, quote(), j, 0);
            assert(b.subrange(o4, o5)[j - o4] == b[j]);
            assert(dev[j - o4] != '"');
        }
    }
    lemma_find_first_at(b, quote(), o4, o5);
}

/// The device reference of an emitted block.
proof fn lemma_parse_emitted_device(mp: Seq<char>, dev: Seq<char>, fs: Seq<char>)
    requires
        text_clean(mp),
        text_clean(dev),
    ensures
        device_of(block_of(mp, dev, fs)) == Some(dev),
        crate::scan::after_device_of(block_of(mp, dev, fs)) == Some(
            34 + mp.len() + dev.len() as int,
        ),
{
    let b = block_of(mp, dev, fs);
    lemma_parse_emitted_key(mp, dev, fs);
    lemma_device_key_first(mp, dev, fs);
    lemma_device_value_quote(mp, dev, fs);
    let o2 = 13 + mp.len() as int;
    let o5 = 33 + mp.len() + dev.len() as int;
    assert(crate::scan::quoted_value_after(b, device_key(), o2 + 1) == Some(dev));
    assert(crate::scan::value_end_after(b, device_key(), o2 + 1) == Some(o5));
}

/// The filesystem-type key stands first after the device value.
#[verifier::rlimit(100)]
proof fn lemma_fstype_key_first(mp: Seq<char>, dev: Seq<char>, fs: Seq<char>)
    ensures
        find_at(block_of(mp, dev, fs), fstype_key(), 34 + mp.len() + dev.len() as int) == Some(
            40 + mp.len() + dev.len() as int,
        ),
{
    let b = block_of(mp, dev, fs);
    lemma_block_regions(mp, dev, fs);
    let o5 = 33 + mp.len() + dev.len() as int;
    let o6 = o5 + 7;
    assert(occurs_at(b, fstype_key(), o6)) by {
        assert(b.subrange(o6, o6 + fstype_key().len() as int) == fstype_key());
    }
    assert forall|j: int| o5 + 1 <= j < o6 implies !occurs_at(b, fstype_key(), j) by {
        if occurs_at(b, fstype_key(), j) {
            lemma_occurs_head(b, fstype_key(), j, 0);
            assert(b.subrange(o5, o6)[j - o5] == b[j]);
        }
    }
    lemma_find_first_at(b, fstype_key(), o5 + 1, o6);
}

/// The filesystem-type value's closing quote stands first after its key.
#[verifier::rlimit(100)]
proof fn lemma_fstype_value_quote(mp: Seq<char>, dev: Seq<char>, fs: Seq<char>)
    requires
        text_clean(fs),
    ensures
        find_at(block_of(mp, dev, fs), quote(), 50 + mp.len() + dev.len() as int) == Some(
            50 + mp.len() + dev.len() + fs.len() as int,
        ),
        block_of(mp, dev, fs).subrange(
            50 + mp.len() + dev.len() as int,
            50 + mp.len() + dev.len() + fs.len() as int,
        ) == fs,
{
    let b = block_of(mp, dev, fs);
    lemma_block_regions(mp, dev, fs);
    let o7 = 50 + mp.len() + dev.len() as int;
    let o8 = o7 + fs.len() as int;
    assert(occurs_at(b, quote(), o8)) by {
        assert(b.subrange(o8, o8 + 17)[0] == b[o8]);
        assert(b.subrange(o8, o8 + 1) =~= quote());
    }
    assert forall|j: int| o7 <= j < o8 implies !occurs_at(b, quote(), j) by {
        if occurs_at(b, quote(), j) {
            lemma_occurs_head(b, quote(), j, 0);
            assert(b.subrange(o7, o8)[j - o7] == b[j]);
            assert(fs[j - o7] != '"');
        }
    }
    lemma_find_first_at(b, quote(), o7, o8);
}

/// The filesystem type of an emitted block.
proof fn lemma_parse_emitted_fstype(mp: Seq<char>, dev: Seq<char>, fs: Seq<char>)
    requires
        text_clean(mp),
        text_clean(dev),
        text_clean(fs),
    ensures
        fstype_of(block_of(mp, dev, fs)) == Some(fs),
{
    let b = block_of(mp, dev, fs);
    lemma_parse_emitted_device(mp, dev, fs);
    lemma_fstype_key_first(mp, dev, fs);
    lemma_fstype_value_quote(mp, dev, fs);
    let o5 = 33 + mp.len() + dev.len() as int;
    assert(crate::scan::quoted_value_after(b, fstype_key(), o5 + 1) == Some(fs));
}

/// Re-extracting an emitted block yields exactly the mount point, device
/// reference and filesystem type it was emitted with.
pub proof fn lemma_parse_emitted_block(mp: Seq<char>, dev: Seq<char>, fs: Seq<char>)
    requires
        text_clean(mp),
        text_clean(dev),
        text_clean(fs),
    ensures
        key_of(block_of(mp, dev, fs)) == Some(mp),
        device_of(block_of(mp, dev, fs)) == Some(dev),
        fstype_of(block_of(mp, dev, fs)) == Some(fs),
{
    lemma_parse_emitted_key(mp, dev, fs);
    lemma_parse_emitted_device(mp, dev, fs);
    lemma_parse_emitted_fstype(mp, dev, fs);
}

/// The (mount point, device reference, filesystem type) of each block the
/// mount points of one partition emit, in insertion order: critical mount
/// points emit nothing.
pub open spec fn mps_triples(mps: Seq<Seq<char>>, dev: Seq<char>, fs: Seq<char>) -> Seq<
    (Seq<char>, Seq<char>, Seq<char>),
>
    decreases mps.len(),
{
    if mps.len() == 0 {
        Seq::empty()
    } else {
        (if is_critical(mps[0]) {
            Seq::<(Seq<char>, Seq<char>, Seq<char>)>::empty()
        } else {
            seq![(mps[0], dev, fs)]
        }) + mps_triples(mps.drop_first(), dev, fs)
    }
}

/// The triples one partition emits: nothing without a stable identity path.
pub open spec fn partition_triples(p: PartitionView) -> Seq<(Seq<char>, Seq<char>, Seq<char>)> {
    match p.uuid_path {
        None => Seq::empty(),
        Some(dev) => mps_triples(p.mount_points, dev, fs_of(p)),
    }
}

pub open spec fn partitions_triples(ps: Seq<PartitionView>) -> Seq<
    (Seq<char>, Seq<char>, Seq<char>),
>
    decreases ps.len(),
{
    if ps.len() == 0 {
        Seq::empty()
    } else {
        partition_triples(ps[0]) + partitions_triples(ps.drop_first())
    }
}

/// Every declaration the disk tree emits, as a (mount point, device
/// reference, filesystem type) triple: disk order, then partition order,
/// then mount-point insertion order, leaving out critical mount points and
/// partitions without a stable identity path.
pub open spec fn disks_triples(ds: Seq<DiskView>) -> Seq<(Seq<char>, Seq<char>, Seq<char>)>
    decreases ds.len(),
{
    if ds.len() == 0 {
        Seq::empty()
    } else {
        partitions_triples(ds[0].partitions) + disks_triples(ds.drop_first())
    }
}

/// The block a triple is emitted as.
pub open spec fn triple_block(t: (Seq<char>, Seq<char>, Seq<char>)) -> Seq<char> {
    block_of(t.0, t.1, t.2)
}

/// The blocks of a sequence of triples.
pub open spec fn triple_blocks(ts: Seq<(Seq<char>, Seq<char>, Seq<char>)>) -> Seq<Seq<char>> {
    ts.map_values(|t: (Seq<char>, Seq<char>, Seq<char>)| triple_block(t))
}

/// A partition whose text fields can stand inside emitted blocks: free of
/// quotes and closing braces.
pub open spec fn partition_clean(p: PartitionView) -> bool {
    &&& (forall|k: int| 0 <= k < p.mount_points.len() ==> text_clean(#[trigger] p.mount_points[k]))
    &&& (p.uuid_path is Some ==> text_clean(p.uuid_path->0))
    &&& text_clean(fs_of(p))
}

/// Every partition of the tree is clean.
pub open spec fn disks_clean(ds: Seq<DiskView>) -> bool {
    forall|i: int, j: int|
        0 <= i < ds.len() && 0 <= j < ds[i].partitions.len() ==> partition_clean(
            #[trigger] ds[i].partitions[j],
        )
}

/// A triple whose components are clean and whose mount point is not
/// critical.
pub open spec fn triple_clean(t: (Seq<char>, Seq<char>, Seq<char>)) -> bool {
    text_clean(t.0) && text_clean(t.1) && text_clean(t.2) && !is_critical(t.0)
}

proof fn lemma_mps_triples_clean(mps: Seq<Seq<char>>, dev: Seq<char>, fs: Seq<char>)
    requires
        forall|k: int| 0 <= k < mps.len() ==> text_clean(#[trigger] mps[k]),
        text_clean(dev),
        text_clean(fs),
    ensures
        forall|k: int|
            0 <= k < mps_triples(mps, dev, fs).len() ==> triple_clean(
                #[trigger] mps_triples(mps, dev, fs)[k],
            ),
    decreases mps.len(),
{
    if mps.len() > 0 {
        assert(forall|k: int|
            0 <= k < mps.drop_first().len() ==> text_clean(#[trigger] mps.drop_first()[k]));
        lemma_mps_triples_clean(mps.drop_first(), dev, fs);
        let head = if is_critical(mps[0]) {
            Seq::<(Seq<char>, Seq<char>, Seq<char>)>::empty()
        } else {
            seq![(mps[0], dev, fs)]
        };
        assert forall|k: int|
            0 <= k < mps_triples(mps, dev, fs).len() implies triple_clean(
            #[trigger] mps_triples(mps, dev, fs)[k],
        ) by {
            if k < head.len() {
                assert(mps_triples(mps, dev, fs)[k] == head[k]);
                assert(text_clean(mps[0]));
            } else {
                assert(mps_triples(mps, dev, fs)[k] == mps_triples(
                    mps.drop_first(),
                    dev,
                    fs,
                )[k - head.len()]);
            }
        }
    }
}

proof fn lemma_partitions_triples_clean(ps: Seq<PartitionView>)
    requires
        forall|j: int| 0 <= j < ps.len() ==> partition_clean(#[trigger] ps[j]),
    ensures
        forall|k: int|
            0 <= k < partitions_triples(ps).len() ==> triple_clean(
                #[trigger] partitions_triples(ps)[k],
            ),
    decreases ps.len(),
{
    if ps.len() > 0 {
        let head = partition_triples(ps[0]);
        match ps[0].uuid_path {
            None => {},
            Some(dev) => {
                lemma_mps_triples_clean(ps[0].mount_points, dev, fs_of(ps[0]));
            },
        }
        assert(forall|j: int|
            0 <= j < ps.drop_first().len() ==> partition_clean(#[trigger] ps.drop_first()[j]));
        lemma_partitions_triples_clean(ps.drop_first());
        assert forall|k: int|
            0 <= k < partitions_triples(ps).len() implies triple_clean(
            #[trigger] partitions_triples(ps)[k],
        ) by {
            if k < head.len() {
                assert(partitions_triples(ps)[k] == head[k]);
            } else {
                assert(partitions_triples(ps)[k] == partitions_triples(ps.drop_first())[k
                    - head.len()]);
            }
        }
    }
}

proof fn lemma_disks_triples_clean(ds: Seq<DiskView>)
    requires
        disks_clean(ds),
    ensures
        forall|k: int|
            0 <= k < disks_triples(ds).len() ==> triple_clean(#[trigger] disks_triples(ds)[k]),
    decreases ds.len(),
{
    if ds.len() > 0 {
        let head = partitions_triples(ds[0].partitions);
        assert(forall|j: int|
            0 <= j < ds[0].partitions.len() ==> partition_clean(#[trigger] ds[0].partitions[j]));
        lemma_partitions_triples_clean(ds[0].partitions);
        assert(disks_clean(ds.drop_first())) by {
            assert(forall|i: int, j: int|
                0 <= i < ds.drop_first().len() && 0 <= j
                    < ds.drop_first()[i].partitions.len() ==> partition_clean(
                    #[trigger] ds.drop_first()[i].partitions[j],
                ));
        }
        lemma_disks_triples_clean(ds.drop_first());
        assert forall|k: int|
            0 <= k < disks_triples(ds).len() implies triple_clean(
            #[trigger] disks_triples(ds)[k],
        ) by {
            if k < head.len() {
                assert(disks_triples(ds)[k] == head[k]);
            } else {
                assert(disks_triples(ds)[k] == disks_triples(ds.drop_first())[k - head.len()]);
            }
        }
    }
}

/// The emitted text is the insertion of the emitted triples' blocks.
proof fn lemma_emitted_mps_as_inserted(mps: Seq<Seq<char>>, dev: Seq<char>, fs: Seq<char>)
    ensures
        crate::writer::emitted_mps(mps, dev, fs) == inserted_blocks(
            triple_blocks(mps_triples(mps, dev, fs)),
        ),
    decreases mps.len(),
{
    if mps.len() == 0 {
        assert(triple_blocks(mps_triples(mps, dev, fs)) =~= Seq::<Seq<char>>::empty());
    } else {
        lemma_emitted_mps_as_inserted(mps.drop_first(), dev, fs);
        let restb = triple_blocks(mps_triples(mps.drop_first(), dev, fs));
        if is_critical(mps[0]) {
            assert(triple_blocks(mps_triples(mps, dev, fs)) =~= restb);
            assert(Seq::<char>::empty() + inserted_blocks(restb) =~= inserted_blocks(restb));
        } else {
            let hb = seq![block_of(mps[0], dev, fs)];
            assert(triple_blocks(mps_triples(mps, dev, fs)) =~= hb + restb);
            crate::writer::lemma_inserted_blocks_concat(hb, restb);
            assert(hb.drop_first() =~= Seq::<Seq<char>>::empty());
            assert(inserted_blocks(Seq::<Seq<char>>::empty()) == Seq::<char>::empty());
            assert(inserted_blocks(hb) =~= sep() + block_of(mps[0], dev, fs));
            assert((sep() + block_of(mps[0], dev, fs)) + inserted_blocks(restb) =~= sep()
                + block_of(mps[0], dev, fs) + inserted_blocks(restb));
        }
    }
}

proof fn lemma_emitted_partitions_as_inserted(ps: Seq<PartitionView>)
    ensures
        crate::writer::emitted_partitions(ps) == inserted_blocks(
            triple_blocks(partitions_triples(ps)),
        ),
    decreases ps.len(),
{
    if ps.len() == 0 {
        assert(triple_blocks(partitions_triples(ps)) =~= Seq::<Seq<char>>::empty());
    } else {
        let head = partition_triples(ps[0]);
        match ps[0].uuid_path {
            None => {
                assert(crate::writer::emitted_partition(ps[0]) == Seq::<char>::empty());
                assert(head =~= Seq::<(Seq<char>, Seq<char>, Seq<char>)>::empty());
            },
            Some(dev) => {
                lemma_emitted_mps_as_inserted(ps[0].mount_points, dev, fs_of(ps[0]));
            },
        }
        lemma_emitted_partitions_as_inserted(ps.drop_first());
        assert(triple_blocks(partitions_triples(ps)) =~= triple_blocks(head) + triple_blocks(
            partitions_triples(ps.drop_first()),
        ));
        crate::writer::lemma_inserted_blocks_concat(
            triple_blocks(head),
            triple_blocks(partitions_triples(ps.drop_first())),
        );
        if ps[0].uuid_path is None {
            assert(triple_blocks(head) =~= Seq::<Seq<char>>::empty());
            assert(inserted_blocks(triple_blocks(head)) == Seq::<char>::empty());
            assert(Seq::<char>::empty() + inserted_blocks(triple_blocks(
                partitions_triples(ps.drop_first()),
            )) =~= inserted_blocks(triple_blocks(partitions_triples(ps.drop_first()))));
        }
    }
}

proof fn lemma_emitted_disks_as_inserted(ds: Seq<DiskView>)
    ensures
        emitted_disks(ds) == inserted_blocks(triple_blocks(disks_triples(ds))),
    decreases ds.len(),
{
    if ds.len() == 0 {
        assert(triple_blocks(disks_triples(ds)) =~= Seq::<Seq<char>>::empty());
    } else {
        lemma_emitted_partitions_as_inserted(ds[0].partitions);
        lemma_emitted_disks_as_inserted(ds.drop_first());
        assert(triple_blocks(disks_triples(ds)) =~= triple_blocks(
            partitions_triples(ds[0].partitions),
        ) + triple_blocks(disks_triples(ds.drop_first())));
        crate::writer::lemma_inserted_blocks_concat(
            triple_blocks(partitions_triples(ds[0].partitions)),
            triple_blocks(disks_triples(ds.drop_first())),
        );
    }
}

/// Filtering keeps a sequence whose elements all satisfy the predicate.
proof fn lemma_filter_all_true<A>(s: Seq<A>, pred: spec_fn(A) -> bool)
    requires
        forall|i: int| 0 <= i < s.len() ==> pred(#[trigger] s[i]),
    ensures
        s.filter(pred) == s,
    decreases s.len(),
{
    reveal(Seq::filter);
    if s.len() > 0 {
        assert(forall|i: int| 0 <= i < s.drop_last().len() ==> pred(#[trigger] s.drop_last()[i]));
        lemma_filter_all_true(s.drop_last(), pred);
        assert(pred(s.last()));
        assert(s.filter(pred) =~= s);
    }
}

/// Filtering drops a sequence whose elements all fail the predicate.
proof fn lemma_filter_all_false<A>(s: Seq<A>, pred: spec_fn(A) -> bool)
    requires
        forall|i: int| 0 <= i < s.len() ==> !pred(#[trigger] s[i]),
    ensures
        s.filter(pred) == Seq::<A>::empty(),
    decreases s.len(),
{
    reveal(Seq::filter);
    if s.len() > 0 {
        assert(forall|i: int| 0 <= i < s.drop_last().len() ==> !pred(#[trigger] s.drop_last()[i]));
        lemma_filter_all_false(s.drop_last(), pred);
        assert(!pred(s.last()));
    }
}

/// Every preserved block of a text is good and protected.
proof fn lemma_preserved_facts(text: Seq<char>)
    ensures
        forall|k: int|
            0 <= k < preserved_blocks(text).len() ==> good_block(#[trigger] preserved_blocks(
                text,
            )[k]) && crate::writer::is_protected_block(preserved_blocks(text)[k]),
{
    let bts = block_texts(text);
    let pbs = preserved_blocks(text);
    assert forall|k: int| 0 <= k < pbs.len() implies good_block(#[trigger] pbs[k])
        && crate::writer::is_protected_block(pbs[k]) by {
        bts.lemma_filter_pred(|b: Seq<char>| crate::writer::is_protected_block(b), k);
        assert(pbs.contains(pbs[k]));
        bts.lemma_filter_contains_rev(|b: Seq<char>| crate::writer::is_protected_block(b), pbs[k]);
        let i = choose|i: int| 0 <= i < bts.len() && bts[i] == pbs[k];
        lemma_located_blocks_good(text, i);
    }
}

/// The regenerated document, reshaped as a base, a run of unit blocks and
/// the document tail, with the facts the laws need about it.
proof fn lemma_regen_structure(text: Seq<char>, disks: Seq<DiskView>)
    requires
        find_at(base_text(text), marker(), 0) is None,
        disks_clean(disks),
    ensures
        ({
            let r = regen_spec(text, disks);
            let base = base_text(text);
            let units = preserved_blocks(text) + triple_blocks(disks_triples(disks));
            let spans = unit_spans(units, base.len() as int);
            &&& r == base + inserted_blocks(units) + doc_tail()
            &&& scan_spec(r) == (spans, None::<int>)
            &&& spans.len() == units.len()
            &&& (forall|k: int|
                0 <= k < units.len() ==> r.subrange((#[trigger] spans[k]).0, spans[k].1)
                    == units[k])
            &&& crate::writer::gaps_from(r, spans, 0) == base + seps(units.len() as int)
                + doc_tail()
            &&& (forall|k: int|
                0 <= k < disks_triples(disks).len() ==> triple_clean(
                    #[trigger] disks_triples(disks)[k],
                ))
        }),
{
    let r = regen_spec(text, disks);
    let base = base_text(text);
    let pbs = preserved_blocks(text);
    let ts = disks_triples(disks);
    let ebl = triple_blocks(ts);
    let units = pbs + ebl;
    lemma_preserved_facts(text);
    lemma_disks_triples_clean(disks);
    lemma_emitted_disks_as_inserted(disks);
    crate::writer::lemma_inserted_blocks_concat(pbs, ebl);
    assert(r == base + inserted_blocks(pbs) + emitted_disks(disks) + doc_tail());
    assert(r =~= base + inserted_blocks(units) + doc_tail());
    assert forall|k: int| 0 <= k < units.len() implies good_block(#[trigger] units[k]) by {
        if k < pbs.len() {
            assert(units[k] == pbs[k]);
        } else {
            assert(units[k] == ebl[k - pbs.len()]);
            let t = ts[k - pbs.len()];
            assert(triple_clean(t));
            lemma_emitted_block_good(t.0, t.1, t.2);
        }
    }
    lemma_scan_regen(base, units);
    lemma_unit_spans_len(units, base.len() as int);
}

/// The blocks located in a regenerated document are the preserved blocks of
/// the original text followed by the emitted blocks.
proof fn lemma_regen_block_texts(text: Seq<char>, disks: Seq<DiskView>)
    requires
        find_at(base_text(text), marker(), 0) is None,
        disks_clean(disks),
    ensures
        block_texts(regen_spec(text, disks)) == preserved_blocks(text) + triple_blocks(
            disks_triples(disks),
        ),
{
    let r = regen_spec(text, disks);
    let base = base_text(text);
    let units = preserved_blocks(text) + triple_blocks(disks_triples(disks));
    let spans = unit_spans(units, base.len() as int);
    lemma_regen_structure(text, disks);
    assert(block_texts(r) =~= units) by {
        assert(scan_spec(r).0 == spans);
        assert forall|k: int| 0 <= k < units.len() implies block_texts(r)[k] == units[k] by {
            assert(block_texts(r)[k] == r.subrange((#[trigger] spans[k]).0, spans[k].1));
        }
    }
}

/// The protected blocks of a regenerated document are exactly the protected
/// blocks of the original text.
proof fn lemma_regen_preserved_recovers(text: Seq<char>, disks: Seq<DiskView>)
    requires
        find_at(base_text(text), marker(), 0) is None,
        disks_clean(disks),
    ensures
        preserved_blocks(regen_spec(text, disks)) == preserved_blocks(text),
{
    let pbs = preserved_blocks(text);
    let ts = disks_triples(disks);
    let ebl = triple_blocks(ts);
    lemma_regen_block_texts(text, disks);
    lemma_preserved_facts(text);
    lemma_disks_triples_clean(disks);
    let pred = |b: Seq<char>| crate::writer::is_protected_block(b);
    Seq::<Seq<char>>::filter_distributes_over_add(pbs, ebl, pred);
    lemma_filter_all_true(pbs, pred);
    assert forall|k: int| 0 <= k < ebl.len() implies !pred(#[trigger] ebl[k]) by {
        let t = ts[k];
        assert(ebl[k] == triple_block(t));
        lemma_parse_emitted_block(t.0, t.1, t.2);
        assert(key_of(ebl[k]) == Some(t.0));
        assert(!is_critical(t.0));
    }
    lemma_filter_all_false(ebl, pred);
    assert(pbs + Seq::<Seq<char>>::empty() =~= pbs);
}

/// Deleting the blocks of a regenerated document gives back its base.
proof fn lemma_regen_base_recovers(text: Seq<char>, disks: Seq<DiskView>)
    requires
        find_at(base_text(text), marker(), 0) is None,
        disks_clean(disks),
    ensures
        base_text(regen_spec(text, disks)) == base_text(text),
{
    let r = regen_spec(text, disks);
    let base = base_text(text);
    let units = preserved_blocks(text) + triple_blocks(disks_triples(disks));
    let n = units.len() as int;
    lemma_regen_structure(text, disks);
    let g = base + seps(n) + doc_tail();
    assert(crate::writer::gaps_from(r, scan_spec(r).0, 0) == g);
    assert(g.len() >= 3);
    assert(g.last() == '}') by {
        assert(g[g.len() - 1] == doc_tail()[2]);
    }
    assert(trim_end_spec(g) == g);
    let nn = seq!['\n', '\n'];
    assert(g.drop_last() =~= base + (seps(n) + nn));
    lemma_seps_wsp(n);
    assert forall|i: int| 0 <= i < (seps(n) + nn).len() implies is_wsp((seps(n) + nn)[i]) by {
        if i < seps(n).len() {
            assert((seps(n) + nn)[i] == seps(n)[i]);
        } else {
            assert((seps(n) + nn)[i] == nn[i - seps(n).len()]);
        }
    }
    crate::text::lemma_trim_end_append_wsp(base, seps(n) + nn);
    assert(trim_end_spec(g.drop_last()) == trim_end_spec(base));
    assert(trim_end_spec(base) == base) by {
        let g0 = trim_end_spec(crate::writer::gaps_from(text, scan_spec(text).0, 0));
        let p0 = if g0.len() > 0 && g0.last() == '}' {
            g0.drop_last()
        } else {
            g0
        };
        assert(base == trim_end_spec(p0));
        crate::text::lemma_trim_end_idempotent(p0);
    }
}

/// Idempotence: regenerating a document that was itself just regenerated
/// from the same disk tree reproduces it byte for byte.
///
/// The document base (the text with its blocks deleted) must hold no further
/// declaration marker, and the tree's text fields must be free of quotes and
/// closing braces.
pub proof fn law_regenerate_idempotent(text: Seq<char>, disks: Seq<DiskView>)
    requires
        find_at(base_text(text), marker(), 0) is None,
        disks_clean(disks),
    ensures
        scan_spec(regen_spec(text, disks)).1 is None,
        regen_spec(regen_spec(text, disks), disks) == regen_spec(text, disks),
{
    let r = regen_spec(text, disks);
    let base = base_text(text);
    let pbs = preserved_blocks(text);
    let ebl = triple_blocks(disks_triples(disks));
    let units = pbs + ebl;
    lemma_regen_structure(text, disks);
    lemma_regen_preserved_recovers(text, disks);
    lemma_regen_base_recovers(text, disks);
    lemma_emitted_disks_as_inserted(disks);
    crate::writer::lemma_inserted_blocks_concat(pbs, ebl);
    assert(regen_spec(r, disks) == base_text(r) + inserted_blocks(preserved_blocks(r))
        + emitted_disks(disks) + doc_tail());
    assert(regen_spec(r, disks) =~= base + inserted_blocks(units) + doc_tail());
    assert(regen_spec(r, disks) == r);
}

/// Round trip: the regenerated document scans to its end, every block of it
/// parses, and its declarations are exactly the preserved critical blocks of
/// the original text followed by one declaration per emitted triple of the
/// disk tree — every non-critical mount point of every partition with a
/// stable identity path, in disk, partition and insertion order.
pub proof fn law_round_trip(text: Seq<char>, disks: Seq<DiskView>)
    requires
        find_at(base_text(text), marker(), 0) is None,
        disks_clean(disks),
        forall|k: int|
            0 <= k < preserved_blocks(text).len() ==> device_of(
                #[trigger] preserved_blocks(text)[k],
            ) is Some,
    ensures
        ({
            let r = regen_spec(text, disks);
            let pbs = preserved_blocks(text);
            let ts = disks_triples(disks);
            &&& crate::parser::extraction_ok(r)
            &&& crate::parser::decls_spec(r).len() == pbs.len() + ts.len()
            &&& (forall|k: int|
                0 <= k < pbs.len() ==> (#[trigger] crate::parser::decls_spec(r)[k]).text == pbs[k]
                    && crate::parser::decls_spec(r)[k].mount_point == key_of(pbs[k])->0
                    && is_critical(crate::parser::decls_spec(r)[k].mount_point))
            &&& (forall|k: int|
                0 <= k < ts.len() ==> {
                    let d = #[trigger] crate::parser::decls_spec(r)[pbs.len() + k];
                    &&& d.mount_point == ts[k].0
                    &&& d.device == ts[k].1
                    &&& d.fs_type == Some(ts[k].2)
                    &&& !is_critical(ts[k].0)
                })
        }),
{
    let r = regen_spec(text, disks);
    let base = base_text(text);
    let pbs = preserved_blocks(text);
    let ts = disks_triples(disks);
    let ebl = triple_blocks(ts);
    let units = pbs + ebl;
    let spans = unit_spans(units, base.len() as int);
    lemma_regen_structure(text, disks);
    lemma_preserved_facts(text);
    assert forall|k: int| 0 <= k < units.len() implies crate::parser::block_parses(
        crate::parser::block_at(r, #[trigger] scan_spec(r).0[k]),
    ) by {
        assert(crate::parser::block_at(r, spans[k]) == units[k]);
        if k < pbs.len() {
            assert(units[k] == pbs[k]);
            assert(crate::writer::is_protected_block(pbs[k]));
        } else {
            let t = ts[k - pbs.len()];
            assert(units[k] == triple_block(t));
            lemma_parse_emitted_block(t.0, t.1, t.2);
        }
    }
    assert(crate::parser::extraction_ok(r));
    assert(crate::parser::decls_spec(r).len() == pbs.len() + ts.len());
    assert forall|k: int| 0 <= k < pbs.len() implies (#[trigger] crate::parser::decls_spec(
        r,
    )[k]).text == pbs[k] && crate::parser::decls_spec(r)[k].mount_point == key_of(pbs[k])->0
        && is_critical(crate::parser::decls_spec(r)[k].mount_point) by {
        assert(crate::parser::decls_spec(r)[k] == crate::parser::decl_at(r, spans[k]));
        assert(crate::parser::block_at(r, spans[k]) == units[k]);
        assert(units[k] == pbs[k]);
        assert(crate::writer::is_protected_block(pbs[k]));
    }
    assert forall|k: int| 0 <= k < ts.len() implies {
        let d = #[trigger] crate::parser::decls_spec(r)[pbs.len() + k];
        &&& d.mount_point == ts[k].0
        &&& d.device == ts[k].1
        &&& d.fs_type == Some(ts[k].2)
        &&& !is_critical(ts[k].0)
    } by {
        let kk = pbs.len() + k;
        assert(crate::parser::decls_spec(r)[kk] == crate::parser::decl_at(r, spans[kk as int]));
        assert(crate::parser::block_at(r, spans[kk as int]) == units[kk as int]);
        assert(units[kk as int] == ebl[k]);
        let t = ts[k];
        assert(ebl[k] == triple_block(t));
        lemma_parse_emitted_block(t.0, t.1, t.2);
        assert(triple_clean(t));
    }
}

/// Round trip, carried to extraction: a mount point stands on some
/// partition of the index extracted from the regenerated document exactly
/// when it is the key of a preserved critical block of the original text or
/// a non-critical mount point of the disk tree.
pub proof fn law_round_trip_extraction(
    text: Seq<char>,
    disks: Seq<DiskView>,
    resolved: Seq<(Seq<char>, Seq<char>)>,
    mp: Seq<char>,
)
    requires
        find_at(base_text(text), marker(), 0) is None,
        disks_clean(disks),
        forall|k: int|
            0 <= k < preserved_blocks(text).len() ==> device_of(
                #[trigger] preserved_blocks(text)[k],
            ) is Some,
    ensures
        crate::parser::index_has_mount_point(
            crate::parser::index_spec(
                crate::parser::decls_spec(regen_spec(text, disks)),
                resolved,
            ),
            mp,
        ) <==> ((exists|k: int|
            0 <= k < preserved_blocks(text).len() && key_of(
                #[trigger] preserved_blocks(text)[k],
            ) == Some(mp)) || (exists|k: int|
            0 <= k < disks_triples(disks).len() && (#[trigger] disks_triples(disks)[k]).0 == mp)),
{
    let r = regen_spec(text, disks);
    let pbs = preserved_blocks(text);
    let ts = disks_triples(disks);
    let decls = crate::parser::decls_spec(r);
    law_round_trip(text, disks);
    crate::parser::lemma_index_spec_mount_points(decls, resolved, mp);
    lemma_preserved_facts(text);
    if crate::parser::decls_have_mount_point(decls, mp) {
        let w = choose|w: int| 0 <= w < decls.len() && (#[trigger] decls[w]).mount_point == mp;
        if w < pbs.len() {
            assert(key_of(pbs[w]) is Some) by {
                assert(crate::writer::is_protected_block(pbs[w]));
            }
            assert(key_of(pbs[w]) == Some(mp));
        } else {
            let k = w - pbs.len();
            assert(decls[pbs.len() + k].mount_point == ts[k].0);
            assert(ts[k].0 == mp);
        }
    }
    if exists|k: int|
        0 <= k < pbs.len() && key_of(#[trigger] pbs[k]) == Some(mp) {
        let k = choose|k: int| 0 <= k < pbs.len() && key_of(#[trigger] pbs[k]) == Some(mp);
        assert(decls[k].mount_point == mp);
        assert(crate::parser::decls_have_mount_point(decls, mp));
    }
    if exists|k: int| 0 <= k < ts.len() && (#[trigger] ts[k]).0 == mp {
        let k = choose|k: int| 0 <= k < ts.len() && (#[trigger] ts[k]).0 == mp;
        assert(decls[pbs.len() + k].mount_point == mp);
        assert(crate::parser::decls_have_mount_point(decls, mp));
    }
}

/// When no occurrence exists at or after `from`, the search finds nothing.
proof fn lemma_find_at_from_none(text: Seq<char>, pat: Seq<char>, from: int)
    requires
        0 <= from,
        forall|j: int| from <= j ==> !occurs_at(text, pat, j),
    ensures
        find_at(text, pat, from) is None,
{
    lemma_find_at(text, pat, from);
    match find_at(text, pat, from) {
        Some(i) => {
            assert(occurs_at(text, pat, i));
        },
        None => {},
    }
}

} // verus!
