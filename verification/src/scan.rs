//! Locating filesystem declaration blocks in configuration text.
//!
//! A declaration block starts at a fixed marker (`fileSystems."`) and runs to
//! the nearest following end delimiter (`};`). The scan is a simple forward
//! search, not a bracket-depth counter: a malformed or nested block after a
//! marker truncates that block early. A marker with no end delimiter at all
//! stops the scan, which reports the remainder of the text as unscanned.

use vstd::prelude::*;

use crate::text::find_at;
use crate::text::find_sub;
use crate::text::lemma_find_at;
use crate::text::occurs_at;

verus! {

/// The declaration marker, `fileSystems."`.
pub open spec fn marker() -> Seq<char> {
    seq!['f', 'i', 'l', 'e', 'S', 'y', 's', 't', 'e', 'm', 's', '.', '"']
}

/// The end delimiter of a declaration block, `};`.
pub open spec fn end_delim() -> Seq<char> {
    seq!['}', ';']
}

/// A double quote.
pub open spec fn quote() -> Seq<char> {
    seq!['"']
}

/// The key that introduces a block's device reference, `device = "`.
pub open spec fn device_key() -> Seq<char> {
    seq!['d', 'e', 'v', 'i', 'c', 'e', ' ', '=', ' ', '"']
}

/// The key that introduces a block's filesystem type, `fsType = "`.
pub open spec fn fstype_key() -> Seq<char> {
    seq!['f', 's', 'T', 'y', 'p', 'e', ' ', '=', ' ', '"']
}

pub proof fn lemma_marker_lit()
    ensures
        "fileSystems.\""@ == marker(),
{
    reveal_strlit("fileSystems.\"");
    assert("fileSystems.\""@ =~= marker());
}

pub proof fn lemma_end_delim_lit()
    ensures
        "};"@ == end_delim(),
{
    reveal_strlit("};");
    assert("};"@ =~= end_delim());
}

pub proof fn lemma_quote_lit()
    ensures
        "\""@ == quote(),
{
    reveal_strlit("\"");
    assert("\""@ =~= quote());
}

pub proof fn lemma_device_key_lit()
    ensures
        "device = \""@ == device_key(),
{
    reveal_strlit("device = \"");
    assert("device = \""@ =~= device_key());
}

pub proof fn lemma_fstype_key_lit()
    ensures
        "fsType = \""@ == fstype_key(),
{
    reveal_strlit("fsType = \"");
    assert("fsType = \""@ =~= fstype_key());
}

/// The spans of all declaration blocks at or after `pos`, in text order,
/// together with the position of a marker that has no end delimiter, if the
/// scan ran into one.
///
/// A span `(start, end)` runs from the marker to just past the end delimiter;
/// the scan resumes after each block, so text inside a block is never the
/// start of another block.
pub open spec fn scan_from(text: Seq<char>, pos: int) -> (Seq<(int, int)>, Option<int>)
    decreases text.len() - pos,
    via scan_from_decreases
{
    match find_at(text, marker(), pos) {
        None => (Seq::empty(), None),
        Some(m) => match find_at(text, end_delim(), m) {
            None => (Seq::empty(), Some(m)),
            Some(c) => {
                let rest = scan_from(text, c + 2);
                (seq![(m, c + 2)] + rest.0, rest.1)
            },
        },
    }
}

#[via_fn]
proof fn scan_from_decreases(text: Seq<char>, pos: int) {
    match find_at(text, marker(), pos) {
        None => {},
        Some(m) => {
            if pos < 0 {
                assert(find_at(text, marker(), pos) is None);
            }
            lemma_find_at(text, marker(), pos);
            match find_at(text, end_delim(), m) {
                None => {},
                Some(c) => {
                    lemma_find_at(text, end_delim(), m);
                },
            }
        },
    }
}

/// The scan of a whole text.
pub open spec fn scan_spec(text: Seq<char>) -> (Seq<(int, int)>, Option<int>) {
    scan_from(text, 0)
}

/// Every span a scan yields lies inside the text, in order, and starts with a
/// marker occurrence and ends with an end-delimiter occurrence.
pub proof fn lemma_scan_from_spans(text: Seq<char>, pos: int)
    requires
        0 <= pos <= text.len(),
    ensures
        forall|k: int|
            0 <= k < scan_from(text, pos).0.len() ==> {
                let span = #[trigger] scan_from(text, pos).0[k];
                &&& pos <= span.0
                &&& span.0 + marker().len() + 2 <= span.1 <= text.len()
                &&& occurs_at(text, marker(), span.0)
                &&& occurs_at(text, end_delim(), span.1 - 2)
                &&& (forall|j: int|
                    span.0 <= j < span.1 - 2 ==> !occurs_at(text, end_delim(), j))
                &&& (k + 1 < scan_from(text, pos).0.len() ==> span.1 <= scan_from(
                    text,
                    pos,
                ).0[k + 1].0)
            },
    decreases text.len() - pos,
{
    match find_at(text, marker(), pos) {
        None => {},
        Some(m) => {
            lemma_find_at(text, marker(), pos);
            match find_at(text, end_delim(), m) {
                None => {},
                Some(c) => {
                    lemma_find_at(text, end_delim(), m);
                    assert(text[m] == marker()[0]) by {
                        assert(text.subrange(m, m + marker().len())[0] == text[m]);
                    }
                    assert(text[c] == end_delim()[0]) by {
                        assert(text.subrange(c, c + 2)[0] == text[c]);
                    }
                    assert(c != m);
                    lemma_scan_from_spans(text, c + 2);
                    let rest = scan_from(text, c + 2).0;
                    let whole = scan_from(text, pos).0;
                    assert forall|k: int| 0 <= k < whole.len() implies {
                        let span = #[trigger] whole[k];
                        &&& pos <= span.0
                        &&& span.0 + marker().len() + 2 <= span.1 <= text.len()
                        &&& occurs_at(text, marker(), span.0)
                        &&& occurs_at(text, end_delim(), span.1 - 2)
                        &&& (forall|j: int|
                            span.0 <= j < span.1 - 2 ==> !occurs_at(text, end_delim(), j))
                        &&& (k + 1 < whole.len() ==> span.1 <= whole[k + 1].0)
                    } by {
                        if k == 0 {
                            assert(whole[0] == (m, c + 2));
                            assert(m + marker().len() <= c) by {
                                if m < m + marker().len() && m + marker().len() > c {
                                    assert(text.subrange(m, m + marker().len()) == marker());
                                    assert(text[c] == text.subrange(m, m + marker().len())[c - m]);
                                    assert(marker()[c - m] != '}');
                                }
                            }
                            if whole.len() > 1 {
                                assert(whole[1] == rest[0]);
                            }
                        } else {
                            assert(whole[k] == rest[k - 1]);
                            if k + 1 < whole.len() {
                                assert(whole[k + 1] == rest[k]);
                            }
                        }
                    }
                },
            }
        },
    }
}

/// Well-formedness of one located span: inside the text, past its marker,
/// ending at an end delimiter, and before the next span.
pub proof fn lemma_scan_span_wf(text: Seq<char>, k: int)
    requires
        0 <= k < scan_spec(text).0.len(),
    ensures
        ({
            let span = scan_spec(text).0[k];
            &&& 0 <= span.0
            &&& span.0 + marker().len() + 2 <= span.1 <= text.len()
            &&& occurs_at(text, marker(), span.0)
            &&& occurs_at(text, end_delim(), span.1 - 2)
            &&& (forall|j: int| span.0 <= j < span.1 - 2 ==> !occurs_at(text, end_delim(), j))
            &&& (k + 1 < scan_spec(text).0.len() ==> span.1 <= scan_spec(text).0[k + 1].0)
        }),
{
    lemma_scan_from_spans(text, 0);
    let span = scan_from(text, 0).0[k];
    assert(span == scan_spec(text).0[k]);
    if k + 1 < scan_spec(text).0.len() {
        assert(scan_from(text, 0).0[k + 1] == scan_spec(text).0[k + 1]);
    }
}

/// Result of locating the declaration blocks of a configuration text:
/// `(start, end)` character spans of each block in text order, and the
/// position of a marker that has no end delimiter, when the scan stopped at
/// one.
pub struct BlockScan {
    pub spans: Vec<(usize, usize)>,
    pub unterminated: Option<usize>,
}

/// Spans as mathematical pairs.
pub open spec fn spans_view(spans: Seq<(usize, usize)>) -> Seq<(int, int)> {
    spans.map_values(|p: (usize, usize)| (p.0 as int, p.1 as int))
}

impl BlockScan {
    /// The scan agrees with `scan_spec` on the given text.
    pub open spec fn matches(self, text: Seq<char>) -> bool {
        &&& spans_view(self.spans@) == scan_spec(text).0
        &&& (match (self.unterminated, scan_spec(text).1) {
            (None, None) => true,
            (Some(u), Some(v)) => u as int == v,
            _ => false,
        })
    }
}

/// Locates every declaration block in `text`: repeatedly finds the next
/// marker and its end delimiter. Terminates even when a marker has no end
/// delimiter; that case stops the scan and reports the rest of the text as
/// unscanned.
pub fn locate_blocks(text: &str) -> (r: BlockScan)
    ensures
        r.matches(text@),
{
    let text_len = text.unicode_len();
    let mut spans: Vec<(usize, usize)> = Vec::new();
    let mut pos: usize = 0;
    loop
        invariant
            pos <= text_len,
            text_len == text@.len(),
            scan_spec(text@).0 == spans_view(spans@) + scan_from(text@, pos as int).0,
            scan_spec(text@).1 == scan_from(text@, pos as int).1,
        decreases text_len - pos,
    {
        proof {
            lemma_marker_lit();
            lemma_end_delim_lit();
        }
        match find_sub(text, "fileSystems.\"", pos) {
            None => {
                assert(scan_from(text@, pos as int).0 =~= Seq::<(int, int)>::empty());
                assert(spans_view(spans@) + scan_from(text@, pos as int).0 =~= spans_view(spans@));
                return BlockScan { spans, unterminated: None };
            },
            Some(m) => {
                proof {
                    lemma_find_at(text@, marker(), pos as int);
                }
                match find_sub(text, "};", m) {
                    None => {
                        assert(spans_view(spans@) + scan_from(text@, pos as int).0 =~= spans_view(
                            spans@,
                        ));
                        return BlockScan { spans, unterminated: Some(m) };
                    },
                    Some(c) => {
                        proof {
                            lemma_find_at(text@, end_delim(), m as int);
                        }
                        assert(occurs_at(text@, end_delim(), c as int));
                        let ghost old_spans = spans@;
                        spans.push((m, c + 2));
                        proof {
                            let step = scan_from(text@, pos as int);
                            let rest = scan_from(text@, c + 2 as int);
                            assert(step.0 == seq![(m as int, c + 2 as int)] + rest.0);
                            assert(spans_view(spans@) =~= spans_view(old_spans) + seq![
                                (m as int, c + 2 as int),
                            ]);
                            assert(spans_view(old_spans) + step.0 =~= spans_view(spans@) + rest.0);
                        }
                        pos = c + 2;
                    },
                }
            },
        }
    }
}

/// The mount-point key of a block: the text between the first pair of
/// quotation marks after the first marker, or `None` when the block holds no
/// marker or no closing quote.
pub open spec fn key_of(block: Seq<char>) -> Option<Seq<char>> {
    match find_at(block, marker(), 0) {
        None => None,
        Some(m) => {
            let start = m + marker().len();
            match find_at(block, quote(), start) {
                None => None,
                Some(q) => Some(block.subrange(start, q)),
            }
        },
    }
}

/// Position just past the mount-point key's closing quote, from which the
/// block's remaining fields are read.
pub open spec fn after_key_of(block: Seq<char>) -> Option<int> {
    match find_at(block, marker(), 0) {
        None => None,
        Some(m) => match find_at(block, quote(), m + marker().len()) {
            None => None,
            Some(q) => Some(q + 1),
        },
    }
}

/// The quoted value following the first occurrence of `key` at or after
/// `from`: `None` when the key or its closing quote is missing.
pub open spec fn quoted_value_after(block: Seq<char>, key: Seq<char>, from: int) -> Option<
    Seq<char>,
> {
    match find_at(block, key, from) {
        None => None,
        Some(d) => {
            let vstart = d + key.len();
            match find_at(block, quote(), vstart) {
                None => None,
                Some(q) => Some(block.subrange(vstart, q)),
            }
        },
    }
}

/// The device reference of a block: the quoted value of its `device` key,
/// read after the mount-point key.
pub open spec fn device_of(block: Seq<char>) -> Option<Seq<char>> {
    match after_key_of(block) {
        None => None,
        Some(from) => quoted_value_after(block, device_key(), from),
    }
}

/// Position of the closing quote of the value following the first occurrence
/// of `key` at or after `from`.
pub open spec fn value_end_after(block: Seq<char>, key: Seq<char>, from: int) -> Option<int> {
    match find_at(block, key, from) {
        None => None,
        Some(d) => find_at(block, quote(), d + key.len()),
    }
}

/// Position just past the device value's closing quote.
pub open spec fn after_device_of(block: Seq<char>) -> Option<int> {
    match after_key_of(block) {
        None => None,
        Some(ak) => match value_end_after(block, device_key(), ak) {
            None => None,
            Some(q) => Some(q + 1),
        },
    }
}

/// The filesystem type of a block: the quoted value of its `fsType` key,
/// read after the device value.
pub open spec fn fstype_of(block: Seq<char>) -> Option<Seq<char>> {
    match after_device_of(block) {
        None => None,
        Some(from) => quoted_value_after(block, fstype_key(), from),
    }
}

/// Extracts the mount-point key from one declaration block.
pub fn extract_mount_point(block: &str) -> (r: Option<String>)
    ensures
        r.deep_view() == key_of(block@),
{
    let block_len = block.unicode_len();
    proof {
        lemma_marker_lit();
        lemma_quote_lit();
    }
    match find_sub(block, "fileSystems.\"", 0) {
        None => None,
        Some(m) => {
            proof {
                lemma_find_at(block@, marker(), 0);
            }
            assert(m + marker().len() <= block_len);
            let start = m + 13;
            assert(start as int == m + marker().len());
            match find_sub(block, "\"", start) {
                None => None,
                Some(q) => {
                    proof {
                        lemma_find_at(block@, quote(), start as int);
                    }
                    let s = block.substring_char(start, q);
                    Some(s.to_owned())
                },
            }
        },
    }
}

/// Position just past the mount-point key's closing quote.
fn find_after_key(block: &str) -> (r: Option<usize>)
    ensures
        match r {
            Some(i) => after_key_of(block@) == Some(i as int) && i <= block@.len(),
            None => after_key_of(block@) is None,
        },
{
    let block_len = block.unicode_len();
    proof {
        lemma_marker_lit();
        lemma_quote_lit();
    }
    match find_sub(block, "fileSystems.\"", 0) {
        None => None,
        Some(m) => {
            proof {
                lemma_find_at(block@, marker(), 0);
            }
            assert(m + marker().len() <= block_len);
            let start = m + 13;
            assert(start as int == m + marker().len());
            match find_sub(block, "\"", start) {
                None => None,
                Some(q) => {
                    proof {
                        lemma_find_at(block@, quote(), start as int);
                        assert(occurs_at(block@, quote(), q as int));
                        assert(q + 1 <= block_len);
                    }
                    Some(q + 1)
                },
            }
        },
    }
}

/// Extracts the quoted value of `key` from `block` at or after `from`.
fn extract_quoted_value(block: &str, key: &str, from: usize) -> (r: Option<String>)
    requires
        from <= block@.len(),
    ensures
        r.deep_view() == quoted_value_after(block@, key@, from as int),
{
    let block_len = block.unicode_len();
    proof {
        lemma_quote_lit();
    }
    match find_sub(block, key, from) {
        None => None,
        Some(d) => {
            proof {
                lemma_find_at(block@, key@, from as int);
                assert(occurs_at(block@, key@, d as int));
            }
            let key_len = key.unicode_len();
            assert(d + key_len <= block_len);
            let vstart = d + key_len;
            match find_sub(block, "\"", vstart) {
                None => None,
                Some(q) => {
                    proof {
                        lemma_find_at(block@, quote(), vstart as int);
                    }
                    let s = block.substring_char(vstart, q);
                    Some(s.to_owned())
                },
            }
        },
    }
}

/// Extracts the device reference from one declaration block.
pub fn extract_device(block: &str) -> (r: Option<String>)
    ensures
        r.deep_view() == device_of(block@),
{
    proof {
        lemma_device_key_lit();
    }
    match find_after_key(block) {
        None => None,
        Some(from) => extract_quoted_value(block, "device = \"", from),
    }
}

/// Position just past the device value's closing quote.
fn find_after_device(block: &str) -> (r: Option<usize>)
    ensures
        match r {
            Some(i) => after_device_of(block@) == Some(i as int) && i <= block@.len(),
            None => after_device_of(block@) is None,
        },
{
    let block_len = block.unicode_len();
    proof {
        lemma_device_key_lit();
        lemma_quote_lit();
    }
    match find_after_key(block) {
        None => None,
        Some(ak) => match find_sub(block, "device = \"", ak) {
            None => None,
            Some(d) => {
                proof {
                    lemma_find_at(block@, device_key(), ak as int);
                    assert(occurs_at(block@, device_key(), d as int));
                }
                assert(d + device_key().len() <= block_len);
                let vstart = d + 10;
                assert(vstart as int == d + device_key().len());
                match find_sub(block, "\"", vstart) {
                    None => None,
                    Some(q) => {
                        proof {
                            lemma_find_at(block@, quote(), vstart as int);
                            assert(occurs_at(block@, quote(), q as int));
                            assert(q + 1 <= block_len);
                        }
                        Some(q + 1)
                    },
                }
            },
        },
    }
}

/// Extracts the filesystem type from one declaration block.
pub fn extract_fs_type(block: &str) -> (r: Option<String>)
    ensures
        r.deep_view() == fstype_of(block@),
{
    proof {
        lemma_fstype_key_lit();
    }
    match find_after_device(block) {
        None => None,
        Some(from) => extract_quoted_value(block, "fsType = \"", from),
    }
}

} // verus!
