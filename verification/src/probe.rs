//! Parsing the text that live-system probes return: the kernel partition
//! listing, the per-device size query, and the per-device filesystem
//! metadata query.
//!
//! The probes themselves are external commands run by the surrounding
//! application; this module turns their raw output into structured values.

use vstd::prelude::*;

use crate::text::find_at;
use crate::text::find_sub;
use crate::text::is_prefix;
use crate::text::is_wsp;
use crate::text::is_wsp_char;
use crate::text::lemma_find_at;
use crate::text::occurs_at;
use crate::text::starts_with;
use crate::text::trim_end_spec;

verus! {

/// What probing one block device yields: its `/dev` path, its exact byte
/// size (`0` when unknown), and its optional filesystem metadata. A missing
/// `uuid` means the device has no stable identity and is never matched
/// against configuration.
#[derive(Debug, Clone)]
pub struct ProbedDevice {
    pub path: String,
    pub size: u64,
    pub fs_type: Option<String>,
    pub label: Option<String>,
    pub uuid: Option<String>,
}

/// Abstract value of a [`ProbedDevice`].
pub struct ProbedDeviceView {
    pub path: Seq<char>,
    pub size: u64,
    pub fs_type: Option<Seq<char>>,
    pub label: Option<Seq<char>>,
    pub uuid: Option<Seq<char>>,
}

impl View for ProbedDevice {
    type V = ProbedDeviceView;

    open spec fn view(&self) -> ProbedDeviceView {
        ProbedDeviceView {
            path: self.path@,
            size: self.size,
            fs_type: self.fs_type.deep_view(),
            label: self.label.deep_view(),
            uuid: self.uuid.deep_view(),
        }
    }
}

impl DeepView for ProbedDevice {
    type V = ProbedDeviceView;

    open spec fn deep_view(&self) -> ProbedDeviceView {
        self.view()
    }
}

/// Length of the longest non-whitespace prefix of `s`.
pub open spec fn token_len(s: Seq<char>) -> int
    decreases s.len(),
{
    if s.len() == 0 || is_wsp(s[0]) {
        0
    } else {
        1 + token_len(s.drop_first())
    }
}

pub proof fn lemma_token_len_bounds(s: Seq<char>)
    ensures
        0 <= token_len(s) <= s.len(),
        s.len() > 0 && !is_wsp(s[0]) ==> token_len(s) >= 1,
    decreases s.len(),
{
    if s.len() > 0 && !is_wsp(s[0]) {
        lemma_token_len_bounds(s.drop_first());
    }
}

/// The whitespace-separated fields of `s`, in order.
pub open spec fn ws_fields(s: Seq<char>) -> Seq<Seq<char>>
    decreases s.len(),
    via ws_fields_decreases
{
    if s.len() == 0 {
        Seq::empty()
    } else if is_wsp(s[0]) {
        ws_fields(s.drop_first())
    } else {
        let t = token_len(s);
        seq![s.subrange(0, t)] + ws_fields(s.subrange(t, s.len() as int))
    }
}

#[via_fn]
proof fn ws_fields_decreases(s: Seq<char>) {
    if s.len() > 0 && !is_wsp(s[0]) {
        lemma_token_len_bounds(s);
    }
}

/// The lines of `s`, split at newlines, each without a trailing carriage
/// return.
pub open spec fn chomp_cr(l: Seq<char>) -> Seq<char> {
    if l.len() > 0 && l.last() == '\r' {
        l.drop_last()
    } else {
        l
    }
}

pub open spec fn split_lines(s: Seq<char>) -> Seq<Seq<char>>
    decreases s.len(),
    via split_lines_decreases
{
    if s.len() == 0 {
        Seq::empty()
    } else {
        match find_at(s, seq!['\n'], 0) {
            None => seq![chomp_cr(s)],
            Some(i) => seq![chomp_cr(s.subrange(0, i))] + split_lines(
                s.subrange(i + 1, s.len() as int),
            ),
        }
    }
}

#[via_fn]
proof fn split_lines_decreases(s: Seq<char>) {
    if s.len() > 0 {
        match find_at(s, seq!['\n'], 0) {
            None => {},
            Some(i) => {
                lemma_find_at(s, seq!['\n'], 0);
            },
        }
    }
}

/// Virtual and optical devices, excluded from enumeration by name prefix.
pub open spec fn is_excluded_name(name: Seq<char>) -> bool {
    is_prefix(name, "zram"@) || is_prefix(name, "sr"@)
}

/// Whether a kernel listing name is excluded from enumeration.
pub fn should_skip_device(name: &str) -> (b: bool)
    ensures
        b == is_excluded_name(name@),
{
    starts_with(name, "zram") || starts_with(name, "sr")
}

/// The device paths one listing line contributes: the fourth field of the
/// line as `/dev/<name>`, unless the line is short or the name is excluded.
pub open spec fn line_device(line: Seq<char>) -> Seq<Seq<char>> {
    let f = ws_fields(line);
    if f.len() < 4 {
        Seq::empty()
    } else if is_excluded_name(f[3]) {
        Seq::empty()
    } else {
        seq!["/dev/"@ + f[3]]
    }
}

/// Device paths contributed by a sequence of listing lines.
pub open spec fn lines_devices(ls: Seq<Seq<char>>) -> Seq<Seq<char>>
    decreases ls.len(),
{
    if ls.len() == 0 {
        Seq::empty()
    } else {
        line_device(ls[0]) + lines_devices(ls.drop_first())
    }
}

/// The device paths of a whole kernel partition listing: every line after
/// the two header lines, in listing order.
pub open spec fn listing_paths(text: Seq<char>) -> Seq<Seq<char>> {
    let ls = split_lines(text);
    if ls.len() <= 2 {
        Seq::empty()
    } else {
        lines_devices(ls.skip(2))
    }
}

/// Splits one line into its whitespace-separated fields.
fn split_whitespace_fields(line: &str) -> (r: Vec<String>)
    ensures
        r.deep_view() == ws_fields(line@),
{
    let len = line.unicode_len();
    let mut out: Vec<String> = Vec::new();
    let mut i: usize = 0;
    assert(line@.skip(0) =~= line@);
    assert(out.deep_view() =~= Seq::<Seq<char>>::empty());
    while i < len
        invariant
            i <= len,
            len == line@.len(),
            ws_fields(line@) == out.deep_view() + ws_fields(line@.skip(i as int)),
        decreases len - i,
    {
        let ghost rest = line@.skip(i as int);
        assert(rest[0] == line@[i as int]);
        assert(rest.drop_first() =~= line@.skip(i + 1));
        if is_wsp_char(line.get_char(i)) {
            assert(ws_fields(rest) == ws_fields(line@.skip(i + 1)));
            i = i + 1;
        } else {
            let mut j: usize = i;
            proof {
                lemma_token_len_bounds(rest);
            }
            while j < len && !is_wsp_char(line.get_char(j))
                invariant
                    i <= j <= len,
                    len == line@.len(),
                    !is_wsp(line@[i as int]),
                    token_len(line@.skip(i as int)) == j - i + token_len(line@.skip(j as int)),
                decreases len - j,
            {
                let ghost rj = line@.skip(j as int);
                assert(rj[0] == line@[j as int]);
                assert(rj.drop_first() =~= line@.skip(j + 1));
                assert(token_len(rj) == 1 + token_len(line@.skip(j + 1)));
                j = j + 1;
            }
            proof {
                if j < len {
                    assert(token_len(line@.skip(j as int)) == 0);
                } else {
                    assert(line@.skip(j as int).len() == 0);
                    assert(token_len(line@.skip(j as int)) == 0);
                }
                assert(token_len(line@.skip(i as int)) == j - i);
            }
            let tok = line.substring_char(i, j);
            let ghost before = out.deep_view();
            out.push(tok.to_owned());
            proof {
                let t = token_len(rest);
                assert(rest.subrange(0, t) =~= line@.subrange(i as int, j as int));
                assert(rest.subrange(t, rest.len() as int) =~= line@.skip(j as int));
                assert(ws_fields(rest) == seq![rest.subrange(0, t)] + ws_fields(
                    line@.skip(j as int),
                ));
                assert(out.deep_view() =~= before.push(line@.subrange(i as int, j as int)));
                assert(out.deep_view() + ws_fields(line@.skip(j as int)) =~= before + ws_fields(
                    rest,
                ));
            }
            i = j;
        }
    }
    proof {
        assert(line@.skip(i as int).len() == 0);
        assert(ws_fields(line@.skip(i as int)) =~= Seq::<Seq<char>>::empty());
        assert(out.deep_view() + ws_fields(line@.skip(i as int)) =~= out.deep_view());
    }
    out
}

/// Splits text into lines at newlines, dropping a trailing carriage return
/// from each line.
fn split_text_lines(text: &str) -> (r: Vec<String>)
    ensures
        r.deep_view() == split_lines(text@),
{
    let text_len = text.unicode_len();
    let mut out: Vec<String> = Vec::new();
    let mut pos: usize = 0;
    assert(text@.skip(0) =~= text@);
    while pos < text_len
        invariant
            pos <= text_len,
            text_len == text@.len(),
            split_lines(text@) == out.deep_view() + split_lines(text@.skip(pos as int)),
        decreases text_len - pos,
    {
        let ghost rest = text@.skip(pos as int);
        let nl = find_sub(text, "\n", pos);
        proof {
            reveal_strlit("\n");
            assert("\n"@ =~= seq!['\n']);
            crate::text::lemma_find_at_concat_right(
                text@.subrange(0, pos as int),
                rest,
                seq!['\n'],
                pos as int,
            );
            assert(text@.subrange(0, pos as int) + rest =~= text@);
        }
        let (line_end, next_pos): (usize, usize) = match nl {
            Some(q) => {
                proof {
                    lemma_find_at(text@, seq!['\n'], pos as int);
                    assert(occurs_at(text@, seq!['\n'], q as int));
                }
                (q, q + 1)
            },
            None => (text_len, text_len),
        };
        let raw = text.substring_char(pos, line_end);
        let raw_len = line_end - pos;
        let line: String = if raw_len > 0 && raw.get_char(raw_len - 1) == '\r' {
            let chomped = raw.substring_char(0, raw_len - 1);
            assert(chomped@ =~= raw@.drop_last());
            chomped.to_owned()
        } else {
            raw.to_owned()
        };
        let ghost before = out.deep_view();
        out.push(line);
        proof {
            match find_at(rest, seq!['\n'], 0) {
                Some(i) => {
                    assert(nl matches Some(q) && i + pos as int == q as int);
                    assert(rest.subrange(0, i) =~= text@.subrange(pos as int, pos + i));
                    assert(rest.subrange(i + 1, rest.len() as int) =~= text@.skip(
                        pos as int + i + 1,
                    ));
                    assert(split_lines(rest) == seq![chomp_cr(rest.subrange(0, i))] + split_lines(
                        text@.skip(pos as int + i + 1),
                    ));
                },
                None => {
                    assert(nl is None);
                    assert(rest.len() > 0);
                    assert(rest =~= text@.subrange(pos as int, text_len as int));
                    assert(split_lines(rest) == seq![chomp_cr(rest)]);
                },
            }
            assert(out.deep_view() =~= before.push(chomp_cr(text@.subrange(
                pos as int,
                line_end as int,
            ))));
            assert(out.deep_view() + split_lines(text@.skip(next_pos as int)) =~= before
                + split_lines(rest));
        }
        pos = next_pos;
    }
    proof {
        assert(text@.skip(pos as int).len() == 0);
        assert(split_lines(text@.skip(pos as int)) =~= Seq::<Seq<char>>::empty());
        assert(out.deep_view() + split_lines(text@.skip(pos as int)) =~= out.deep_view());
    }
    out
}

/// Parses the kernel partition listing: skips the two header lines, takes
/// the fourth whitespace-separated field of each remaining line as a device
/// name, excludes virtual and optical devices, and returns `/dev/<name>`
/// paths in listing order. A short or malformed line is skipped, not fatal.
pub fn parse_proc_partitions(text: &str) -> (r: Vec<String>)
    ensures
        r.deep_view() == listing_paths(text@),
{
    let lines = split_text_lines(text);
    let ghost ls = split_lines(text@);
    let mut out: Vec<String> = Vec::new();
    if lines.len() <= 2 {
        assert(out.deep_view() =~= listing_paths(text@));
        return out;
    }
    let ghost tail = ls.skip(2);
    let mut i: usize = 2;
    assert(tail.take(0) =~= Seq::<Seq<char>>::empty());
    assert(out.deep_view() =~= lines_devices_prefix(tail, 0)) by {
        assert(lines_devices_prefix(tail, 0) =~= Seq::<Seq<char>>::empty());
    }
    while i < lines.len()
        invariant
            2 <= i <= lines.len(),
            ls == split_lines(text@),
            lines.deep_view() == ls,
            ls.len() == lines.len(),
            ls.len() > 2,
            tail == ls.skip(2),
            out.deep_view() == lines_devices_prefix(tail, i - 2),
        decreases lines.len() - i,
    {
        let line = &lines[i];
        assert(line@ == tail[i - 2]);
        let fields = split_whitespace_fields(line.as_str());
        if fields.len() >= 4 {
            let name = &fields[3];
            assert(name@ == ws_fields(line@)[3]);
            if !should_skip_device(name.as_str()) {
                let mut path = String::new();
                path.append("/dev/");
                path.append(name.as_str());
                assert(path@ =~= "/dev/"@ + name@);
                let ghost before = out.deep_view();
                out.push(path);
                assert(out.deep_view() =~= before.push("/dev/"@ + ws_fields(line@)[3]));
            }
        }
        proof {
            lemma_lines_devices_prefix_step(tail, i - 2);
            if ws_fields(tail[i - 2]).len() >= 4 && !is_excluded_name(ws_fields(tail[i - 2])[3]) {
                assert(line_device(tail[i - 2]) =~= seq!["/dev/"@ + ws_fields(tail[i - 2])[3]]);
                assert(out.deep_view() =~= lines_devices_prefix(tail, i - 1));
            } else {
                assert(line_device(tail[i - 2]) =~= Seq::<Seq<char>>::empty());
                assert(out.deep_view() =~= lines_devices_prefix(tail, i - 1));
            }
        }
        i = i + 1;
    }
    proof {
        lemma_lines_devices_prefix_all(tail);
        assert(listing_paths(text@) == lines_devices(tail));
    }
    out
}

/// Device paths contributed by the first `n` lines.
pub open spec fn lines_devices_prefix(ls: Seq<Seq<char>>, n: int) -> Seq<Seq<char>>
    decreases n,
{
    if n <= 0 {
        Seq::empty()
    } else {
        lines_devices_prefix(ls, n - 1) + line_device(ls[n - 1])
    }
}

proof fn lemma_lines_devices_prefix_step(ls: Seq<Seq<char>>, k: int)
    requires
        0 <= k,
    ensures
        lines_devices_prefix(ls, k + 1) == lines_devices_prefix(ls, k) + line_device(ls[k]),
{
}

proof fn lemma_lines_devices_prefix_all(ls: Seq<Seq<char>>)
    ensures
        lines_devices_prefix(ls, ls.len() as int) == lines_devices(ls),
    decreases ls.len(),
{
    lemma_lines_devices_eq(ls, ls.len() as int);
    assert(ls.take(ls.len() as int) =~= ls);
}

/// The prefix form and the recursive form agree.
proof fn lemma_lines_devices_eq(ls: Seq<Seq<char>>, n: int)
    requires
        0 <= n <= ls.len(),
    ensures
        lines_devices_prefix(ls, n) == lines_devices(ls.take(n)),
    decreases n,
{
    if n == 0 {
        assert(ls.take(0).len() == 0);
        assert(lines_devices(ls.take(0)) =~= Seq::<Seq<char>>::empty());
    } else {
        lemma_lines_devices_eq(ls, n - 1);
        lemma_lines_devices_snoc(ls.take(n - 1), ls[n - 1]);
        assert(ls.take(n) =~= ls.take(n - 1).push(ls[n - 1]));
    }
}

proof fn lemma_lines_devices_snoc(ls: Seq<Seq<char>>, l: Seq<char>)
    ensures
        lines_devices(ls.push(l)) == lines_devices(ls) + line_device(l),
    decreases ls.len(),
{
    if ls.len() == 0 {
        assert(ls.push(l)[0] == l);
        assert(ls.push(l).drop_first() =~= Seq::<Seq<char>>::empty());
        assert(lines_devices(Seq::<Seq<char>>::empty()) == Seq::<Seq<char>>::empty());
        assert(lines_devices(ls.push(l)) =~= line_device(l));
        assert(lines_devices(ls) + line_device(l) =~= line_device(l));
    } else {
        assert(ls.push(l)[0] == ls[0]);
        assert(ls.push(l).drop_first() =~= ls.drop_first().push(l));
        lemma_lines_devices_snoc(ls.drop_first(), l);
        assert(line_device(ls[0]) + (lines_devices(ls.drop_first()) + line_device(l)) =~= (
        line_device(ls[0]) + lines_devices(ls.drop_first())) + line_device(l));
    }
}

/// The value of the first `KEY="value"` tag with a non-empty value at or
/// after `pos`: the text between the key and the next quote. A tag with an
/// empty value is passed over and the search continues after it.
pub open spec fn kv_from(text: Seq<char>, key: Seq<char>, pos: int) -> Option<Seq<char>>
    decreases text.len() - pos,
    via kv_from_decreases
{
    match find_at(text, key, pos) {
        None => None,
        Some(d) => match find_at(text, crate::scan::quote(), d + key.len()) {
            None => None,
            Some(q) => if q == d + key.len() {
                kv_from(text, key, d + 1)
            } else {
                Some(text.subrange(d + key.len(), q))
            },
        },
    }
}

#[via_fn]
proof fn kv_from_decreases(text: Seq<char>, key: Seq<char>, pos: int) {
    match find_at(text, key, pos) {
        None => {},
        Some(d) => {
            if pos < 0 {
                assert(find_at(text, key, pos) is None);
            }
            lemma_find_at(text, key, pos);
            match find_at(text, crate::scan::quote(), d + key.len()) {
                None => {},
                Some(q) => {
                    lemma_find_at(text, crate::scan::quote(), d + key.len());
                },
            }
        },
    }
}

/// Extracts the value of the first non-empty `KEY="value"` tag in `text`.
pub fn extract_tag_value(text: &str, key: &str) -> (r: Option<String>)
    ensures
        r.deep_view() == kv_from(text@, key@, 0),
{
    let text_len = text.unicode_len();
    let key_len = key.unicode_len();
    let mut pos: usize = 0;
    loop
        invariant
            pos <= text_len,
            text_len == text@.len(),
            key_len == key@.len(),
            kv_from(text@, key@, 0) == kv_from(text@, key@, pos as int),
        decreases text_len - pos,
    {
        proof {
            crate::scan::lemma_quote_lit();
        }
        match find_sub(text, key, pos) {
            None => {
                return None;
            },
            Some(d) => {
                proof {
                    lemma_find_at(text@, key@, pos as int);
                    assert(occurs_at(text@, key@, d as int));
                }
                let vstart = d + key_len;
                match find_sub(text, "\"", vstart) {
                    None => {
                        return None;
                    },
                    Some(q) => {
                        proof {
                            lemma_find_at(text@, crate::scan::quote(), vstart as int);
                            assert(occurs_at(text@, crate::scan::quote(), q as int));
                        }
                        if q == vstart {
                            pos = d + 1;
                        } else {
                            let v = text.substring_char(vstart, q);
                            return Some(v.to_owned());
                        }
                    },
                }
            },
        }
    }
}

/// The filesystem type a metadata query reports.
pub open spec fn blkid_type(text: Seq<char>) -> Option<Seq<char>> {
    kv_from(text, "TYPE=\""@, 0)
}

/// The label a metadata query reports.
pub open spec fn blkid_label(text: Seq<char>) -> Option<Seq<char>> {
    kv_from(text, "LABEL=\""@, 0)
}

/// The filesystem UUID a metadata query reports.
pub open spec fn blkid_uuid(text: Seq<char>) -> Option<Seq<char>> {
    kv_from(text, "UUID=\""@, 0)
}

/// Parses the output of the per-device filesystem-identification query into
/// `(fs_type, label, uuid)`; each field is independently optional.
pub fn parse_blkid_output(text: &str) -> (r: (Option<String>, Option<String>, Option<String>))
    ensures
        r.0.deep_view() == blkid_type(text@),
        r.1.deep_view() == blkid_label(text@),
        r.2.deep_view() == blkid_uuid(text@),
{
    let fs_type = extract_tag_value(text, "TYPE=\"");
    let label = extract_tag_value(text, "LABEL=\"");
    let uuid = extract_tag_value(text, "UUID=\"");
    (fs_type, label, uuid)
}

/// `s` without its leading whitespace.
pub open spec fn trim_start_spec(s: Seq<char>) -> Seq<char>
    decreases s.len(),
{
    if s.len() > 0 && is_wsp(s[0]) {
        trim_start_spec(s.drop_first())
    } else {
        s
    }
}

/// `s` without leading and trailing whitespace.
pub open spec fn trim_spec(s: Seq<char>) -> Seq<char> {
    trim_start_spec(trim_end_spec(s))
}

/// A decimal digit.
pub open spec fn is_digit(c: char) -> bool {
    48 <= c as int <= 57
}

pub open spec fn all_digits(s: Seq<char>) -> bool {
    forall|i: int| 0 <= i < s.len() ==> is_digit(#[trigger] s[i])
}

/// The number a digit string denotes.
pub open spec fn digits_val(s: Seq<char>) -> int
    decreases s.len(),
{
    if s.len() == 0 {
        0
    } else {
        digits_val(s.drop_last()) * 10 + (s.last() as int - 48)
    }
}

/// The digits of a number, with an optional leading plus sign.
pub open spec fn numeric_body(s: Seq<char>) -> Seq<char> {
    if s.len() > 0 && s[0] == '+' {
        s.drop_first()
    } else {
        s
    }
}

/// The byte count a size query's output denotes: the trimmed text read as a
/// decimal number, or `0` on any parse failure. Callers treat `0` as
/// "unknown", never as an empty device.
pub open spec fn size_of_output(s: Seq<char>) -> u64 {
    let t = numeric_body(trim_spec(s));
    if t.len() > 0 && all_digits(t) && digits_val(t) <= u64::MAX {
        digits_val(t) as u64
    } else {
        0
    }
}

proof fn lemma_digits_val_nonneg(s: Seq<char>)
    requires
        all_digits(s),
    ensures
        digits_val(s) >= 0,
    decreases s.len(),
{
    if s.len() > 0 {
        assert(all_digits(s.drop_last())) by {
            assert(forall|i: int|
                0 <= i < s.len() - 1 ==> s.drop_last()[i] == #[trigger] s[i]);
        }
        lemma_digits_val_nonneg(s.drop_last());
    }
}

/// A digit string's value only grows as digits are appended.
proof fn lemma_digits_val_monotone(s: Seq<char>, k: int)
    requires
        all_digits(s),
        0 <= k <= s.len(),
    ensures
        digits_val(s) >= digits_val(s.take(k)),
    decreases s.len() - k,
{
    if k < s.len() {
        lemma_digits_val_monotone(s, k + 1);
        assert(s.take(k + 1).drop_last() =~= s.take(k));
        assert(s.take(k + 1).last() == s[k]);
        assert(all_digits(s.take(k))) by {
            assert(forall|i: int| 0 <= i < k ==> s.take(k)[i] == #[trigger] s[i]);
        }
        lemma_digits_val_nonneg(s.take(k));
        assert(digits_val(s.take(k + 1)) == digits_val(s.take(k)) * 10 + (s[k] as int - 48));
    } else {
        assert(s.take(k) =~= s);
    }
}

/// Copies `s` without leading or trailing whitespace.
fn trim(s: &str) -> (r: String)
    ensures
        r@ == trim_spec(s@),
{
    let t = crate::text::trim_end(s);
    let ghost te = trim_end_spec(s@);
    let tlen = t.as_str().unicode_len();
    let mut a: usize = 0;
    assert(te.skip(0) =~= te);
    while a < tlen && is_wsp_char(t.as_str().get_char(a))
        invariant
            a <= tlen,
            t@ == te,
            tlen == te.len(),
            trim_start_spec(te) == trim_start_spec(te.skip(a as int)),
        decreases tlen - a,
    {
        proof {
            let rest = te.skip(a as int);
            assert(rest[0] == te[a as int]);
            assert(rest.drop_first() =~= te.skip(a + 1));
        }
        a = a + 1;
    }
    proof {
        let rest = te.skip(a as int);
        if a < tlen {
            assert(rest[0] == te[a as int]);
            assert(!is_wsp(rest[0]));
        }
        assert(trim_start_spec(rest) == rest);
    }
    let r = t.as_str().substring_char(a, tlen);
    assert(r@ =~= te.skip(a as int));
    r.to_owned()
}

/// Parses the output of the per-device size query: the trimmed text as a
/// decimal byte count, or `0` on any parse failure.
pub fn parse_size_output(s: &str) -> (r: u64)
    ensures
        r == size_of_output(s@),
{
    let t = trim(s);
    let tlen = t.as_str().unicode_len();
    let start: usize = if tlen > 0 && t.as_str().get_char(0) == '+' {
        1
    } else {
        0
    };
    let ghost body = numeric_body(trim_spec(s@));
    proof {
        if start == 1 {
            assert(body =~= t@.skip(1));
        } else {
            assert(body =~= t@);
        }
    }
    if tlen == start {
        assert(body.len() == 0);
        return 0;
    }
    let mut val: u64 = 0;
    let mut k: usize = start;
    assert(body.take(0) =~= Seq::<char>::empty());
    while k < tlen
        invariant
            start <= k <= tlen,
            t@ == trim_spec(s@),
            tlen == t@.len(),
            start == 0 || start == 1,
            start == 1 ==> tlen > 0 && t@[0] == '+',
            start == 0 ==> !(tlen > 0 && t@[0] == '+'),
            body == numeric_body(trim_spec(s@)),
            body.len() == tlen - start,
            forall|m: int| 0 <= m < body.len() ==> body[m] == t@[m + start],
            all_digits(body.take(k - start)),
            val == digits_val(body.take(k - start)),
        decreases tlen - k,
    {
        let c = t.as_str().get_char(k);
        let v = c as u32;
        let ghost bk = k - start;
        assert(body[bk as int] == c);
        if v < 48 || v > 57 {
            assert(!is_digit(body[bk as int]));
            assert(!all_digits(body));
            return 0;
        }
        let d: u64 = (v - 48) as u64;
        assert(d <= 9);
        proof {
            assert(body.take(bk + 1).drop_last() =~= body.take(bk as int));
            assert(body.take(bk + 1).last() == body[bk as int]);
            assert(digits_val(body.take(bk + 1)) == digits_val(body.take(bk as int)) * 10 + (
            body[bk as int] as int - 48));
            assert(all_digits(body.take(bk + 1))) by {
                assert(forall|m: int|
                    0 <= m < bk + 1 ==> body.take(bk + 1)[m] == #[trigger] body[m]);
            }
        }
        let next = match val.checked_mul(10) {
            Some(m) => m.checked_add(d),
            None => None,
        };
        match next {
            Some(n) => {
                val = n;
            },
            None => {
                proof {
                    assert(digits_val(body.take(bk + 1)) > u64::MAX);
                    if all_digits(body) {
                        lemma_digits_val_monotone(body, bk + 1);
                        assert(digits_val(body) > u64::MAX);
                    }
                }
                return 0;
            },
        }
        k = k + 1;
    }
    proof {
        assert(body.take(k - start) =~= body);
        assert(body.len() > 0);
    }
    val
}

} // verus!
