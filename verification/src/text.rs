//! Verified text-scanning primitives: substring search, prefix tests and
//! trailing-whitespace trimming over character sequences.

use vstd::prelude::*;

verus! {

/// The pattern `pat` occurs in `text` at position `i`.
pub open spec fn occurs_at(text: Seq<char>, pat: Seq<char>, i: int) -> bool {
    &&& 0 <= i
    &&& i + pat.len() <= text.len()
    &&& text.subrange(i, i + pat.len()) == pat
}

/// `pat` occurs nowhere in `text` at or after `from`.
pub open spec fn no_occurrence_from(text: Seq<char>, pat: Seq<char>, from: int) -> bool {
    forall|j: int| from <= j ==> !occurs_at(text, pat, j)
}

/// Position of the first occurrence of `pat` in `text` at or after `from`.
pub open spec fn find_at(text: Seq<char>, pat: Seq<char>, from: int) -> Option<int>
    decreases text.len() - from,
{
    if from < 0 {
        None
    } else if from + pat.len() > text.len() {
        None
    } else if pat.len() == 0 {
        Some(from)
    } else if text.subrange(from, from + pat.len()) == pat {
        Some(from)
    } else {
        find_at(text, pat, from + 1)
    }
}

/// What `find_at` returns: the first occurrence at or after `from`, or `None`
/// when there is none.
pub proof fn lemma_find_at(text: Seq<char>, pat: Seq<char>, from: int)
    requires
        0 <= from,
    ensures
        match find_at(text, pat, from) {
            Some(i) => from <= i && occurs_at(text, pat, i) && (forall|j: int|
                from <= j < i ==> !occurs_at(text, pat, j)),
            None => no_occurrence_from(text, pat, from),
        },
    decreases text.len() - from,
{
    if from + pat.len() > text.len() {
        assert forall|j: int| from <= j implies !occurs_at(text, pat, j) by {}
    } else if pat.len() == 0 {
        assert(text.subrange(from, from) =~= pat);
    } else if text.subrange(from, from + pat.len()) == pat {
    } else {
        lemma_find_at(text, pat, from + 1);
    }
}

/// When `pat` does not occur in `[from, mid)`, searching from `from` and from
/// `mid` give the same result.
pub proof fn lemma_find_at_skip(text: Seq<char>, pat: Seq<char>, from: int, mid: int)
    requires
        0 <= from <= mid,
        forall|j: int| from <= j < mid ==> !occurs_at(text, pat, j),
    ensures
        find_at(text, pat, from) == find_at(text, pat, mid),
    decreases mid - from,
{
    if from < mid {
        assert(!occurs_at(text, pat, from));
        if from + pat.len() > text.len() {
            lemma_find_at_none_past_end(text, pat, from);
            lemma_find_at_none_past_end(text, pat, mid);
        } else {
            if pat.len() == 0 {
                assert(text.subrange(from, from) =~= pat);
                assert(false);
            }
            assert(text.subrange(from, from + pat.len()) != pat);
            lemma_find_at_skip(text, pat, from + 1, mid);
        }
    }
}

/// Searching from a position too close to the end finds nothing.
pub proof fn lemma_find_at_none_past_end(text: Seq<char>, pat: Seq<char>, from: int)
    requires
        from + pat.len() > text.len(),
    ensures
        find_at(text, pat, from) is None,
    decreases text.len() - from,
{
    if from >= 0 && from + pat.len() <= text.len() {
        assert(false);
    }
    if from < 0 {
    } else {
        assert(find_at(text, pat, from) is None);
    }
}

/// Searching a concatenation at or after the boundary is searching the right
/// part alone, shifted.
pub proof fn lemma_find_at_concat_right(a: Seq<char>, b: Seq<char>, pat: Seq<char>, from: int)
    requires
        a.len() <= from,
    ensures
        find_at(a + b, pat, from) == match find_at(b, pat, from - a.len()) {
            Some(i) => Some(i + a.len()),
            None => None::<int>,
        },
    decreases a.len() + b.len() - from,
{
    let t = a + b;
    if from + pat.len() > t.len() {
        lemma_find_at_none_past_end(b, pat, from - a.len());
    } else if pat.len() == 0 {
    } else {
        assert(t.subrange(from, from + pat.len()) =~= b.subrange(
            from - a.len(),
            from - a.len() + pat.len(),
        ));
        if t.subrange(from, from + pat.len()) == pat {
        } else {
            lemma_find_at_concat_right(a, b, pat, from + 1);
        }
    }
}

/// Compares `pat` against `text` at position `i`.
pub fn match_at(text: &str, i: usize, pat: &str) -> (b: bool)
    requires
        i + pat@.len() <= text@.len(),
    ensures
        b == occurs_at(text@, pat@, i as int),
{
    let text_len = text.unicode_len();
    let pat_len = pat.unicode_len();
    let mut k: usize = 0;
    while k < pat_len
        invariant
            k <= pat_len,
            text_len == text@.len(),
            pat_len == pat@.len(),
            i + pat_len <= text_len,
            forall|m: int| 0 <= m < k ==> text@[i + m] == pat@[m],
        decreases pat_len - k,
    {
        if text.get_char(i + k) != pat.get_char(k) {
            assert(text@.subrange(i as int, i + pat@.len())[k as int] != pat@[k as int]);
            return false;
        }
        k = k + 1;
    }
    assert(text@.subrange(i as int, i + pat@.len()) =~= pat@);
    true
}

/// First occurrence of `pat` in `text` at or after `from`, as a character
/// index.
pub fn find_sub(text: &str, pat: &str, from: usize) -> (r: Option<usize>)
    requires
        from <= text@.len(),
    ensures
        match r {
            Some(i) => find_at(text@, pat@, from as int) == Some(i as int),
            None => find_at(text@, pat@, from as int) is None,
        },
{
    let text_len = text.unicode_len();
    let pat_len = pat.unicode_len();
    if pat_len == 0 {
        assert(text@.subrange(from as int, from as int) =~= pat@);
        return Some(from);
    }
    if pat_len > text_len - from {
        proof {
            lemma_find_at_none_past_end(text@, pat@, from as int);
        }
        return None;
    }
    let last_start = text_len - pat_len;
    let mut i: usize = from;
    while i <= last_start
        invariant
            from <= i <= last_start + 1,
            text_len == text@.len(),
            pat_len == pat@.len(),
            1 <= pat_len <= text_len,
            last_start == text_len - pat_len,
            find_at(text@, pat@, from as int) == find_at(text@, pat@, i as int),
        decreases last_start + 1 - i,
    {
        if match_at(text, i, pat) {
            assert(text@.subrange(i as int, i + pat@.len()) == pat@);
            assert(find_at(text@, pat@, i as int) == Some(i as int));
            return Some(i);
        }
        assert(find_at(text@, pat@, i as int) == find_at(text@, pat@, i + 1));
        i = i + 1;
    }
    proof {
        lemma_find_at_none_past_end(text@, pat@, i as int);
    }
    None
}

/// `inner` is a prefix of `text`.
pub open spec fn is_prefix(text: Seq<char>, inner: Seq<char>) -> bool {
    inner.len() <= text.len() && text.subrange(0, inner.len() as int) == inner
}

/// Whether `text` starts with `pat`.
pub fn starts_with(text: &str, pat: &str) -> (b: bool)
    ensures
        b == is_prefix(text@, pat@),
{
    let text_len = text.unicode_len();
    let pat_len = pat.unicode_len();
    if pat_len > text_len {
        return false;
    }
    let r = match_at(text, 0, pat);
    assert(occurs_at(text@, pat@, 0) == is_prefix(text@, pat@));
    r
}

/// The whitespace characters that trimming recognizes.
pub open spec fn is_wsp(c: char) -> bool {
    c == ' ' || c == '\t' || c == '\n' || c == '\r'
}

/// `s` without its trailing whitespace.
pub open spec fn trim_end_spec(s: Seq<char>) -> Seq<char>
    decreases s.len(),
{
    if s.len() > 0 && is_wsp(s.last()) {
        trim_end_spec(s.drop_last())
    } else {
        s
    }
}

/// Executable whitespace test.
pub fn is_wsp_char(c: char) -> (b: bool)
    ensures
        b == is_wsp(c),
{
    c == ' ' || c == '\t' || c == '\n' || c == '\r'
}

/// Copies `s` without its trailing whitespace.
pub fn trim_end(s: &str) -> (r: String)
    ensures
        r@ == trim_end_spec(s@),
{
    let len = s.unicode_len();
    let mut j: usize = len;
    assert(s@.take(len as int) =~= s@);
    while j > 0 && is_wsp_char(s.get_char(j - 1))
        invariant
            j <= len,
            len == s@.len(),
            trim_end_spec(s@) == trim_end_spec(s@.take(j as int)),
        decreases j,
    {
        proof {
            assert(s@.take(j as int).last() == s@[j - 1]);
            assert(s@.take(j as int).drop_last() =~= s@.take(j - 1));
        }
        j = j - 1;
    }
    proof {
        if j > 0 {
            assert(!is_wsp(s@.take(j as int).last()));
        }
        assert(trim_end_spec(s@.take(j as int)) == s@.take(j as int));
    }
    let r = s.substring_char(0, j);
    assert(r@ =~= s@.take(j as int));
    r.to_owned()
}

/// Trimming removes a whole trailing run of whitespace: appending whitespace
/// does not change the trimmed value.
pub proof fn lemma_trim_end_append_wsp(a: Seq<char>, w: Seq<char>)
    requires
        forall|i: int| 0 <= i < w.len() ==> is_wsp(w[i]),
    ensures
        trim_end_spec(a + w) == trim_end_spec(a),
    decreases w.len(),
{
    if w.len() == 0 {
        assert(a + w =~= a);
    } else {
        assert((a + w).last() == w.last());
        assert((a + w).drop_last() =~= a + w.drop_last());
        lemma_trim_end_append_wsp(a, w.drop_last());
    }
}

/// A trimmed value trims to itself.
pub proof fn lemma_trim_end_idempotent(s: Seq<char>)
    ensures
        trim_end_spec(trim_end_spec(s)) == trim_end_spec(s),
    decreases s.len(),
{
    if s.len() > 0 && is_wsp(s.last()) {
        lemma_trim_end_idempotent(s.drop_last());
    }
}

} // verus!
