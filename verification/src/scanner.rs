//! The marker scanner: from the drawing instructions of one page to the
//! exercise number that the page announces, if it announces one.
//!
//! A page announces an exercise by drawing the word "Exercice" followed by the
//! number. In the content stream the word shows up in one of two spellings,
//! and the number as the next parenthesised token after it.

use crate::decimal::{decimal_i32, parse_i32};
use vstd::prelude::*;
use vstd::utf8::{
    is_char_boundary_iff_not_is_continuation_byte, is_leading_byte_width_1,
    partial_valid_partial_invalid_utf8, partial_valid_utf8_extend_ascii_block, valid_utf8,
    valid_utf8_concat, valid_utf8_split,
};

verus! {

/// The kerned spelling of the marker, split into glyph runs around a kerning
/// adjustment: `(EXER)31(CICE)`.
pub const KERNED_MARKER: [u8; 14] = [
    0x28, 0x45, 0x58, 0x45, 0x52, 0x29, 0x33, 0x31, 0x28, 0x43, 0x49, 0x43, 0x45, 0x29,
];

/// The plain spelling of the marker: `(Exercice)`.
pub const PLAIN_MARKER: [u8; 10] = [0x28, 0x45, 0x78, 0x65, 0x72, 0x63, 0x69, 0x63, 0x65, 0x29];

/// The byte `(`, which opens a token.
pub const OPEN_PAREN: u8 = 0x28;

/// The byte `)`, which closes a token.
pub const CLOSE_PAREN: u8 = 0x29;

/// `pat` stands in `s` at index `i`.
pub open spec fn occurs_at(s: Seq<u8>, pat: Seq<u8>, i: int) -> bool {
    &&& 0 <= i
    &&& i + pat.len() <= s.len()
    &&& s.subrange(i, i + pat.len()) == pat
}

/// `pat` stands in `s` at index `i`, and at no index before `i`.
pub open spec fn is_first_occurrence(s: Seq<u8>, pat: Seq<u8>, i: int) -> bool {
    &&& occurs_at(s, pat, i)
    &&& forall|j: int| 0 <= j < i ==> !occurs_at(s, pat, j)
}

/// `pat` stands nowhere in `s`.
pub open spec fn absent(s: Seq<u8>, pat: Seq<u8>) -> bool {
    forall|i: int| !occurs_at(s, pat, i)
}

/// The least index at which `pat` stands in `s`, if it stands there at all.
pub open spec fn first_occurrence(s: Seq<u8>, pat: Seq<u8>) -> Option<int> {
    if exists|i: int| is_first_occurrence(s, pat, i) {
        Some(choose|i: int| is_first_occurrence(s, pat, i))
    } else {
        None
    }
}

/// The token that follows in `rest`: what stands between the first `(` and
/// the first `)` after that `(`. There is none where either is missing.
pub open spec fn token_after(rest: Seq<u8>) -> Option<Seq<u8>> {
    match first_occurrence(rest, seq![OPEN_PAREN]) {
        Some(open) => {
            let tail = rest.skip(open + 1);
            match first_occurrence(tail, seq![CLOSE_PAREN]) {
                Some(close) => Some(tail.take(close)),
                None => None,
            }
        },
        None => None,
    }
}

/// The number that follows in `rest`: the next token, read as a decimal
/// integer.
pub open spec fn number_after(rest: Seq<u8>) -> Option<i32> {
    match token_after(rest) {
        Some(token) => decimal_i32(token),
        None => None,
    }
}

/// The number announced in `s` under the spelling `marker`: the number that
/// follows the first occurrence of `marker`.
pub open spec fn label_after(s: Seq<u8>, marker: Seq<u8>) -> Option<i32> {
    match first_occurrence(s, marker) {
        Some(i) => number_after(s.skip(i + marker.len())),
        None => None,
    }
}

/// The exercise number that a page with content `s` announces.
///
/// Content that is not UTF-8 text announces nothing. Otherwise the kerned
/// spelling is looked for first; if it is absent, or what follows it is not a
/// number, the plain spelling is looked for.
pub open spec fn label_in(s: Seq<u8>) -> Option<i32> {
    if !valid_utf8(s) {
        None
    } else if label_after(s, KERNED_MARKER@) is Some {
        label_after(s, KERNED_MARKER@)
    } else {
        label_after(s, PLAIN_MARKER@)
    }
}

/// An index at which `pat` stands, with no occurrence before it, is the first
/// occurrence.
pub proof fn lemma_first_occurrence_is(s: Seq<u8>, pat: Seq<u8>, i: int)
    requires
        is_first_occurrence(s, pat, i),
    ensures
        first_occurrence(s, pat) == Some(i),
{
    let c = choose|c: int| is_first_occurrence(s, pat, c);
    if c < i {
        assert(!occurs_at(s, pat, c));
    } else if i < c {
        assert(!occurs_at(s, pat, i));
    }
}

/// A pattern that stands nowhere has no first occurrence.
pub proof fn lemma_first_occurrence_none(s: Seq<u8>, pat: Seq<u8>)
    requires
        absent(s, pat),
    ensures
        first_occurrence(s, pat) is None,
{
    if exists|i: int| is_first_occurrence(s, pat, i) {
        let c = choose|c: int| is_first_occurrence(s, pat, c);
        assert(!occurs_at(s, pat, c));
    }
}

/// Text stays text, and other bytes stay other bytes, whatever run of ASCII
/// is put between two parts of it: `before + mid + after` is UTF-8 exactly
/// when `before` and `after` both are.
pub proof fn lemma_ascii_infix_utf8(before: Seq<u8>, mid: Seq<u8>, after: Seq<u8>)
    requires
        mid.len() > 0,
        forall|i: int| 0 <= i < mid.len() ==> #[trigger] mid[i] < 0x80,
    ensures
        valid_utf8(before + mid + after) <==> valid_utf8(before) && valid_utf8(after),
{
    let s = before + mid + after;
    let start = before.len() as int;
    let end = start + mid.len();
    assert(s.subrange(0, start) =~= before);
    assert(s.subrange(end, s.len() as int) =~= after);
    assert forall|i: int|
        0 <= start <= i < end <= s.len() implies #[trigger] is_leading_byte_width_1(s[i]) by {
        assert(s[i] == mid[i - start]);
    }
    if valid_utf8(s) {
        // The run begins a character, so `before` is text; the run is text;
        // and were `after` not text, neither would the whole be.
        assert(s[start] == mid[0]);
        is_char_boundary_iff_not_is_continuation_byte(s, start);
        valid_utf8_split(s, start);
        partial_valid_utf8_extend_ascii_block(s, start, end);
        if !valid_utf8(after) {
            partial_valid_partial_invalid_utf8(s, end);
        }
    }
    if valid_utf8(before) && valid_utf8(after) {
        partial_valid_utf8_extend_ascii_block(s, start, end);
        valid_utf8_concat(s.subrange(0, end), after);
        assert(s.subrange(0, end) + after =~= s);
    }
}

/// Where `marker` first stands right after `before`, the number announced
/// under it is the number that follows in `after`.
pub proof fn lemma_label_after_marker(before: Seq<u8>, marker: Seq<u8>, after: Seq<u8>)
    requires
        is_first_occurrence(before + marker + after, marker, before.len() as int),
    ensures
        label_after(before + marker + after, marker) == number_after(after),
{
    let s = before + marker + after;
    lemma_first_occurrence_is(s, marker, before.len() as int);
    assert(s.skip((before.len() + marker.len()) as int) =~= after);
}

/// Under a spelling that stands nowhere, nothing is announced.
pub proof fn lemma_label_after_absent(s: Seq<u8>, marker: Seq<u8>)
    requires
        absent(s, marker),
    ensures
        label_after(s, marker) is None,
{
    lemma_first_occurrence_none(s, marker);
}

/// Both spellings of the marker are plain ASCII.
pub proof fn lemma_markers_are_ascii()
    ensures
        forall|i: int| 0 <= i < KERNED_MARKER@.len() ==> #[trigger] KERNED_MARKER@[i] < 0x80,
        forall|i: int| 0 <= i < PLAIN_MARKER@.len() ==> #[trigger] PLAIN_MARKER@[i] < 0x80,
{
}

/// The two spellings of the marker are interchangeable.
///
/// Take a content that holds the marker once, in the kerned spelling, and the
/// content that differs from it only in holding the plain spelling at that
/// place. Both announce the same exercise number, or both announce none.
pub proof fn lemma_spellings_agree(before: Seq<u8>, after: Seq<u8>)
    requires
        is_first_occurrence(before + KERNED_MARKER@ + after, KERNED_MARKER@, before.len() as int),
        absent(before + KERNED_MARKER@ + after, PLAIN_MARKER@),
        is_first_occurrence(before + PLAIN_MARKER@ + after, PLAIN_MARKER@, before.len() as int),
        absent(before + PLAIN_MARKER@ + after, KERNED_MARKER@),
    ensures
        label_in(before + KERNED_MARKER@ + after) == label_in(before + PLAIN_MARKER@ + after),
{
    let kerned = before + KERNED_MARKER@ + after;
    let plain = before + PLAIN_MARKER@ + after;
    assert(valid_utf8(kerned) == valid_utf8(plain)) by {
        lemma_markers_are_ascii();
        lemma_ascii_infix_utf8(before, KERNED_MARKER@, after);
        lemma_ascii_infix_utf8(before, PLAIN_MARKER@, after);
    }
    assert(label_after(kerned, KERNED_MARKER@) == number_after(after)) by {
        lemma_label_after_marker(before, KERNED_MARKER@, after);
    }
    assert(label_after(kerned, PLAIN_MARKER@) is None) by {
        lemma_label_after_absent(kerned, PLAIN_MARKER@);
    }
    assert(label_after(plain, PLAIN_MARKER@) == number_after(after)) by {
        lemma_label_after_marker(before, PLAIN_MARKER@, after);
    }
    assert(label_after(plain, KERNED_MARKER@) is None) by {
        lemma_label_after_absent(plain, KERNED_MARKER@);
    }
}

/// Whether `bytes` is UTF-8 text, as `core::str::from_utf8` judges it.
///
/// Taken on trust, not proved: `from_utf8` succeeds on exactly the byte
/// sequences that are well-formed UTF-8, which is what `valid_utf8` says of a
/// sequence.
#[verifier::external_body]
fn is_utf8(bytes: &[u8]) -> (ok: bool)
    ensures
        ok == valid_utf8(bytes@),
{
    core::str::from_utf8(bytes).is_ok()
}

/// Tells whether `pat` stands in `s` at index `i`.
fn matches_at(s: &[u8], pat: &[u8], i: usize) -> (r: bool)
    requires
        i + pat.len() <= s.len(),
    ensures
        r == occurs_at(s@, pat@, i as int),
{
    let m = pat.len();
    let mut k: usize = 0;
    while k < m
        invariant
            k <= m,
            m == pat.len(),
            i + m <= s.len(),
            forall|j: int| 0 <= j < k ==> s@[i + j] == pat@[j],
        decreases m - k,
    {
        if s[i + k] != pat[k] {
            assert(s@.subrange(i as int, i + m)[k as int] != pat@[k as int]);
            return false;
        }
        k += 1;
    }
    assert(s@.subrange(i as int, i + m) =~= pat@);
    true
}

/// Finds the first occurrence of `pat` in `s`: the least index at which it
/// stands, or `None` if it stands nowhere.
pub fn find(s: &[u8], pat: &[u8]) -> (r: Option<usize>)
    ensures
        match r {
            Some(i) => is_first_occurrence(s@, pat@, i as int) && first_occurrence(s@, pat@)
                == Some(i as int),
            None => absent(s@, pat@) && first_occurrence(s@, pat@) is None,
        },
{
    let n = s.len();
    let m = pat.len();
    if m > n {
        proof {
            lemma_first_occurrence_none(s@, pat@);
        }
        return None;
    }
    let last = n - m;
    let mut i: usize = 0;
    loop
        invariant
            n == s.len(),
            m == pat.len(),
            last == n - m,
            i <= last,
            forall|j: int| 0 <= j < i ==> !occurs_at(s@, pat@, j),
        decreases last - i,
    {
        if matches_at(s, pat, i) {
            proof {
                lemma_first_occurrence_is(s@, pat@, i as int);
            }
            return Some(i);
        }
        if i == last {
            proof {
                lemma_first_occurrence_none(s@, pat@);
            }
            return None;
        }
        i += 1;
    }
}

/// Finds the first occurrence of the byte `b` in `s`.
fn find_byte(s: &[u8], b: u8) -> (r: Option<usize>)
    ensures
        match r {
            Some(i) => is_first_occurrence(s@, seq![b], i as int) && first_occurrence(s@, seq![b])
                == Some(i as int),
            None => absent(s@, seq![b]) && first_occurrence(s@, seq![b]) is None,
        },
{
    let n = s.len();
    let ghost pat = seq![b];
    let mut i: usize = 0;
    while i < n
        invariant
            n == s.len(),
            i <= n,
            pat == seq![b],
            forall|j: int| 0 <= j < i ==> !occurs_at(s@, pat, j),
        decreases n - i,
    {
        if s[i] == b {
            proof {
                assert(s@.subrange(i as int, i + 1) =~= pat);
                lemma_first_occurrence_is(s@, pat, i as int);
            }
            return Some(i);
        }
        assert(s@.subrange(i as int, i + 1)[0] != pat[0]);
        i += 1;
    }
    proof {
        lemma_first_occurrence_none(s@, pat);
    }
    None
}

/// Reads the number announced in `s` under the spelling `marker`.
fn read_after(s: &[u8], marker: &[u8]) -> (r: Option<i32>)
    ensures
        r == label_after(s@, marker@),
{
    let i = match find(s, marker) {
        Some(i) => i,
        None => {
            return None;
        },
    };
    assert(i + marker.len() <= s.len());
    let after = i + marker.len();
    let rest = &s[after..s.len()];
    assert(rest@ =~= s@.skip(i + marker.len()));
    let open = match find_byte(rest, OPEN_PAREN) {
        Some(open) => open,
        None => {
            return None;
        },
    };
    let tail = &rest[open + 1..rest.len()];
    assert(tail@ =~= rest@.skip(open + 1));
    let close = match find_byte(tail, CLOSE_PAREN) {
        Some(close) => close,
        None => {
            return None;
        },
    };
    let token = &tail[0..close];
    assert(token@ =~= tail@.take(close as int));
    assert(token_after(rest@) == Some(token@));
    parse_i32(token)
}

/// Scans the content of one page for the exercise number that it announces.
///
/// Never fails: content that is not text, that holds no marker, or whose
/// marker is not followed by a number, announces nothing.
pub fn scan_label(content: &[u8]) -> (r: Option<i32>)
    ensures
        r == label_in(content@),
{
    if !is_utf8(content) {
        return None;
    }
    let kerned = KERNED_MARKER;
    let found = read_after(content, kerned.as_slice());
    if found.is_some() {
        return found;
    }
    let plain = PLAIN_MARKER;
    read_after(content, plain.as_slice())
}

} // verus!
