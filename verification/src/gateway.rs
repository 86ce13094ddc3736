//! The request gateway: from the path of a request to the exercise numbers it
//! asks for, and from the outcome of an extraction to the response.
//!
//! A path reads `/<number>[,<number>]*[.pdf]`, each number an optionally
//! signed decimal integer, no number twice.

use crate::decimal::{decimal_i32, parse_i32};
use crate::extractor::ExtractError;
use std::collections::HashSet;
use vstd::prelude::*;
use vstd::slice::slice_to_vec;
use vstd::string::StringSliceAdditionalSpecFns;

verus! {

broadcast use vstd::std_specs::hash::group_hash_axioms;

/// The byte `/`, with which a path begins.
pub const SLASH: u8 = 0x2f;

/// The byte `,`, which parts the numbers of a path.
pub const COMMA: u8 = 0x2c;

/// The extension that a path may end with, and that is passed over: `.pdf`.
pub const EXTENSION: [u8; 4] = [0x2e, 0x70, 0x64, 0x66];

/// The status of a response that carries a document.
pub const OK: u16 = 200;

/// The status of a response to a request that names nothing to be found.
pub const NOT_FOUND: u16 = 404;

/// The status of a response to a request that could not be served.
pub const INTERNAL_SERVER_ERROR: u16 = 500;

/// `s` ends with `suffix`.
pub open spec fn ends_with(s: Seq<u8>, suffix: Seq<u8>) -> bool {
    s.len() >= suffix.len() && s.skip(s.len() - suffix.len()) == suffix
}

/// The path without the extension, if it ends with it.
pub open spec fn without_extension(path: Seq<u8>) -> Seq<u8> {
    if ends_with(path, EXTENSION@) {
        path.take(path.len() - EXTENSION@.len())
    } else {
        path
    }
}

/// The fields of `s`: the runs of bytes that the commas of `s` part, from
/// left to right. There is one field more than there are commas, and a field
/// may be empty.
pub open spec fn fields(s: Seq<u8>) -> Seq<Seq<u8>>
    decreases s.len(),
{
    if s.len() == 0 {
        seq![Seq::empty()]
    } else {
        let before = fields(s.drop_last());
        if s.last() == COMMA {
            before.push(Seq::empty())
        } else {
            before.drop_last().push(before.last().push(s.last()))
        }
    }
}

/// The numbers that the fields denote, if every field denotes one.
pub open spec fn numbers(fields: Seq<Seq<u8>>) -> Option<Seq<i32>> {
    if forall|i: int| 0 <= i < fields.len() ==> decimal_i32(#[trigger] fields[i]) is Some {
        Some(Seq::new(fields.len(), |i: int| decimal_i32(fields[i]).unwrap()))
    } else {
        None
    }
}

/// The exercise numbers that the path asks for, if it is well formed: it
/// begins with `/`; what follows, up to the extension if there is one, is a
/// list of numbers parted by commas; and no number comes twice.
pub open spec fn requested_labels(path: Seq<u8>) -> Option<Seq<i32>> {
    if path.len() == 0 || path[0] != SLASH {
        None
    } else {
        match numbers(fields(without_extension(path).skip(1))) {
            Some(labels) => if labels.no_duplicates() {
                Some(labels)
            } else {
                None
            },
            None => None,
        }
    }
}

/// There is always at least one field.
pub proof fn lemma_fields_nonempty(s: Seq<u8>)
    ensures
        fields(s).len() >= 1,
    decreases s.len(),
{
    if s.len() > 0 {
        lemma_fields_nonempty(s.drop_last());
    }
}

/// Reading on never changes a field that a comma has closed: all fields of a
/// prefix of `s` but the last are fields of `s`, at the same places.
pub proof fn lemma_fields_prefix(s: Seq<u8>, k: int)
    requires
        0 <= k <= s.len(),
    ensures
        fields(s.take(k)).len() <= fields(s).len(),
        forall|j: int|
            0 <= j < fields(s.take(k)).len() - 1 ==> #[trigger] fields(s)[j] == fields(
                s.take(k),
            )[j],
    decreases s.len() - k,
{
    if k == s.len() {
        assert(s.take(k) =~= s);
    } else {
        lemma_fields_prefix(s, k + 1);
        lemma_fields_nonempty(s.take(k));
        assert(s.take(k + 1).drop_last() =~= s.take(k));
    }
}

/// Tells whether some number comes twice in `items`.
pub fn has_duplicate_elements(items: &[i32]) -> (r: bool)
    ensures
        r == !items@.no_duplicates(),
{
    let mut uniq: HashSet<i32> = HashSet::new();
    let mut i: usize = 0;
    while i < items.len()
        invariant
            i <= items.len(),
            forall|x: i32| uniq@.contains(x) <==> exists|j: int| 0 <= j < i && items@[j] == x,
            forall|a: int, b: int| 0 <= a < b < i ==> items@[a] != items@[b],
        decreases items.len() - i,
    {
        let x = items[i];
        if !uniq.insert(x) {
            proof {
                let j = choose|j: int| 0 <= j < i && items@[j] == x;
                assert(items@[j] == items@[i as int]);
            }
            return true;
        }
        proof {
            assert forall|y: i32| uniq@.contains(y) <==> exists|j: int|
                0 <= j < i + 1 && items@[j] == y by {
                if y == x {
                    assert(items@[i as int] == y);
                }
            }
        }
        i += 1;
    }
    false
}

/// Tells whether `s` ends with `suffix`.
fn has_suffix(s: &[u8], suffix: &[u8]) -> (r: bool)
    ensures
        r == ends_with(s@, suffix@),
{
    let n = s.len();
    let m = suffix.len();
    if n < m {
        return false;
    }
    let mut k: usize = 0;
    while k < m
        invariant
            m <= n,
            n == s.len(),
            m == suffix.len(),
            k <= m,
            forall|j: int| 0 <= j < k ==> s@[n - m + j] == suffix@[j],
        decreases m - k,
    {
        if s[n - m + k] != suffix[k] {
            assert(s@.skip(n - m)[k as int] != suffix@[k as int]);
            return false;
        }
        k += 1;
    }
    assert(s@.skip(n - m) =~= suffix@);
    true
}

/// Reads the list of numbers `list`, parted by commas.
fn parse_list(list: &[u8]) -> (r: Option<Vec<i32>>)
    ensures
        match r {
            Some(labels) => numbers(fields(list@)) == Some(labels@),
            None => numbers(fields(list@)) is None,
        },
{
    let n = list.len();
    let mut labels: Vec<i32> = Vec::new();
    let mut start: usize = 0;
    let mut i: usize = 0;
    let ghost mut closed: Seq<Seq<u8>> = Seq::empty();
    assert(list@.take(0) =~= Seq::<u8>::empty());
    assert(list@.subrange(0, 0) =~= Seq::<u8>::empty());
    assert(closed.push(list@.subrange(0, 0)) =~= seq![Seq::<u8>::empty()]);
    while i < n
        invariant
            n == list.len(),
            start <= i <= n,
            fields(list@.take(i as int)) == closed.push(list@.subrange(start as int, i as int)),
            labels@.len() == closed.len(),
            forall|j: int|
                0 <= j < closed.len() ==> decimal_i32(#[trigger] closed[j]) == Some(labels@[j]),
        decreases n - i,
    {
        proof {
            assert(list@.take(i + 1).drop_last() =~= list@.take(i as int));
            assert(list@.take(i + 1).last() == list@[i as int]);
        }
        if list[i] == COMMA {
            let field = &list[start..i];
            match parse_i32(field) {
                Some(label) => {
                    labels.push(label);
                },
                None => {
                    proof {
                        lemma_fields_prefix(list@, i + 1);
                        let all = fields(list@);
                        assert(all[closed.len() as int] == field@);
                        assert(decimal_i32(all[closed.len() as int]) is None);
                    }
                    return None;
                },
            }
            proof {
                closed = closed.push(field@);
                assert(list@.subrange(i + 1, i + 1) =~= Seq::<u8>::empty());
            }
            start = i + 1;
        } else {
            proof {
                let before = fields(list@.take(i as int));
                assert(before.drop_last() =~= closed);
                assert(before.last().push(list@[i as int]) =~= list@.subrange(
                    start as int,
                    i + 1,
                ));
            }
        }
        i += 1;
    }
    assert(list@.take(n as int) =~= list@);
    let field = &list[start..n];
    let ghost all = fields(list@);
    match parse_i32(field) {
        Some(label) => {
            labels.push(label);
            proof {
                assert forall|j: int| 0 <= j < all.len() implies decimal_i32(#[trigger] all[j])
                    == Some(labels@[j]) by {
                    if j < closed.len() {
                        assert(all[j] == closed[j]);
                    }
                }
                assert(labels@ =~= Seq::new(all.len(), |j: int| decimal_i32(all[j]).unwrap()));
            }
            Some(labels)
        },
        None => {
            assert(decimal_i32(all[closed.len() as int]) is None);
            None
        },
    }
}

/// Reads the path of a request: the exercise numbers that it asks for, or
/// `None` where the path is malformed or names a number twice.
pub fn parse_path(path: &[u8]) -> (r: Option<Vec<i32>>)
    ensures
        match r {
            Some(labels) => requested_labels(path@) == Some(labels@),
            None => requested_labels(path@) is None,
        },
{
    if path.len() == 0 || path[0] != SLASH {
        return None;
    }
    let extension = EXTENSION;
    let end = if has_suffix(path, extension.as_slice()) {
        path.len() - extension.len()
    } else {
        path.len()
    };
    // A path that is the extension alone does not begin with `/`.
    assert(end >= 1);
    let list = &path[1..end];
    assert(list@ =~= without_extension(path@).skip(1));
    let labels = match parse_list(list) {
        Some(labels) => labels,
        None => {
            return None;
        },
    };
    if has_duplicate_elements(labels.as_slice()) {
        return None;
    }
    Some(labels)
}

/// A response: its status, the type of its content, and its body.
#[derive(Debug, PartialEq, Eq)]
pub struct Response {
    pub status: u16,
    pub content_type: &'static str,
    pub body: Vec<u8>,
}

/// The response to a request that names nothing to be found: a malformed
/// path, a number named twice, or an exercise that the document lacks.
pub fn not_found() -> (response: Response)
    ensures
        response.status == NOT_FOUND,
        response.content_type@ == "text/plain"@,
        response.body@ == "Not found".spec_bytes(),
{
    Response {
        status: NOT_FOUND,
        content_type: "text/plain",
        body: slice_to_vec("Not found".as_bytes()),
    }
}

/// The response to a request that could not be served: the document is
/// invalid, it could not be decoded or encoded, or the extractor is out of
/// service.
pub fn internal_server_error() -> (response: Response)
    ensures
        response.status == INTERNAL_SERVER_ERROR,
        response.content_type@ == "text/plain"@,
        response.body@ == "Internal server error".spec_bytes(),
{
    Response {
        status: INTERNAL_SERVER_ERROR,
        content_type: "text/plain",
        body: slice_to_vec("Internal server error".as_bytes()),
    }
}

/// The response that carries the extracted document `bytes`.
pub fn found(bytes: Vec<u8>) -> (response: Response)
    ensures
        response.status == OK,
        response.content_type@ == "application/pdf"@,
        response.body@ == bytes@,
{
    Response { status: OK, content_type: "application/pdf", body: bytes }
}

/// How the handling of a request ended.
#[derive(Debug, PartialEq, Eq)]
pub enum Outcome {
    /// The path of the request was malformed, or named a number twice.
    /// Nothing was done for it.
    Rejected,
    /// The extractor could not be had: whoever held it last failed while
    /// holding it, and it is out of service from then on.
    Unavailable,
    /// An extraction ran, and ended as told: in the bytes of the extracted
    /// document, or in an error.
    Extracted(Result<Vec<u8>, ExtractError>),
}

/// The response to a request whose handling ended in `outcome`: the document
/// if there is one; not found if the request was rejected or an exercise is
/// missing; an internal error after any other failure.
pub fn respond(outcome: Outcome) -> (response: Response)
    ensures
        match outcome {
            Outcome::Extracted(Ok(bytes)) => {
                &&& response.status == OK
                &&& response.content_type@ == "application/pdf"@
                &&& response.body@ == bytes@
            },
            Outcome::Rejected | Outcome::Extracted(Err(ExtractError::MissingExercise)) => {
                &&& response.status == NOT_FOUND
                &&& response.content_type@ == "text/plain"@
                &&& response.body@ == "Not found".spec_bytes()
            },
            Outcome::Unavailable | Outcome::Extracted(Err(_)) => {
                &&& response.status == INTERNAL_SERVER_ERROR
                &&& response.content_type@ == "text/plain"@
                &&& response.body@ == "Internal server error".spec_bytes()
            },
        },
{
    match outcome {
        Outcome::Extracted(Ok(bytes)) => found(bytes),
        Outcome::Rejected => not_found(),
        Outcome::Extracted(Err(ExtractError::MissingExercise)) => not_found(),
        Outcome::Unavailable => internal_server_error(),
        Outcome::Extracted(Err(_)) => internal_server_error(),
    }
}

} // verus!
