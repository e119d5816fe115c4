//! Exchanging a part of a text for another text, and what that does to
//! the occurrences of a byte sequence in it.

use crate::search::{
    first_occurrence, lemma_first_occurrence_in_head, lemma_first_occurrence_in_tail,
    lemma_first_occurrence_of_head, lemma_occurs_in_head, lemma_occurs_in_tail, occurs_at,
};
use vstd::prelude::*;

verus! {

/// `document` with the bytes from `start` up to `end` exchanged for
/// `replacement`.
pub open spec fn spliced(document: Seq<u8>, start: int, end: int, replacement: Seq<u8>) -> Seq<u8> {
    document.subrange(0, start) + replacement + document.subrange(end, document.len() as int)
}

/// An occurrence that ends before a splice begins is not touched by it.
pub proof fn lemma_occurs_before_splice(
    document: Seq<u8>,
    start: int,
    end: int,
    replacement: Seq<u8>,
    needle: Seq<u8>,
    at: int,
)
    requires
        0 <= start <= end <= document.len(),
        at + needle.len() <= start,
    ensures
        occurs_at(spliced(document, start, end, replacement), needle, at) == occurs_at(
            document,
            needle,
            at,
        ),
{
    let head = document.subrange(0, start);
    let behind = document.subrange(start, document.len() as int);
    let tail = document.subrange(end, document.len() as int);
    assert(document =~= head + behind);
    assert(spliced(document, start, end, replacement) =~= head + (replacement + tail));
    lemma_occurs_in_head(head, behind, needle, at);
    lemma_occurs_in_head(head, replacement + tail, needle, at);
}

/// A search that ends before a splice begins is not touched by it.
pub proof fn lemma_first_occurrence_before_splice(
    document: Seq<u8>,
    start: int,
    end: int,
    replacement: Seq<u8>,
    needle: Seq<u8>,
    from: int,
)
    requires
        0 <= start <= end <= document.len(),
        0 <= from,
        first_occurrence(document, needle, from) matches Some(at) && at + needle.len() <= start,
    ensures
        first_occurrence(spliced(document, start, end, replacement), needle, from)
            == first_occurrence(document, needle, from),
{
    let head = document.subrange(0, start);
    let behind = document.subrange(start, document.len() as int);
    let tail = document.subrange(end, document.len() as int);
    assert(document =~= head + behind);
    assert(spliced(document, start, end, replacement) =~= head + (replacement + tail));
    lemma_first_occurrence_of_head(head, behind, needle, from);
    lemma_first_occurrence_in_head(head, replacement + tail, needle, from);
}

/// An occurrence that begins behind a splice moves with the text.
pub proof fn lemma_occurs_behind_splice(
    document: Seq<u8>,
    start: int,
    end: int,
    replacement: Seq<u8>,
    needle: Seq<u8>,
    at: int,
)
    requires
        0 <= start <= end <= document.len(),
        end <= at,
    ensures
        occurs_at(
            spliced(document, start, end, replacement),
            needle,
            at + replacement.len() - (end - start),
        ) == occurs_at(document, needle, at),
{
    let before = document.subrange(0, end);
    let head = document.subrange(0, start);
    let tail = document.subrange(end, document.len() as int);
    assert(document =~= before + tail);
    lemma_occurs_in_tail(before, tail, needle, at - end);
    lemma_occurs_in_tail(head + replacement, tail, needle, at - end);
}

/// A search that begins behind a splice moves with the text.
pub proof fn lemma_first_occurrence_behind_splice(
    document: Seq<u8>,
    start: int,
    end: int,
    replacement: Seq<u8>,
    needle: Seq<u8>,
    from: int,
)
    requires
        0 <= start <= end <= document.len(),
        end <= from,
    ensures
        first_occurrence(
            spliced(document, start, end, replacement),
            needle,
            from + replacement.len() - (end - start),
        ) == match first_occurrence(document, needle, from) {
            Some(at) => Some(at + replacement.len() - (end - start)),
            None => None,
        },
{
    let before = document.subrange(0, end);
    let head = document.subrange(0, start);
    let tail = document.subrange(end, document.len() as int);
    assert(document =~= before + tail);
    lemma_first_occurrence_in_tail(before, tail, needle, from - end);
    lemma_first_occurrence_in_tail(head + replacement, tail, needle, from - end);
}

} // verus!
