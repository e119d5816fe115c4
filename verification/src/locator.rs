//! Finding the region of an identifier in a document.

use crate::marker::{end_token, lemma_token_ends, start_token, Marker};
use crate::search::{find_from, first_occurrence, lemma_first_occurrence, occurs_at};
use crate::text::{bytes_of, lemma_boundaries_around_ascii};
use vstd::prelude::*;
use vstd::utf8::*;

verus! {

/// Why a region could not be found.
#[derive(Clone, Copy, Debug, PartialEq, Eq, Structural)]
pub enum MarkerError {
    /// The document does not hold the start token of the identifier.
    StartMarkerMissing,
    /// The document holds the start token, but no end token after it.
    EndMarkerMissing,
}

/// A half-open range of byte offsets into a document: what lies between a
/// start token and the end token that follows it.
#[derive(Clone, Copy, Debug, PartialEq, Eq, Structural)]
pub struct Span {
    /// The offset right behind the start token.
    pub start: usize,
    /// The offset at which the end token begins.
    pub end: usize,
}

impl View for Span {
    type V = (int, int);

    open spec fn view(&self) -> (int, int) {
        (self.start as int, self.end as int)
    }
}

/// The region of `identifier` in `document`, as the offsets of its first
/// and one-past-last byte.
///
/// The start token is looked for from the beginning of the document. The
/// end token is looked for only from the end of that start token onwards: an
/// end token that stands earlier in the document is never seen.
pub open spec fn located(document: Seq<u8>, identifier: Seq<u8>) -> Result<
    (int, int),
    MarkerError,
> {
    match first_occurrence(document, start_token(identifier), 0) {
        None => Err(MarkerError::StartMarkerMissing),
        Some(at) => {
            let start = at + start_token(identifier).len();
            match first_occurrence(document, end_token(identifier), start) {
                None => Err(MarkerError::EndMarkerMissing),
                Some(end) => Ok((start, end)),
            }
        },
    }
}

/// A located region lies inside the document, begins right behind the first
/// start token and ends where the first end token after that begins.
pub proof fn lemma_located(document: Seq<u8>, identifier: Seq<u8>)
    ensures
        match located(document, identifier) {
            Ok((start, end)) => {
                let opened = start - start_token(identifier).len();
                &&& first_occurrence(document, start_token(identifier), 0) == Some(opened)
                &&& occurs_at(document, start_token(identifier), opened)
                &&& occurs_at(document, end_token(identifier), end)
                &&& 0 < start <= end < document.len()
                &&& forall|k: int|
                    start <= k < end ==> !occurs_at(document, end_token(identifier), k)
            },
            Err(MarkerError::StartMarkerMissing) => forall|k: int|
                !occurs_at(document, start_token(identifier), k),
            Err(MarkerError::EndMarkerMissing) => {
                &&& first_occurrence(document, start_token(identifier), 0) matches Some(opened)
                &&& forall|k: int|
                    opened + start_token(identifier).len() <= k ==> !occurs_at(
                        document,
                        end_token(identifier),
                        k,
                    )
            },
        },
{
    lemma_token_ends(identifier);
    lemma_first_occurrence(document, start_token(identifier), 0);
    match first_occurrence(document, start_token(identifier), 0) {
        None => {},
        Some(at) => {
            let start = at + start_token(identifier).len();
            lemma_first_occurrence(document, end_token(identifier), start);
        },
    }
}

/// Finds the region of `identifier` in `document`.
///
/// Both offsets of a span that is returned fall between characters.
pub fn locate(document: &str, identifier: &str) -> (result: Result<Span, MarkerError>)
    ensures
        match result {
            Ok(span) => {
                &&& located(bytes_of(document@), bytes_of(identifier@)) == Ok::<
                    (int, int),
                    MarkerError,
                >(span@)
                &&& span.start <= span.end <= bytes_of(document@).len()
                &&& is_char_boundary(bytes_of(document@), span.start as int)
                &&& is_char_boundary(bytes_of(document@), span.end as int)
            },
            Err(error) => located(bytes_of(document@), bytes_of(identifier@)) == Err::<
                (int, int),
                MarkerError,
            >(error),
        },
{
    let marker = Marker::for_identifier(identifier);
    let text = document.as_bytes();
    let start_bytes = marker.start_token.as_str().as_bytes();
    let end_bytes = marker.end_token.as_str().as_bytes();
    proof {
        lemma_token_ends(bytes_of(identifier@));
        lemma_located(bytes_of(document@), bytes_of(identifier@));
        encode_utf8_valid_utf8(document@);
    }
    match find_from(text, start_bytes, 0) {
        None => Err(MarkerError::StartMarkerMissing),
        Some(at) => {
            let start: usize = at + start_bytes.len();
            match find_from(text, end_bytes, start) {
                None => Err(MarkerError::EndMarkerMissing),
                Some(end) => {
                    proof {
                        lemma_boundaries_around_ascii(bytes_of(document@), start - 1);
                        lemma_boundaries_around_ascii(bytes_of(document@), end as int);
                    }
                    Ok(Span { start, end })
                },
            }
        },
    }
}

} // verus!
