//! The aggregate document and the one change that is ever made to it:
//! putting new content between the markers of an identifier.

use crate::locator::{locate, located, MarkerError};
use crate::marker::start_token;
use crate::search::{lemma_no_occurrence_is_none, occurs_at};
use crate::splice::spliced;
use crate::text::{bytes_of, lemma_bytes_of_concat, slice};
use vstd::prelude::*;
use vstd::string::StringExecFns;
use vstd::utf8::*;

verus! {

/// What is written into a region for `content`: the content on lines of its
/// own, between two line feeds.
pub open spec fn wrapped(content: Seq<u8>) -> Seq<u8> {
    bytes_of("\n"@) + content + bytes_of("\n"@)
}

/// `document` after the region of `identifier` has been given `content`, or
/// the reason why the region was not found.
pub open spec fn replaced(document: Seq<u8>, identifier: Seq<u8>, content: Seq<u8>) -> Result<
    Seq<u8>,
    MarkerError,
> {
    match located(document, identifier) {
        Ok((start, end)) => Ok(spliced(document, start, end, wrapped(content))),
        Err(error) => Err(error),
    }
}

/// What stands in the region of `identifier` in `document`.
pub open spec fn region_of(document: Seq<u8>, identifier: Seq<u8>) -> Result<Seq<u8>, MarkerError> {
    match located(document, identifier) {
        Ok((start, end)) => Ok(document.subrange(start, end)),
        Err(error) => Err(error),
    }
}

/// The aggregate document, held in memory for one read-modify-write cycle.
pub struct Document {
    text: String,
}

impl View for Document {
    type V = Seq<u8>;

    /// The bytes of the document.
    closed spec fn view(&self) -> Seq<u8> {
        bytes_of(self.text@)
    }
}

impl Document {
    /// A document with the given text.
    pub fn new(text: String) -> (document: Document)
        ensures
            document@ == bytes_of(text@),
    {
        Document { text }
    }

    /// The text of the document.
    pub fn text(&self) -> (text: &str)
        ensures
            bytes_of(text@) == self@,
    {
        self.text.as_str()
    }

    /// Gives the document up for its text.
    pub fn into_text(self) -> (text: String)
        ensures
            bytes_of(text@) == self@,
    {
        self.text
    }

    /// Reads what stands between the markers of `identifier`.
    pub fn region(&self, identifier: &str) -> (result: Result<String, MarkerError>)
        ensures
            match result {
                Ok(content) => region_of(self@, bytes_of(identifier@)) == Ok::<
                    Seq<u8>,
                    MarkerError,
                >(bytes_of(content@)),
                Err(error) => region_of(self@, bytes_of(identifier@)) == Err::<
                    Seq<u8>,
                    MarkerError,
                >(error),
            },
    {
        let text = self.text.as_str();
        match locate(text, identifier) {
            Err(error) => Err(error),
            Ok(span) => Ok(String::from_str(slice(text, span.start, span.end))),
        }
    }

    /// Puts `content`, on lines of its own, between the markers of
    /// `identifier`, in place of what stood there.
    ///
    /// When the region cannot be found the document is left as it was and
    /// the reason is returned.
    pub fn replace_region(&mut self, identifier: &str, content: &str) -> (result: Result<
        (),
        MarkerError,
    >)
        ensures
            match replaced(old(self)@, bytes_of(identifier@), bytes_of(content@)) {
                Ok(text) => result is Ok && final(self)@ == text,
                Err(error) => result == Err::<(), MarkerError>(error) && final(self)@ == old(self)@,
            },
            (forall|k: int| !occurs_at(old(self)@, start_token(bytes_of(identifier@)), k)) ==> {
                &&& result == Err::<(), MarkerError>(MarkerError::StartMarkerMissing)
                &&& final(self)@ == old(self)@
            },
    {
        proof {
            if forall|k: int| !occurs_at(self@, start_token(bytes_of(identifier@)), k) {
                lemma_no_occurrence_is_none(self@, start_token(bytes_of(identifier@)), 0);
            }
        }
        let text = self.text.as_str();
        let span = match locate(text, identifier) {
            Ok(span) => span,
            Err(error) => {
                return Err(error);
            },
        };
        proof {
            encode_utf8_valid_utf8(text@);
            is_char_boundary_start_end_of_seq(bytes_of(text@));
        }
        let head = slice(text, 0, span.start);
        let tail = slice(text, span.end, text.as_bytes().len());
        let mut next = String::from_str(head);
        next.append("\n");
        next.append(content);
        next.append("\n");
        next.append(tail);
        proof {
            lemma_bytes_of_concat(head@, "\n"@);
            lemma_bytes_of_concat(head@ + "\n"@, content@);
            lemma_bytes_of_concat(head@ + "\n"@ + content@, "\n"@);
            lemma_bytes_of_concat(head@ + "\n"@ + content@ + "\n"@, tail@);
        }
        self.text = next;
        Ok(())
    }
}

} // verus!
