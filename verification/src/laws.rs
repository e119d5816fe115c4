//! What holds of locating and replacing regions, beyond a single call.

use crate::document::{region_of, replaced, wrapped};
use crate::error::SyncError;
use crate::locator::{lemma_located, located, MarkerError};
use crate::marker::{end_token, lemma_token_ends, start_token};
use crate::search::{
    first_occurrence, lemma_first_occurrence, lemma_first_occurrence_in_tail,
    lemma_least_occurrence_is_first, lemma_no_occurrence_is_none, lemma_occurs_in_head,
    lemma_occurs_in_tail, occurs_at,
};
use crate::splice::{
    lemma_first_occurrence_before_splice, lemma_first_occurrence_behind_splice,
    lemma_occurs_before_splice, lemma_occurs_behind_splice, spliced,
};
use crate::sync::{document_after, synchronized};
use vstd::prelude::*;

verus! {

/// The content, once written, closes where it should: in the written text
/// followed by the end token of `identifier`, no end token begins before
/// that one. It fails for content that holds the end token itself.
pub open spec fn keeps_region_closed(identifier: Seq<u8>, content: Seq<u8>) -> bool {
    forall|k: int|
        0 <= k < wrapped(content).len() ==> !occurs_at(
            wrapped(content) + end_token(identifier),
            end_token(identifier),
            k,
        )
}

/// After content that keeps the region closed has been written, the region
/// is found again where it was, and it spans exactly what was written.
pub proof fn lemma_located_after_replace(
    document: Seq<u8>,
    identifier: Seq<u8>,
    content: Seq<u8>,
)
    requires
        located(document, identifier) is Ok,
        keeps_region_closed(identifier, content),
    ensures
        ({
            let (start, end) = located(document, identifier)->Ok_0;
            located(spliced(document, start, end, wrapped(content)), identifier) == Ok::<
                (int, int),
                MarkerError,
            >((start, start + wrapped(content).len()))
        }),
{
    let (start, end) = located(document, identifier)->Ok_0;
    let opening = start_token(identifier);
    let closing = end_token(identifier);
    let written = wrapped(content);
    let after = spliced(document, start, end, written);
    lemma_located(document, identifier);

    // The start token is still the first one.
    lemma_first_occurrence_before_splice(document, start, end, written, opening, 0);

    // The end token that closed the region closes what was written, and
    // what was written holds none before it.
    lemma_occurs_behind_splice(document, start, end, written, closing, end);
    let head = document.subrange(0, start);
    let tail = document.subrange(end, document.len() as int);
    let rest = tail.subrange(closing.len() as int, tail.len() as int);
    assert(after =~= head + ((written + closing) + rest));
    assert forall|k: int| start <= k < start + written.len() implies !occurs_at(
        after,
        closing,
        k,
    ) by {
        lemma_occurs_in_tail(head, (written + closing) + rest, closing, k - start);
        lemma_occurs_in_head(written + closing, rest, closing, k - start);
    }
    lemma_least_occurrence_is_first(after, closing, start, start + written.len());
}

/// Idempotence: writing the same content a second time changes nothing.
///
/// After a write that succeeded, the same write succeeds again and gives the
/// same document, byte for byte. (A write that failed left the document as
/// it was, so a second attempt sees the same document and fails alike.)
pub proof fn law_replace_is_idempotent(document: Seq<u8>, identifier: Seq<u8>, content: Seq<u8>)
    requires
        replaced(document, identifier, content) is Ok ==> keeps_region_closed(identifier, content),
    ensures
        replaced(document, identifier, content) matches Ok(once) ==> replaced(
            once,
            identifier,
            content,
        ) == Ok::<Seq<u8>, MarkerError>(once),
{
    if replaced(document, identifier, content) is Ok {
        let (start, end) = located(document, identifier)->Ok_0;
        let once = spliced(document, start, end, wrapped(content));
        lemma_located_after_replace(document, identifier, content);
        assert(spliced(once, start, start + wrapped(content).len(), wrapped(content)) =~= once);
    }
}

/// Round trip: what was written into a region is what is read back from
/// it, the content between its two line feeds.
pub proof fn law_written_content_is_read_back(
    document: Seq<u8>,
    identifier: Seq<u8>,
    content: Seq<u8>,
)
    requires
        replaced(document, identifier, content) is Ok ==> keeps_region_closed(identifier, content),
    ensures
        replaced(document, identifier, content) matches Ok(after) ==> region_of(after, identifier)
            == Ok::<Seq<u8>, MarkerError>(wrapped(content)),
{
    if replaced(document, identifier, content) is Ok {
        let (start, end) = located(document, identifier)->Ok_0;
        let after = spliced(document, start, end, wrapped(content));
        lemma_located_after_replace(document, identifier, content);
        assert(after.subrange(start, start + wrapped(content).len()) =~= wrapped(content));
    }
}

/// Why the two laws above ask for content that keeps the region closed:
/// content that does not is read back cut short, at the end token that it
/// brought, and writing it a second time makes the document longer.
pub proof fn law_content_with_end_token_is_cut_short(
    document: Seq<u8>,
    identifier: Seq<u8>,
    content: Seq<u8>,
)
    requires
        located(document, identifier) is Ok,
        !keeps_region_closed(identifier, content),
    ensures
        ({
            let once = replaced(document, identifier, content)->Ok_0;
            &&& region_of(once, identifier) matches Ok(read) && read.len() < wrapped(content).len()
            &&& replaced(once, identifier, content) matches Ok(twice) && twice.len() > once.len()
        }),
{
    let (start, end) = located(document, identifier)->Ok_0;
    let opening = start_token(identifier);
    let closing = end_token(identifier);
    let written = wrapped(content);
    let once = spliced(document, start, end, written);
    lemma_located(document, identifier);
    lemma_first_occurrence_before_splice(document, start, end, written, opening, 0);

    let early = choose|k: int|
        0 <= k < written.len() && occurs_at(written + closing, closing, k);
    let head = document.subrange(0, start);
    let tail = document.subrange(end, document.len() as int);
    let rest = tail.subrange(closing.len() as int, tail.len() as int);
    assert(once =~= head + ((written + closing) + rest));
    lemma_occurs_in_tail(head, (written + closing) + rest, closing, early);
    lemma_occurs_in_head(written + closing, rest, closing, early);
    lemma_first_occurrence(once, closing, start);
}

/// Region isolation: a write changes no byte outside the span of its
/// identifier. What stood before the span stands there still; what stood
/// behind it stands behind what was written, in the same order.
pub proof fn law_replace_touches_only_the_span(
    document: Seq<u8>,
    identifier: Seq<u8>,
    content: Seq<u8>,
)
    ensures
        match located(document, identifier) {
            Ok((start, end)) => {
                &&& replaced(document, identifier, content) matches Ok(after)
                &&& after.len() == start + wrapped(content).len() + (document.len() - end)
                &&& forall|i: int| 0 <= i < start ==> after[i] == document[i]
                &&& forall|i: int|
                    end <= i < document.len() ==> after[start + wrapped(content).len() + (i - end)]
                        == document[i]
                &&& after.subrange(start, start + wrapped(content).len()) == wrapped(content)
            },
            Err(error) => replaced(document, identifier, content) == Err::<Seq<u8>, MarkerError>(
                error,
            ),
        },
{
    lemma_located(document, identifier);
}

/// Region isolation, for the regions of other identifiers: a region that
/// ends, end token included, before the span that is written to is found
/// after the write where it was before, with the same content.
pub proof fn law_earlier_region_is_untouched(
    document: Seq<u8>,
    identifier: Seq<u8>,
    content: Seq<u8>,
    other: Seq<u8>,
)
    requires
        located(document, identifier) is Ok,
        located(document, other) is Ok,
        located(document, other)->Ok_0.1 + end_token(other).len() <= located(
            document,
            identifier,
        )->Ok_0.0,
    ensures
        replaced(document, identifier, content) matches Ok(after) && located(after, other)
            == located(document, other) && region_of(after, other) == region_of(document, other),
{
    let (start, end) = located(document, identifier)->Ok_0;
    let (other_start, other_end) = located(document, other)->Ok_0;
    let written = wrapped(content);
    let after = spliced(document, start, end, written);
    lemma_located(document, identifier);
    lemma_located(document, other);
    lemma_first_occurrence_before_splice(document, start, end, written, start_token(other), 0);
    lemma_first_occurrence_before_splice(
        document,
        start,
        end,
        written,
        end_token(other),
        other_start,
    );
    assert(after.subrange(other_start, other_end) =~= document.subrange(other_start, other_end));
}

/// Region isolation, for the regions of other identifiers that stand
/// behind the span that is written to: such a region moves with the text
/// around it and keeps its content, as long as what was written brings no
/// start token of that identifier, neither by itself nor together with the
/// text next to it.
pub proof fn law_later_region_moves_with_the_text(
    document: Seq<u8>,
    identifier: Seq<u8>,
    content: Seq<u8>,
    other: Seq<u8>,
)
    requires
        located(document, identifier) is Ok,
        located(document, other) is Ok,
        located(document, identifier)->Ok_0.1 <= located(document, other)->Ok_0.0 - start_token(
            other,
        ).len(),
        ({
            let (start, end) = located(document, identifier)->Ok_0;
            let after = spliced(document, start, end, wrapped(content));
            forall|k: int|
                start - start_token(other).len() < k < start + wrapped(content).len()
                    ==> !occurs_at(after, start_token(other), k)
        }),
    ensures
        ({
            let (start, end) = located(document, identifier)->Ok_0;
            let (other_start, other_end) = located(document, other)->Ok_0;
            let moved = wrapped(content).len() - (end - start);
            &&& replaced(document, identifier, content) matches Ok(after)
            &&& located(after, other) == Ok::<(int, int), MarkerError>(
                (other_start + moved, other_end + moved),
            )
            &&& region_of(after, other) == region_of(document, other)
        }),
{
    let (start, end) = located(document, identifier)->Ok_0;
    let (other_start, other_end) = located(document, other)->Ok_0;
    let written = wrapped(content);
    let moved = written.len() - (end - start);
    let opening = start_token(other);
    let closing = end_token(other);
    let after = spliced(document, start, end, written);
    let opened = other_start - opening.len();
    lemma_located(document, identifier);
    lemma_token_ends(other);
    lemma_first_occurrence(document, opening, 0);

    // The start token of the other region stands where it was, moved.
    lemma_occurs_behind_splice(document, start, end, written, opening, opened);
    assert forall|k: int| 0 <= k < opened + moved implies !occurs_at(after, opening, k) by {
        if k + opening.len() <= start {
            lemma_occurs_before_splice(document, start, end, written, opening, k);
        } else if k >= start + written.len() {
            lemma_occurs_behind_splice(document, start, end, written, opening, k - moved);
        }
    }
    lemma_least_occurrence_is_first(after, opening, 0, opened + moved);

    // The end token is looked for in the text behind the span alone.
    lemma_first_occurrence(document, closing, other_start);
    lemma_first_occurrence_behind_splice(document, start, end, written, closing, other_start);
    assert(after.subrange(other_start + moved, other_end + moved) =~= document.subrange(
        other_start,
        other_end,
    ));
}

/// Missing-marker safety: in a document without the start token of an
/// identifier nothing is located and nothing is replaced, and the reason
/// given is the missing start token.
pub proof fn law_missing_start_marker(document: Seq<u8>, identifier: Seq<u8>, content: Seq<u8>)
    requires
        forall|k: int| !occurs_at(document, start_token(identifier), k),
    ensures
        located(document, identifier) == Err::<(int, int), MarkerError>(
            MarkerError::StartMarkerMissing,
        ),
        replaced(document, identifier, content) == Err::<Seq<u8>, MarkerError>(
            MarkerError::StartMarkerMissing,
        ),
{
    lemma_no_occurrence_is_none(document, start_token(identifier), 0);
}

/// Bounded end search: where the region ends is decided by the text behind
/// the start token alone. The end token is looked for in that text only, so
/// an end token that stands earlier in the document, of this identifier or
/// of another, is never matched.
pub proof fn law_end_is_sought_behind_start(document: Seq<u8>, identifier: Seq<u8>)
    requires
        first_occurrence(document, start_token(identifier), 0) is Some,
    ensures
        ({
            let start = first_occurrence(document, start_token(identifier), 0)->0 + start_token(
                identifier,
            ).len();
            let behind = document.subrange(start, document.len() as int);
            located(document, identifier) == match first_occurrence(
                behind,
                end_token(identifier),
                0,
            ) {
                Some(offset) => Ok::<(int, int), MarkerError>((start, start + offset)),
                None => Err::<(int, int), MarkerError>(MarkerError::EndMarkerMissing),
            }
        }),
{
    let start = first_occurrence(document, start_token(identifier), 0)->0 + start_token(
        identifier,
    ).len();
    lemma_first_occurrence(document, start_token(identifier), 0);
    let head = document.subrange(0, start);
    let behind = document.subrange(start, document.len() as int);
    assert(document =~= head + behind);
    lemma_first_occurrence_in_tail(head, behind, end_token(identifier), 0);
}

/// Bounded end search, seen from outside: text put in front of a document
/// moves the region by the length of that text and changes nothing else,
/// whatever end tokens that text holds, as long as it brings no start token
/// of the identifier.
pub proof fn law_leading_text_moves_the_region(
    leading: Seq<u8>,
    document: Seq<u8>,
    identifier: Seq<u8>,
)
    requires
        forall|k: int|
            0 <= k < leading.len() ==> !occurs_at(leading + document, start_token(identifier), k),
    ensures
        located(leading + document, identifier) == match located(document, identifier) {
            Ok((start, end)) => Ok::<(int, int), MarkerError>(
                (leading.len() + start, leading.len() + end),
            ),
            Err(error) => Err::<(int, int), MarkerError>(error),
        },
{
    let opening = start_token(identifier);
    let closing = end_token(identifier);
    let whole = leading + document;
    lemma_first_occurrence(whole, opening, 0);
    lemma_first_occurrence_in_tail(leading, document, opening, 0);
    lemma_first_occurrence(whole, opening, leading.len() as int);
    if first_occurrence(document, opening, 0) is Some {
        let at = first_occurrence(document, opening, 0)->0;
        lemma_first_occurrence_in_tail(leading, document, closing, at + opening.len());
    }
}

/// The region of `identifier` is the only one of its kind in `document`:
/// its start token stands there once, its end token stands there once, and
/// the end token begins at or behind the end of the start token.
pub open spec fn holds_one_region(document: Seq<u8>, identifier: Seq<u8>) -> bool {
    exists|opened: int, closed: int|
        {
            &&& #[trigger] occurs_at(document, start_token(identifier), opened)
            &&& #[trigger] occurs_at(document, end_token(identifier), closed)
            &&& opened + start_token(identifier).len() <= closed
            &&& forall|k: int| occurs_at(document, start_token(identifier), k) ==> k == opened
            &&& forall|k: int| occurs_at(document, end_token(identifier), k) ==> k == closed
        }
}

/// In a document that holds one region for an identifier, that region is
/// found, and it is what stands between the two tokens.
pub proof fn law_single_region_is_located(document: Seq<u8>, identifier: Seq<u8>)
    requires
        holds_one_region(document, identifier),
    ensures
        located(document, identifier) matches Ok((start, end)) && occurs_at(
            document,
            start_token(identifier),
            start - start_token(identifier).len(),
        ) && occurs_at(document, end_token(identifier), end),
{
    let (opened, closed) = choose|opened: int, closed: int|
        {
            &&& #[trigger] occurs_at(document, start_token(identifier), opened)
            &&& #[trigger] occurs_at(document, end_token(identifier), closed)
            &&& opened + start_token(identifier).len() <= closed
            &&& forall|k: int| occurs_at(document, start_token(identifier), k) ==> k == opened
            &&& forall|k: int| occurs_at(document, end_token(identifier), k) ==> k == closed
        };
    lemma_least_occurrence_is_first(document, start_token(identifier), 0, opened);
    lemma_least_occurrence_is_first(
        document,
        end_token(identifier),
        opened + start_token(identifier).len(),
        closed,
    );
}

/// Idempotence of a pass: a second pass with the same content of the file
/// leaves the stored document byte for byte as the first pass left it.
pub proof fn law_pass_is_idempotent(identifier: Seq<u8>, source: Option<Seq<u8>>, document: Seq<u8>)
    requires
        synchronized(identifier, source, Some(document)) is Ok ==> keeps_region_closed(
            identifier,
            source->0,
        ),
    ensures
        document_after(identifier, source, document_after(identifier, source, document))
            == document_after(identifier, source, document),
{
    if synchronized(identifier, source, Some(document)) is Ok {
        law_replace_is_idempotent(document, identifier, source->0);
    }
}

/// A pass that fails stores nothing, and it fails for one of three
/// reasons: the file or the document could not be read, or one of the two
/// markers is missing.
pub proof fn law_failed_pass_keeps_the_document(
    identifier: Seq<u8>,
    source: Option<Seq<u8>>,
    document: Seq<u8>,
)
    ensures
        synchronized(identifier, source, Some(document)) matches Err(error) ==> {
            &&& document_after(identifier, source, document) == document
            &&& !error.fatal()
            &&& error == SyncError::FileReadError <==> source is None
            &&& error == SyncError::StartMarkerMissing <==> source is Some && located(
                document,
                identifier,
            ) == Err::<(int, int), MarkerError>(MarkerError::StartMarkerMissing)
            &&& error == SyncError::EndMarkerMissing <==> source is Some && located(
                document,
                identifier,
            ) == Err::<(int, int), MarkerError>(MarkerError::EndMarkerMissing)
        },
{
}

} // verus!
