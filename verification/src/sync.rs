//! One synchronization pass: from the content of a changed file and the
//! text of the document to the text that is to be stored in its place.

use crate::document::{replaced, Document};
use crate::error::SyncError;
use crate::text::bytes_of;
use crate::watch::WatchedFile;
use vstd::prelude::*;

verus! {

/// The bytes of a text that was read, if it could be read.
pub open spec fn read_bytes(text: Option<&str>) -> Option<Seq<u8>> {
    match text {
        Some(text) => Some(bytes_of(text@)),
        None => None,
    }
}

/// The text to store after a pass for `identifier`, or the failure of the
/// pass. `source` is the content of the changed file and `document` the
/// text of the document, each absent if it could not be read.
///
/// The source is read first, so the pass fails on an unreadable source
/// whatever the document holds. A pass that fails stores nothing.
pub open spec fn synchronized(
    identifier: Seq<u8>,
    source: Option<Seq<u8>>,
    document: Option<Seq<u8>>,
) -> Result<Seq<u8>, SyncError> {
    match (source, document) {
        (Some(content), Some(text)) => match replaced(text, identifier, content) {
            Ok(next) => Ok(next),
            Err(error) => Err(SyncError::of_marker(error)),
        },
        _ => Err(SyncError::FileReadError),
    }
}

/// What the stored document holds after a pass: the new text where the pass
/// succeeded, the old text where it failed.
pub open spec fn document_after(
    identifier: Seq<u8>,
    source: Option<Seq<u8>>,
    document: Seq<u8>,
) -> Seq<u8> {
    match synchronized(identifier, source, Some(document)) {
        Ok(next) => next,
        Err(_) => document,
    }
}

/// Runs one pass for `file` on what was read, and returns the text to
/// store in place of the document.
pub fn synchronize(file: &WatchedFile, source: Option<&str>, document: Option<&str>) -> (result:
    Result<String, SyncError>)
    ensures
        match result {
            Ok(next) => synchronized(
                file.identifier_bytes(),
                read_bytes(source),
                read_bytes(document),
            ) == Ok::<Seq<u8>, SyncError>(bytes_of(next@)),
            Err(error) => synchronized(
                file.identifier_bytes(),
                read_bytes(source),
                read_bytes(document),
            ) == Err::<Seq<u8>, SyncError>(error),
        },
{
    let content = match source {
        Some(content) => content,
        None => {
            return Err(SyncError::FileReadError);
        },
    };
    let text = match document {
        Some(text) => text,
        None => {
            return Err(SyncError::FileReadError);
        },
    };
    let mut held = Document::new(text.to_owned());
    match held.replace_region(file.identifier(), content) {
        Ok(()) => Ok(held.into_text()),
        Err(error) => Err(SyncError::from(error)),
    }
}

/// The end of a pass: whether the new text reached storage. A store that
/// failed left the document as it was.
pub fn concluded(stored: bool) -> (result: Result<(), SyncError>)
    ensures
        stored ==> result is Ok,
        !stored ==> result == Err::<(), SyncError>(SyncError::DocumentWriteError),
{
    if stored {
        Ok(())
    } else {
        Err(SyncError::DocumentWriteError)
    }
}

} // verus!
