//! What can go wrong, at startup and during a synchronization pass.

use crate::locator::MarkerError;
use vstd::prelude::*;

verus! {

/// The failures of the synchronizer.
#[derive(Clone, Copy, Debug, PartialEq, Eq, Structural)]
pub enum SyncError {
    /// A configured path does not exist or cannot be read.
    PathNotFound,
    /// A configured path could not be put under watch.
    WatchRegistrationFailed,
    /// The content of a changed file could not be read.
    FileReadError,
    /// The document holds no start token for the file.
    StartMarkerMissing,
    /// The document holds no end token behind the start token of the file.
    EndMarkerMissing,
    /// The new text of the document could not be stored.
    DocumentWriteError,
}

impl SyncError {
    /// The failure of a pass whose region could not be found.
    pub open spec fn of_marker(error: MarkerError) -> SyncError {
        match error {
            MarkerError::StartMarkerMissing => SyncError::StartMarkerMissing,
            MarkerError::EndMarkerMissing => SyncError::EndMarkerMissing,
        }
    }

    /// Whether the process has to stop on this failure. The failures of
    /// startup are fatal: the process never runs with a part of its watch
    /// set. Every failure of a pass is survived: the document lags behind
    /// until the next change of the file.
    pub open spec fn fatal(self) -> bool {
        self == SyncError::PathNotFound || self == SyncError::WatchRegistrationFailed
    }

    /// Tells whether the process has to stop on this failure.
    pub fn is_fatal(&self) -> (fatal: bool)
        ensures
            fatal == self.fatal(),
    {
        match self {
            SyncError::PathNotFound => true,
            SyncError::WatchRegistrationFailed => true,
            SyncError::FileReadError => false,
            SyncError::StartMarkerMissing => false,
            SyncError::EndMarkerMissing => false,
            SyncError::DocumentWriteError => false,
        }
    }
}

impl From<MarkerError> for SyncError {
    fn from(error: MarkerError) -> (converted: SyncError) {
        match error {
            MarkerError::StartMarkerMissing => SyncError::StartMarkerMissing,
            MarkerError::EndMarkerMissing => SyncError::EndMarkerMissing,
        }
    }
}

impl vstd::std_specs::convert::FromSpecImpl<MarkerError> for SyncError {
    open spec fn obeys_from_spec() -> bool {
        true
    }

    open spec fn from_spec(error: MarkerError) -> SyncError {
        SyncError::of_marker(error)
    }
}

} // verus!
