//! The fixed set of files that are kept in step with the document.

use crate::error::SyncError;
use crate::path::{base_name, file_name};
use crate::text::{bytes_of, same_text};
use vstd::prelude::*;
use vstd::string::StringExecFns;

verus! {

/// One watched file: its path, and the identifier under which it appears
/// in the document, which is the name of the file.
pub struct WatchedFile {
    path: String,
    identifier: String,
}

impl View for WatchedFile {
    type V = Seq<u8>;

    /// The path of the file. The identifier is the base name of this path.
    closed spec fn view(&self) -> Seq<u8> {
        bytes_of(self.path@)
    }
}

impl WatchedFile {
    #[verifier::type_invariant]
    spec fn named_after_path(&self) -> bool {
        base_name(bytes_of(self.path@)) == Some(bytes_of(self.identifier@))
    }

    /// The identifier of the file: the base name of its path.
    pub open spec fn identifier_bytes(&self) -> Seq<u8> {
        base_name(self@)->0
    }

    /// The watched file at `path`, if `path` names a file.
    pub fn new(path: String) -> (file: Option<WatchedFile>)
        ensures
            match file {
                Some(file) => file@ == bytes_of(path@) && base_name(bytes_of(path@)) is Some,
                None => base_name(bytes_of(path@)) is None,
            },
    {
        let identifier = match file_name(path.as_str()) {
            Some(name) => String::from_str(name),
            None => {
                return None;
            },
        };
        Some(WatchedFile { path, identifier })
    }

    /// The path of the file.
    pub fn path(&self) -> (path: &str)
        ensures
            bytes_of(path@) == self@,
    {
        self.path.as_str()
    }

    /// The identifier of the file: the last component of its path.
    pub fn identifier(&self) -> (identifier: &str)
        ensures
            base_name(self@) == Some(bytes_of(identifier@)),
            bytes_of(identifier@) == self.identifier_bytes(),
    {
        proof {
            use_type_invariant(self);
        }
        self.identifier.as_str()
    }
}

/// What was found when a configured path was looked at and put under watch.
#[derive(Clone, Copy, Debug, PartialEq, Eq, Structural)]
pub enum PathStatus {
    /// The path exists, can be read, and is now watched.
    Watched,
    /// The path does not exist or cannot be read.
    Missing,
    /// The path exists, but the watch on it was refused.
    Refused,
}

/// A configured path with what was found of it.
pub struct Probe {
    pub path: String,
    pub status: PathStatus,
}

/// Whether a probed path can join the watch set, and the failure if it
/// cannot. A path that names no file cannot be watched.
pub open spec fn admission(probe: Probe) -> Result<(), SyncError> {
    match probe.status {
        PathStatus::Missing => Err(SyncError::PathNotFound),
        PathStatus::Refused => Err(SyncError::WatchRegistrationFailed),
        PathStatus::Watched => if base_name(bytes_of(probe.path@)) is Some {
            Ok(())
        } else {
            Err(SyncError::WatchRegistrationFailed)
        },
    }
}

/// The index of the first of `watched` that is `path`.
pub open spec fn resolved(watched: Seq<Seq<u8>>, path: Seq<u8>) -> Option<int>
    decreases watched.len(),
{
    if watched.len() == 0 {
        None
    } else {
        match resolved(watched.drop_last(), path) {
            Some(index) => Some(index),
            None => if watched.last() == path {
                Some(watched.len() - 1)
            } else {
                None
            },
        }
    }
}

/// What `resolved` means: the index it gives holds `path` and none before
/// it does; it gives none only where `path` is not watched.
pub proof fn lemma_resolved(watched: Seq<Seq<u8>>, path: Seq<u8>)
    ensures
        match resolved(watched, path) {
            Some(index) => {
                &&& 0 <= index < watched.len()
                &&& watched[index] == path
                &&& forall|j: int| 0 <= j < index ==> watched[j] != path
            },
            None => forall|j: int| 0 <= j < watched.len() ==> watched[j] != path,
        },
    decreases watched.len(),
{
    if watched.len() > 0 {
        let shorter = watched.drop_last();
        lemma_resolved(shorter, path);
        assert forall|j: int| 0 <= j < shorter.len() implies shorter[j] == watched[j] by {}
    }
}

/// The watch set: the watched files, in the order of the configuration. It
/// is filled once, at startup, and never changes afterwards.
pub struct WatchRegistry {
    files: Vec<WatchedFile>,
}

impl View for WatchRegistry {
    type V = Seq<Seq<u8>>;

    /// The paths of the watched files, in order.
    closed spec fn view(&self) -> Seq<Seq<u8>> {
        self.files@.map_values(|file: WatchedFile| file@)
    }
}

impl WatchRegistry {
    /// Builds the watch set from the configured paths and what was found of
    /// each. Either every path joins the set, in the order given, or none
    /// does: the failure of the first path that cannot be watched is
    /// returned.
    pub fn initialize(probes: &Vec<Probe>) -> (result: Result<WatchRegistry, SyncError>)
        ensures
            match result {
                Ok(registry) => {
                    &&& registry@ == probes@.map_values(|probe: Probe| bytes_of(probe.path@))
                    &&& forall|i: int|
                        0 <= i < probes.len() ==> admission(#[trigger] probes[i]) is Ok
                },
                Err(error) => exists|i: int|
                    {
                        &&& 0 <= i < probes.len()
                        &&& admission(#[trigger] probes[i]) == Err::<(), SyncError>(error)
                        &&& forall|j: int| 0 <= j < i ==> admission(#[trigger] probes[j]) is Ok
                    },
            },
    {
        let mut files: Vec<WatchedFile> = Vec::new();
        let mut next: usize = 0;
        while next < probes.len()
            invariant
                next <= probes.len(),
                files@.len() == next,
                forall|j: int|
                    0 <= j < next ==> (#[trigger] files@[j])@ == bytes_of(probes[j].path@),
                forall|j: int| 0 <= j < next ==> admission(#[trigger] probes[j]) is Ok,
            decreases probes.len() - next,
        {
            let probe = &probes[next];
            match probe.status {
                PathStatus::Missing => {
                    return Err(SyncError::PathNotFound);
                },
                PathStatus::Refused => {
                    return Err(SyncError::WatchRegistrationFailed);
                },
                PathStatus::Watched => {},
            }
            match WatchedFile::new(probe.path.clone()) {
                None => {
                    return Err(SyncError::WatchRegistrationFailed);
                },
                Some(file) => {
                    files.push(file);
                },
            }
            next += 1;
        }
        let registry = WatchRegistry { files };
        Ok(registry)
    }

    /// The number of watched files.
    pub fn len(&self) -> (count: usize)
        ensures
            count == self@.len(),
    {
        self.files.len()
    }

    /// The watched file at `index`.
    pub fn get(&self, index: usize) -> (file: &WatchedFile)
        requires
            index < self@.len(),
        ensures
            file@ == self@[index as int],
    {
        &self.files[index]
    }

    /// Finds the watched file whose path is exactly `path`.
    pub fn resolve(&self, path: &str) -> (found: Option<usize>)
        ensures
            match found {
                Some(index) => resolved(self@, bytes_of(path@)) == Some(index as int),
                None => resolved(self@, bytes_of(path@)) is None,
            },
    {
        let mut index: usize = 0;
        while index < self.files.len()
            invariant
                index <= self.files.len(),
                resolved(self@.take(index as int), bytes_of(path@)) is None,
            decreases self.files.len() - index,
        {
            proof {
                assert(self@.take(index + 1).drop_last() =~= self@.take(index as int));
            }
            if same_text(self.files[index].path(), path) {
                proof {
                    lemma_resolved_in_prefix(self@, bytes_of(path@), index + 1);
                }
                return Some(index);
            }
            index += 1;
        }
        assert(self@.take(index as int) =~= self@);
        None
    }
}

/// A path found among the first `count` is found there among all.
pub proof fn lemma_resolved_in_prefix(watched: Seq<Seq<u8>>, path: Seq<u8>, count: int)
    requires
        0 <= count <= watched.len(),
        resolved(watched.take(count), path) is Some,
    ensures
        resolved(watched, path) == resolved(watched.take(count), path),
    decreases watched.len() - count,
{
    if count < watched.len() {
        assert(watched.take(count + 1).drop_last() =~= watched.take(count));
        lemma_resolved_in_prefix(watched, path, count + 1);
    } else {
        assert(watched.take(count) =~= watched);
    }
}

} // verus!
