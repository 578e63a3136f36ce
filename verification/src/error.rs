//! The failure taxonomy of the engine.

use vstd::prelude::*;

verus! {

/// Everything that can go wrong in the engine, as an explicit per-call result
/// rather than a thread-local error slot.
#[allow(non_camel_case_types)]
#[derive(Clone, Copy, Debug, PartialEq, Eq, Structural)]
pub enum rill_error {
    /// Memory for a pair set or table could not be obtained or addressed.
    AllocationError,
    /// A file-system operation failed for a reason unrelated to the format.
    IOError,
    /// The crash-safe write/rename sequence failed; no partial artifact is
    /// left visible.
    WriteError,
    /// An on-disk header or record invariant was violated on open.
    CorruptFileError,
    /// A directory or file was absent.
    NotFoundError,
    /// An index into a pair set was past its length.
    OutOfRangeError,
}

impl rill_error {
    /// A human-readable description of the failure.
    pub fn message(&self) -> &'static str {
        match self {
            rill_error::AllocationError => "out of memory",
            rill_error::IOError => "file system operation failed",
            rill_error::WriteError => "crash-safe write failed; no partial file is visible",
            rill_error::CorruptFileError => "store header or records failed validation",
            rill_error::NotFoundError => "no such directory or file",
            rill_error::OutOfRangeError => "index past the end of the pair set",
        }
    }
}

} // verus!
