use vstd::prelude::*;

verus! {

/// The ways an operation on a datastore can fail.
#[derive(Debug, Clone, Copy, PartialEq, Eq, Structural)]
pub enum DatastoreError {
    /// The catalog is absent, or a selection matched no backup where one was required.
    NotFound,
    /// The catalog is present but does not have the expected structure.
    Corrupt,
    /// Compression, encryption, decompression or decryption failed.
    TransformFailure,
    /// Reading, writing or removing chunk storage failed.
    StorageIo,
    /// A backup marked encrypted was read while no encryption key is configured.
    Misconfiguration,
    /// An age threshold could not be parsed.
    InvalidDuration,
}

} // verus!
