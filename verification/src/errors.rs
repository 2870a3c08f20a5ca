//! Errors surfaced by the storage engine.

use vstd::prelude::*;

verus! {

/// Declares `anyhow::Error`, the error type that the Merkle tree library
/// reports, so that it can be carried inside [`StorageError`].
#[verifier::external_type_specification]
#[verifier::external_body]
pub struct ExAnyhowError(anyhow::Error);

/// Every failure a storage operation can report.
#[derive(Debug)]
pub enum StorageError {
    /// A delta was committed against a base snapshot that is not the
    /// current tip.
    VersionMismatch { expected: u64, found: u64 },
    /// A composite versioned key could not be decoded.
    Decode,
    /// The Merkle tree library rejected an update.
    Tree(anyhow::Error),
    /// The version space is exhausted: the next version would collide
    /// with the pre-genesis sentinel.
    VersionLimit,
}

impl StorageError {
    /// True for the stale-base rejection, which callers may retry against
    /// the new tip.
    pub fn is_version_mismatch(&self) -> (r: bool)
        ensures
            r <==> self is VersionMismatch,
    {
        match self {
            StorageError::VersionMismatch { .. } => true,
            _ => false,
        }
    }
}

} // verus!
