//! A versioned, authenticated key-value storage engine.
//!
//! The engine keeps an authenticated namespace whose contents are summarized
//! by a Jellyfish Merkle Tree root hash, together with a non-authenticated
//! ("nonconsensus") namespace that is persisted but excluded from the root.
//! Commits are atomic version steps: each one produces a root hash, installs
//! a new snapshot, and notifies subscribers.

pub mod bytes;
pub mod codec;
pub mod delta;
pub mod errors;
pub mod cache;
pub mod history;
pub mod index;
pub mod kvmap;
pub mod snapshot;
pub mod snapshot_cache;
pub mod storage;
pub mod tree;
