//! The errors of the replication state machine.

use vstd::prelude::*;

verus! {

/// Why the log cannot answer.
#[derive(Clone, Copy, Debug, PartialEq, Eq, Structural)]
pub enum StorageError {
    /// The position was replaced by a snapshot.
    Compacted,
    /// The position is behind the end of the log.
    Unavailable,
    /// The snapshot is older than the one at hand.
    SnapshotOutOfDate,
    /// No snapshot can be had now.
    SnapshotTemporarilyUnavailable,
}

/// What the state machine can refuse.
#[derive(Debug)]
pub enum Error {
    /// The configuration breaks a rule; the text says which.
    ConfigInvalid(String),
    /// The log cannot answer.
    Store(StorageError),
}

pub type Result<T> = core::result::Result<T, Error>;

} // verus!
