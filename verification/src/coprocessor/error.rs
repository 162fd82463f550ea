//! The errors of the executors.

use crate::storage::mvcc::Error as MvccError;
use crate::storage::store::Error as TxnError;
use vstd::prelude::*;

verus! {

/// What a client is told of a lock that stands in its way.
#[derive(Debug)]
pub struct LockInfo {
    pub primary_lock: Vec<u8>,
    pub lock_version: u64,
    pub key: Vec<u8>,
    pub lock_ttl: u64,
}

/// What a request can fail with.
#[derive(Debug)]
pub enum Error {
    /// The region cannot serve the request.
    Region(crate::raftserver::Error),
    /// A key is locked.
    Locked(LockInfo),
    /// The request has waited too long: for so many milliseconds, under this tag.
    Outdated(u64, &'static str),
    /// The pool of workers is full.
    Full,
    /// An expression could not be evaluated; the text says why.
    Eval(String),
    /// Anything else; the text says what.
    Other(String),
}

pub type Result<T> = core::result::Result<T, Error>;

/// The error of a request whose transaction has failed with `e`: a lock in the way is
/// told as such, with the lock; anything else is told in words.
pub fn from_txn_error(e: TxnError) -> (r: Error)
    ensures
        match e {
            TxnError::Mvcc(MvccError::KeyIsLocked { key, primary, ts, ttl }) => r matches Error::Locked(
                info,
            ) && info.primary_lock@ == primary@ && info.lock_version == ts && info.key@ == key@
                && info.lock_ttl == ttl,
            TxnError::Mvcc(MvccError::WriteConflict) => r matches Error::Other(s) && s@
                == "write conflict"@,
            TxnError::Mvcc(MvccError::TxnLockNotFound) => r matches Error::Other(s) && s@
                == "txn lock not found"@,
            TxnError::Mvcc(MvccError::Committed) => r matches Error::Other(s) && s@
                == "txn already committed"@,
            TxnError::Engine(_) => r matches Error::Other(s) && s@ == "engine failure"@,
            TxnError::Codec(_) => r matches Error::Other(s) && s@ == "codec failure"@,
        },
{
    match e {
        TxnError::Mvcc(MvccError::KeyIsLocked { key, primary, ts, ttl }) => Error::Locked(
            LockInfo { primary_lock: primary, lock_version: ts, key, lock_ttl: ttl },
        ),
        TxnError::Mvcc(MvccError::WriteConflict) => Error::Other("write conflict".to_owned()),
        TxnError::Mvcc(MvccError::TxnLockNotFound) => Error::Other(
            "txn lock not found".to_owned(),
        ),
        TxnError::Mvcc(MvccError::Committed) => Error::Other("txn already committed".to_owned()),
        TxnError::Engine(_) => Error::Other("engine failure".to_owned()),
        TxnError::Codec(_) => Error::Other("codec failure".to_owned()),
    }
}

} // verus!
