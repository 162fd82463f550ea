//! The errors that a store answers with.

use crate::raftstore::keys::{Peer, Region};
use crate::util::order::{bytes_le, bytes_lt, copy_bytes, lex_le, lex_lt};
use vstd::prelude::*;

verus! {

/// What a store can answer instead of a result.
#[derive(Debug)]
pub enum Error {
    /// The store holds no such region.
    RegionNotFound(u64),
    /// The peer asked is not the leader of the region; the leader is named if it is known.
    NotLeader(u64, Option<Peer>),
    /// The key lies outside the region.
    KeyNotInRegion(Vec<u8>, Region),
    /// The command was made for an earlier term of the region.
    StaleCommand,
    /// The region has been split, merged or changed its members since the client looked.
    EpochMismatch,
    /// The store cannot take more work now.
    ServerIsBusy,
    /// The engine has failed; the text says how.
    RocksDB(String),
    /// Stored bytes could not be read.
    Codec(crate::util::codec::Error),
    /// The replication state machine has refused.
    Raft(crate::raft::errors::Error),
    /// Anything else; the text says what.
    Other(String),
}

pub type Result<T> = core::result::Result<T, Error>;

/// The error that says `err`.
pub fn other(err: String) -> (r: Error)
    ensures
        r matches Error::Other(s) && s@ == err@,
{
    Error::Other(err)
}

/// The key lies in the region: not below its start, and below its end where it has one.
pub open spec fn key_in_region(key: Seq<u8>, region: &Region) -> bool {
    lex_le(region.start_key@, key) && (region.end_key@.len() == 0 || lex_lt(key, region.end_key@))
}

/// Checks that `key` lies in `region`.
pub fn check_key_in_region(key: &[u8], region: &Region) -> (r: Result<()>)
    ensures
        key_in_region(key@, region) <==> r is Ok,
        !key_in_region(key@, region) ==> (r matches Err(Error::KeyNotInRegion(k, reg)) && k@ == key@
            && reg.id == region.id && reg.start_key@ == region.start_key@ && reg.end_key@
            == region.end_key@ && reg.region_epoch == region.region_epoch && reg.peers@
            == region.peers@),
{
    let end_key = region.end_key.as_slice();
    let start_key = region.start_key.as_slice();
    if bytes_le(start_key, key) && (end_key.len() == 0 || bytes_lt(key, end_key)) {
        Ok(())
    } else {
        let mut peers: Vec<Peer> = Vec::new();
        let mut i: usize = 0;
        while i < region.peers.len()
            invariant
                i <= region.peers@.len(),
                peers@ == region.peers@.take(i as int),
            decreases region.peers@.len() - i,
        {
            peers.push(region.peers[i]);
            i += 1;
            assert(peers@ =~= region.peers@.take(i as int));
        }
        assert(region.peers@.take(i as int) =~= region.peers@);
        Err(
            Error::KeyNotInRegion(
                copy_bytes(key),
                Region {
                    id: region.id,
                    start_key: copy_bytes(start_key),
                    end_key: copy_bytes(end_key),
                    region_epoch: region.region_epoch,
                    peers,
                },
            ),
        )
    }
}

} // verus!
