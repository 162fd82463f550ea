//! The kernel of a distributed, transactional key-value store.
//!
//! Data is cut into regions, ranges of keys, and each region is replicated by a group of
//! peers. `raft` holds the replication state machine of a peer: its log, what a leader
//! knows of its followers, elections, and the handling of every message. `storage` holds
//! transactions over versions of keys, with locks, commit records and the rules of who
//! sees what, and the store that runs them. `raftstore` holds the checks that find the
//! keys at which a region is split. `engine` holds the ordered maps on which all of this
//! rests, and `util` the order of byte strings and the codecs.

pub mod coprocessor;
pub mod engine;
pub mod raft;
pub mod raftserver;
pub mod raftstore;
pub mod server;
pub mod storage;
pub mod util;
