pub mod errors;
pub mod message;
pub mod model;
pub mod progress;
pub mod raft;
pub mod raft_log;
pub mod safety;
