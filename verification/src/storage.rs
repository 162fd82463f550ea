pub mod mvcc;
pub mod rocksdb_engine;
pub mod shard_mutex;
pub mod store;
pub mod types;
