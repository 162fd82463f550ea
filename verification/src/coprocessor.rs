pub mod error;
pub mod limit;
pub mod statistics;
