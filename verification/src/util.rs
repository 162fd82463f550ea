pub mod codec;
pub mod config;
pub mod metrics;
pub mod order;
pub mod sys;
