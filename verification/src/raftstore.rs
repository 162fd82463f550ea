pub mod half;
pub mod host;
pub mod keys;
pub mod size;
