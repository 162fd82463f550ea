pub mod readpool;
