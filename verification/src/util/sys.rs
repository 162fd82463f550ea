//! The scheduling priority of the process.

use vstd::prelude::*;

verus! {

/// A priority above the usual one.
pub const HIGH_PRI: i32 = -1;

/// The error type of `std`'s input and output.
#[verifier::external_type_specification]
#[verifier::external_body]
pub struct ExIoError(std::io::Error);

/// `rustix::process::setpriority_process` for the calling process: asks the system to set
/// the scheduling priority of the process to `pri`. What the system answers is up to
/// the system, so nothing is said of the result. An error comes back as `std`'s error of
/// the same code.
#[verifier::external_body]
pub fn set_priority(pri: i32) -> (r: Result<(), std::io::Error>) {
    match rustix::process::setpriority_process(None, pri) {
        Ok(()) => Ok(()),
        Err(e) => Err(std::io::Error::from(e)),
    }
}

/// `rustix::process::getpriority_process` for the calling process: asks the system for the
/// scheduling priority of the process. What the system answers is up to the system, so
/// nothing is said of the result. An error comes back as `std`'s error of the same code.
#[verifier::external_body]
pub fn get_priority() -> (r: Result<i32, std::io::Error>) {
    match rustix::process::getpriority_process(None) {
        Ok(pri) => Ok(pri),
        Err(e) => Err(std::io::Error::from(e)),
    }
}

} // verus!
