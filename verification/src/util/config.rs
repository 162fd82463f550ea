//! Sizes as configurations write them.

use vstd::prelude::*;

verus! {

pub const UNIT: u64 = 1;

pub const KB: u64 = 1024;

pub const MB: u64 = 1048576;

pub const GB: u64 = 1073741824;

/// A number of bytes.
#[derive(Clone, Copy, Debug, PartialEq, Eq, Structural)]
pub struct ReadableSize(pub u64);

impl ReadableSize {
    /// `count` KiB.
    pub fn kb(count: u64) -> (r: ReadableSize)
        requires
            count * KB <= u64::MAX,
        ensures
            r.0 == count * KB,
    {
        ReadableSize(count * KB)
    }

    /// `count` MiB.
    pub fn mb(count: u64) -> (r: ReadableSize)
        requires
            count * MB <= u64::MAX,
        ensures
            r.0 == count * MB,
    {
        ReadableSize(count * MB)
    }

    /// `count` GiB.
    pub fn gb(count: u64) -> (r: ReadableSize)
        requires
            count * GB <= u64::MAX,
        ensures
            r.0 == count * GB,
    {
        ReadableSize(count * GB)
    }

    /// The size in whole MiB.
    pub fn as_mb(self) -> (r: u64)
        ensures
            r == self.0 / MB,
    {
        self.0 / MB
    }
}

} // verus!
