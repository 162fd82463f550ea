//! The configuration of the pool of readers.

use crate::util::config::{ReadableSize, MB};
use vstd::prelude::*;

verus! {

/// A request is taken to be done in a millisecond, so one at place x waits about x
/// milliseconds. A refusal makes the client wait two seconds, so a request that would wait
/// longer than that may as well be refused.
pub const DEFAULT_MAX_TASKS_PER_WORKER: usize = 2000;

pub const DEFAULT_STACK_SIZE_MB: u64 = 10;

/// The configuration of the pool of readers.
#[derive(Debug, Clone, Copy, PartialEq, Eq, Structural)]
pub struct Config {
    pub high_concurrency: usize,
    pub normal_concurrency: usize,
    pub low_concurrency: usize,
    pub max_tasks_per_worker_high: usize,
    pub max_tasks_per_worker_normal: usize,
    pub max_tasks_per_worker_low: usize,
    pub stack_size: ReadableSize,
}

impl Config {
    /// The usual configuration with `concurrency` readers of each priority.
    pub fn default_with_concurrency(concurrency: usize) -> (r: Self)
        ensures
            r == (Config {
                high_concurrency: concurrency,
                normal_concurrency: concurrency,
                low_concurrency: concurrency,
                max_tasks_per_worker_high: DEFAULT_MAX_TASKS_PER_WORKER,
                max_tasks_per_worker_normal: DEFAULT_MAX_TASKS_PER_WORKER,
                max_tasks_per_worker_low: DEFAULT_MAX_TASKS_PER_WORKER,
                stack_size: ReadableSize((DEFAULT_STACK_SIZE_MB * MB) as u64),
            }),
    {
        Self {
            high_concurrency: concurrency,
            normal_concurrency: concurrency,
            low_concurrency: concurrency,
            max_tasks_per_worker_high: DEFAULT_MAX_TASKS_PER_WORKER,
            max_tasks_per_worker_normal: DEFAULT_MAX_TASKS_PER_WORKER,
            max_tasks_per_worker_low: DEFAULT_MAX_TASKS_PER_WORKER,
            stack_size: ReadableSize::mb(DEFAULT_STACK_SIZE_MB),
        }
    }

    /// The configuration for tests: two readers of each priority.
    pub fn default_for_test() -> (r: Self)
        ensures
            r.high_concurrency == 2,
            r.normal_concurrency == 2,
            r.low_concurrency == 2,
            r.max_tasks_per_worker_high == DEFAULT_MAX_TASKS_PER_WORKER,
            r.max_tasks_per_worker_normal == DEFAULT_MAX_TASKS_PER_WORKER,
            r.max_tasks_per_worker_low == DEFAULT_MAX_TASKS_PER_WORKER,
            r.stack_size == ReadableSize((DEFAULT_STACK_SIZE_MB * MB) as u64),
    {
        Self::default_with_concurrency(2)
    }
}

} // verus!
