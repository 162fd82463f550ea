//! Watching the threads of the process.

use vstd::prelude::*;

verus! {

/// Starts to watch the processor time of the threads of the process under `namespace`.
/// Nothing is watched on this system, and that is no failure.
pub fn monitor_threads(namespace: &str) -> (r: Result<(), std::io::Error>)
    ensures
        r is Ok,
{
    Ok(())
}

} // verus!
