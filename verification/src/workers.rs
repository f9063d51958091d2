//! Worker-count configuration.  A caller may fix any worker count; when none
//! is fixed, the default is the detected CPU core count, clamped to the
//! problem size so that the partitioner accepts it.

use vstd::prelude::*;

verus! {

/// Relies on num_cpus::get: returns the number of available CPUs of the
/// current system, and always returns at least 1.
#[verifier::external_body]
fn detected_cpus() -> (r: usize)
    ensures
        r >= 1,
{
    num_cpus::get()
}

/// Clamps a detected core count to the problem size `n`, so that every
/// worker gets a non-empty chunk: the count itself when it fits, `n` when
/// there are more cores than elements.
pub fn clamp_worker_count(cores: usize, n: usize) -> (w: usize)
    requires
        cores >= 1,
        n >= 1,
    ensures
        w == if cores > n { n } else { cores },
        1 <= w <= n,
{
    if cores > n {
        n
    } else {
        cores
    }
}

/// The worker count used when the caller does not fix one: the detected CPU
/// core count, clamped to the problem size `n`.  The count is the machine's,
/// so only its range can be promised here; what is done with it is pinned by
/// `clamp_worker_count`.
pub fn default_worker_count(n: usize) -> (w: usize)
    requires
        n >= 1,
    ensures
        1 <= w <= n,
{
    let cores: usize = detected_cpus();
    clamp_worker_count(cores, n)
}

} // verus!
