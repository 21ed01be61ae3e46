use vstd::prelude::*;

verus! {

/// Options that shape the behaviour of the listener.
#[derive(Debug, Clone, Copy, PartialEq, Eq, Structural)]
pub struct Options {
    /// Number of worker threads that consume the shared queue.
    pub workers: usize,
}

/// Relies on num_cpus::get: the number of logical processing units available to
/// this process, documented to be at least one.
#[verifier::external_body]
fn available_cpus() -> (r: usize)
    ensures
        r >= 1,
{
    num_cpus::get()
}

impl Default for Options {
    /// One worker per available processing unit.
    fn default() -> (r: Self)
        ensures
            r.workers >= 1,
    {
        Options { workers: available_cpus() }
    }
}

} // verus!
