//! How many threads are worth their memory.
use vstd::prelude::*;

verus! {

/// `num_cpus::get`: the number of processors of the machine. It is at least
/// one; what else it is depends on the machine.
#[verifier::external_body]
fn num_cpus_get() -> (n: usize)
    ensures
        n >= 1,
{
    num_cpus::get()
}

/// The number of threads for a number of processors: one for each, up to six.
pub fn threads_for(cpus: usize) -> (r: usize)
    ensures
        r == if cpus < 1 {
            1
        } else if cpus > 6 {
            6
        } else {
            cpus as int
        },
{
    if cpus < 1 {
        1
    } else if cpus > 6 {
        6
    } else {
        cpus
    }
}

/// The number of threads for this machine.
pub fn cpu_count() -> (r: usize)
    ensures
        1 <= r <= 6,
{
    threads_for(num_cpus_get())
}

} // verus!
