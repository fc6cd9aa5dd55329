//! How many workers walk the tree.
//!
//! Few rules gain little from many workers; many rules gain up to a bound,
//! past which the workers contend for the shared match state.
use vstd::prelude::*;

verus! {

/// The number of workers for `walked_rules` rules on a machine with `cpus`
/// processors.
pub open spec fn worker_count(walked_rules: usize, cpus: usize) -> usize {
    if walked_rules > 5000 {
        if cpus < 8 {
            cpus
        } else {
            8
        }
    } else if walked_rules > 1000 {
        if cpus < 4 {
            cpus
        } else {
            4
        }
    } else {
        2
    }
}

/// `num_cpus::get`: the number of processors that this process may use, which
/// `num_cpus` documents to be at least one. It may differ from call to call.
#[verifier::external_body]
fn available_cpus() -> (cpus: usize)
    ensures
        cpus >= 1,
{
    num_cpus::get()
}

/// The number of workers for `walked_rules` rules on a machine with `cpus`
/// processors.
pub fn thread_count(walked_rules: usize, cpus: usize) -> (threads: usize)
    ensures
        threads == worker_count(walked_rules, cpus),
{
    if walked_rules > 5000 {
        if cpus < 8 {
            cpus
        } else {
            8
        }
    } else if walked_rules > 1000 {
        if cpus < 4 {
            cpus
        } else {
            4
        }
    } else {
        2
    }
}

/// The number of workers for `walked_rules` rules on this machine.
pub fn available_thread_count(walked_rules: usize) -> (threads: usize)
    ensures
        1 <= threads <= 8,
        walked_rules <= 1000 ==> threads == 2,
        exists|cpus: usize| cpus >= 1 && threads == #[trigger] worker_count(walked_rules, cpus),
{
    let cpus = available_cpus();
    let threads = thread_count(walked_rules, cpus);
    assert(threads == worker_count(walked_rules, cpus));
    threads
}

} // verus!
