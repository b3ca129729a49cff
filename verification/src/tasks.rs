//! The units of work that the threaded and asynchronous exercises hand to
//! each thread or task.

use vstd::prelude::*;

verus! {

/// One thread's unit of work on the shared counter: add one to it.
pub fn increment(counter: &mut usize)
    requires
        *old(counter) < usize::MAX,
    ensures
        *final(counter) == *old(counter) + 1,
{
    *counter += 1;
}

/// The work of task `i`: its square.
pub fn square(i: usize) -> (r: usize)
    requires
        i * i <= usize::MAX,
    ensures
        r == i * i,
{
    i * i
}

} // verus!
