//! Trusted boundary to the `rand` crate. Random results depend on the
//! thread's generator, so the contracts state only what holds of every
//! outcome: the drawn number lies in the requested range.

use vstd::prelude::*;

verus! {

/// Relies on `rand::thread_rng` and `rand::Rng::gen_range`: the sample
/// lies in the half-open range `[low, high)`. `gen_range` panics on an
/// empty range, which the precondition rules out.
#[verifier::external_body]
pub(crate) fn random_in_range(low: usize, high: usize) -> (r: usize)
    requires
        low < high,
    ensures
        low <= r < high,
{
    <rand::rngs::ThreadRng as rand::Rng>::gen_range(&mut rand::thread_rng(), low..high)
}

/// A uniformly random index below `n`.
pub(crate) fn random_below(n: usize) -> (r: usize)
    requires
        n >= 1,
    ensures
        r < n,
{
    if n == 1 {
        0
    } else {
        random_in_range(0, n)
    }
}

} // verus!
