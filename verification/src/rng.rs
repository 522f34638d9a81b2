//! Trusted access to the `rand` crate's thread-local generator.

use vstd::prelude::*;
use rand::Rng;

verus! {

/// Handle to the thread-local random generator of the `rand` crate.
#[verifier::external_type_specification]
#[verifier::external_body]
pub struct ExThreadRng(rand::rngs::ThreadRng);

/// Relies on rand::thread_rng: hands out the thread-local generator.
/// Nothing is promised of it; every draw is specified on its own call.
#[verifier::external_body]
pub(crate) fn fresh_rng() -> rand::rngs::ThreadRng {
    rand::thread_rng()
}

/// Relies on rand::Rng::gen_range over `0..n`: returns a uniformly random
/// value below `n`. The call panics on an empty range, hence `n > 0`.
#[verifier::external_body]
pub(crate) fn rng_below(rng: &mut rand::rngs::ThreadRng, n: usize) -> (r: usize)
    requires
        n > 0,
    ensures
        r < n,
{
    rng.gen_range(0..n)
}

} // verus!
