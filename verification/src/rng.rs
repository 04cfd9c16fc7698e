//! The library's only source of randomness: a uniform draw below a bound.

use vstd::prelude::*;

verus! {

/// Relies on `rand::Rng::gen_range` on the thread-local generator: a
/// uniformly distributed integer in `[0, n)`.  The result depends on the
/// generator's state, so nothing is assumed beyond its documented range.
#[verifier::external_body]
pub fn rand_below(n: usize) -> (r: usize)
    requires
        n > 0,
    ensures
        r < n,
{
    rand::Rng::gen_range(&mut rand::thread_rng(), 0..n)
}

} // verus!
