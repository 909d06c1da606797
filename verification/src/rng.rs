//! The source of randomness for mine placement.

use rand::Rng;
use vstd::prelude::*;

verus! {

/// A uniformly distributed number below `bound`, drawn from the thread's
/// generator by `rand::thread_rng` and `Rng::gen_range` over `0..bound`.
///
/// Trusted: `gen_range` samples from the half-open range, so the number is
/// below `bound`. It panics on an empty range, hence `bound > 0`. Which
/// number comes back is left open.
#[verifier::external_body]
pub(crate) fn random_below(bound: usize) -> (r: usize)
    requires
        bound > 0,
    ensures
        r < bound,
{
    rand::thread_rng().gen_range(0..bound)
}

} // verus!
