//! The source of randomness of the search, injected by the caller so that a
//! solve can be repeated from a fixed seed.

use vstd::prelude::*;

verus! {

/// The seedable generator of the `rand` crate.
#[verifier::external_type_specification]
#[verifier::external_body]
pub struct ExStdRng(rand::rngs::StdRng);

/// Relies on `rand::Rng::gen_range` over `0..bound`: a value uniformly drawn
/// below `bound` (the crate panics on an empty range).
#[verifier::external_body]
pub(crate) fn draw_below(rng: &mut rand::rngs::StdRng, bound: u64) -> (r: u64)
    requires
        bound > 0,
    ensures
        r < bound,
{
    rand::Rng::gen_range(rng, 0..bound)
}

} // verus!
