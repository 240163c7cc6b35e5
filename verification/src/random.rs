//! The one source of chance of the emulation.

use rand::Rng;
use vstd::prelude::*;

verus! {

/// Draws a number below `bound` with `rand::Rng::gen_range(0, bound)` on the
/// generator that `rand::thread_rng()` hands out.
///
/// Believed of that call, not proved: it returns a value of the half-open
/// range from the lower to the upper bound. It panics on an empty range, so
/// `bound` must not be zero. Nothing is claimed about which value comes out.
#[verifier::external_body]
pub(crate) fn random_below(bound: u32) -> (value: u32)
    requires
        bound > 0,
    ensures
        value < bound,
{
    rand::thread_rng().gen_range(0, bound)
}

} // verus!
