//! Random choices, drawn from the `rand` crate's generator of the current
//! thread. Nothing is known of a draw but its range, so whatever is proved of
//! a player that draws holds for every outcome.

use rand::rngs::ThreadRng;
use rand::Rng;
use vstd::prelude::*;

verus! {

/// `rand::rngs::ThreadRng`, opaque to the verifier.
#[verifier::external_type_specification]
#[verifier::external_body]
pub struct ExThreadRng(ThreadRng);

/// `rand::thread_rng`: a handle on the generator of the current thread.
#[verifier::external_body]
pub(crate) fn thread_rng() -> ThreadRng {
    rand::thread_rng()
}

/// `Rng::gen_range(0..len)`: an index below `len`. The generator panics on
/// an empty range, so `len` has to be positive.
#[verifier::external_body]
pub(crate) fn random_index(rng: &mut ThreadRng, len: usize) -> (index: usize)
    requires
        len > 0,
    ensures
        index < len,
{
    rng.gen_range(0..len)
}

/// `Rng::gen_ratio`: true with a chance of `numerator` in `denominator`. The
/// crate promises `true` when the two are equal and `false` when the
/// numerator is zero, and panics when the denominator is zero or smaller
/// than the numerator.
#[verifier::external_body]
pub(crate) fn random_chance(rng: &mut ThreadRng, numerator: u32, denominator: u32) -> (hit: bool)
    requires
        denominator > 0,
        numerator <= denominator,
    ensures
        numerator == denominator ==> hit,
        numerator == 0 ==> !hit,
{
    rng.gen_ratio(numerator, denominator)
}

} // verus!
