use vstd::prelude::*;

use rand::Rng;
use rand::XorShiftRng;

verus! {

/// The generator of the random searches, from the `rand` crate.
#[verifier::external_type_specification]
#[verifier::external_body]
pub struct ExXorShiftRng(XorShiftRng);

/// A random `usize` from the generator: `Rng::gen::<usize>` of `rand`.
/// The value depends on the generator's hidden state, so nothing is stated
/// of it.
#[verifier::external_body]
pub(crate) fn random_usize(rng: &mut XorShiftRng) -> usize {
    rng.gen::<usize>()
}

} // verus!
