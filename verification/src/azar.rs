//! The boundary to `rand`: the generator and what is assumed of each draw.
//! Nothing in this file is proved, and nothing is said of which value a
//! draw gives beyond the bounds that every draw keeps.

use rand::rngs::StdRng;
use rand::Rng;
use vstd::prelude::*;

verus! {

/// `rand::rngs::StdRng`, the generator that the draws are taken from.
#[verifier::external_type_specification]
#[verifier::external_body]
pub struct ExStdRng(rand::rngs::StdRng);

/// `Rng::random_range` on an inclusive range: assumed to give a value of
/// the range. The call panics on an empty range.
#[verifier::external_body]
pub(crate) fn azar_entre(rng: &mut StdRng, bajo: usize, alto: usize) -> (r: usize)
    requires
        bajo <= alto,
    ensures
        bajo <= r <= alto,
{
    rng.random_range(bajo..=alto)
}

/// `Rng::random_ratio`: a draw that is true with the given odds; assumed
/// to be always true where the odds are one and never where they are zero.
/// The call panics where the denominator is zero or less than the numerator.
#[verifier::external_body]
pub(crate) fn azar_razon(rng: &mut StdRng, numerador: u32, denominador: u32) -> (r: bool)
    requires
        denominador > 0,
        numerador <= denominador,
    ensures
        numerador == denominador ==> r,
        numerador == 0 ==> !r,
{
    rng.random_ratio(numerador, denominador)
}

} // verus!
