use vstd::prelude::*;
use rltk::RandomNumberGenerator;

verus! {

#[verifier::external_type_specification]
#[verifier::external_body]
pub struct ExRandomNumberGenerator(RandomNumberGenerator);

/// Relies on rltk's `RandomNumberGenerator::range`, which draws from `min..max`
/// (first bound included, second excluded) and panics on an empty range.
#[verifier::external_body]
pub(crate) fn rng_range(rng: &mut RandomNumberGenerator, min: i32, max: i32) -> (r: i32)
    requires
        min < max,
    ensures
        min <= r < max,
{
    rng.range(min, max)
}

} // verus!
