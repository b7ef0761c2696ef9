//! The random draws, made with rand's seeded standard generator.

use rand::rngs::StdRng;
use rand::seq::{IndexedRandom, SliceRandom};
use rand::Rng;
use vstd::prelude::*;

verus! {

#[verifier::external_type_specification]
#[verifier::external_body]
pub struct ExStdRng(StdRng);

/// Relies on rand's `SliceRandom::shuffle`, which permutes the slice in place
/// by swapping its elements.
#[verifier::external_body]
pub(crate) fn shuffle_cities(cities: &mut Vec<Vec<u8>>, rng: &mut StdRng)
    ensures
        final(cities)@.to_multiset() == old(cities)@.to_multiset(),
{
    cities.shuffle(rng);
}

/// Relies on rand's `IndexedRandom::choose`: `None` on an empty slice, else a
/// reference to one of its elements.
#[verifier::external_body]
pub(crate) fn choose_city<'a>(cities: &'a Vec<Vec<u8>>, rng: &mut StdRng) -> (r: Option<&'a Vec<u8>>)
    ensures
        r is None <==> cities@.len() == 0,
        r matches Some(c) ==> cities@.contains(*c),
{
    cities.choose(rng)
}

/// Relies on rand's `Rng::random_range`: a value of the half-open range
/// `low..high`, which must not be empty.
#[verifier::external_body]
pub(crate) fn random_in_range(rng: &mut StdRng, low: i32, high: i32) -> (r: i32)
    requires
        low < high,
    ensures
        low <= r < high,
{
    rng.random_range(low..high)
}

} // verus!
