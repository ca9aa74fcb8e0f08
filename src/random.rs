//! The random source: rand's thread-local generator.
use vstd::prelude::*;
use rand::rngs::ThreadRng;
use rand::seq::SliceRandom;
use rand::Rng;

verus! {

#[verifier::external_type_specification]
#[verifier::external_body]
pub struct ExThreadRng(ThreadRng);

/// Relies on `rand::Rng::gen::<usize>` on a `ThreadRng`: a random `usize`,
/// of which nothing is promised.
#[verifier::external_body]
pub(crate) fn draw_usize(rng: &mut ThreadRng) -> (r: usize) {
    rng.gen::<usize>()
}

/// Relies on `rand::seq::SliceRandom::shuffle` for slices: it reorders the
/// elements in place by exchanging pairs of them, so the same elements stay.
#[verifier::external_body]
pub(crate) fn shuffle_cities(cities: &mut Vec<usize>, rng: &mut ThreadRng)
    ensures
        final(cities)@.to_multiset() == old(cities)@.to_multiset(),
{
    cities.shuffle(rng);
}

} // verus!
