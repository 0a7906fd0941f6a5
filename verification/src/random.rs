//! Random numbers.
use rand::rngs::SmallRng;
use rand::seq::SliceRandom;
use rand::{Rng, SeedableRng};
use vstd::prelude::*;

verus! {

/// Declares `rand::rngs::SmallRng`, the generator of the simulation.
#[verifier::external_type_specification]
#[verifier::external_body]
pub struct ExSmallRng(SmallRng);

/// `Rng::random_range` on an inclusive range: some number from zero to `max`. Which one
/// it is depends on the state of the generator.
#[verifier::external_body]
pub(crate) fn random_up_to(rng: &mut SmallRng, max: usize) -> (r: usize)
    ensures
        r <= max,
{
    rng.random_range(0..=max)
}

/// `Rng::random`: some byte. Which one it is depends on the state of the generator.
#[verifier::external_body]
pub(crate) fn random_u8(rng: &mut SmallRng) -> (r: u8) {
    rng.random()
}

/// `SliceRandom::shuffle`: the same numbers in some order. Which one it is depends on the state
/// of the generator.
#[verifier::external_body]
pub(crate) fn shuffle(rng: &mut SmallRng, items: &mut Vec<usize>)
    ensures
        final(items)@.to_multiset() == old(items)@.to_multiset(),
{
    items.shuffle(rng);
}

/// `SeedableRng::seed_from_u64`: the generator for the seed. Which numbers it gives is not
/// said: the algorithm of `SmallRng` depends on the machine.
#[verifier::external_body]
pub(crate) fn seeded(seed: u64) -> (r: SmallRng) {
    SmallRng::seed_from_u64(seed)
}

/// `SeedableRng::from_os_rng`: a generator with a seed of the operating system. Which numbers
/// it gives is a matter of chance.
#[verifier::external_body]
pub(crate) fn from_system() -> (r: SmallRng) {
    SmallRng::from_os_rng()
}

/// The generator of a simulation: the one for the seed, if there is one.
pub fn generator(seed: Option<u64>) -> (r: SmallRng) {
    match seed {
        Some(seed) => seeded(seed),
        None => from_system(),
    }
}

} // verus!
