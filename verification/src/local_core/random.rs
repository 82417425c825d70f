//! The randomness the engine draws from the `rand` crate: seeding, shuffling and
//! uniform index choice. Nothing about the values a generator produces is known
//! here beyond the ranges and permutations stated below.

use rand::rngs::{OsRng, StdRng};
use rand::seq::SliceRandom;
use rand::{Rng, RngCore, SeedableRng};
use vstd::prelude::*;

verus! {

#[verifier::external_type_specification]
#[verifier::external_body]
pub struct ExStdRng(rand::rngs::StdRng);

/// `StdRng::from_entropy` (rand_core `SeedableRng`): a generator seeded from the
/// operating system. Nothing is claimed about its state.
#[verifier::external_body]
pub(crate) fn rng_from_entropy() -> StdRng {
    StdRng::from_entropy()
}

/// `StdRng::seed_from_u64` (rand_core `SeedableRng`): a generator whose stream is
/// fixed by `seed`. Nothing is claimed about its state.
#[verifier::external_body]
pub(crate) fn rng_seed_from_u64(seed: u64) -> StdRng {
    StdRng::seed_from_u64(seed)
}

/// `StdRng::from_seed` (rand_core `SeedableRng`): a generator built from 32 seed
/// bytes. Nothing is claimed about its state.
#[verifier::external_body]
pub(crate) fn rng_from_seed(seed: [u8; 32]) -> StdRng {
    StdRng::from_seed(seed)
}

/// `OsRng::fill_bytes` (rand_core `RngCore`) on a 32-byte buffer: fresh operating
/// system entropy. The bytes are unconstrained.
#[verifier::external_body]
pub(crate) fn os_seed_bytes() -> [u8; 32] {
    let mut seed = [0u8; 32];
    OsRng.fill_bytes(&mut seed);
    seed
}

/// `RngCore::fill_bytes` on a 32-byte buffer drawn from `rng`. The bytes are
/// unconstrained; the generator advances.
#[verifier::external_body]
pub(crate) fn rng_seed_bytes(rng: &mut StdRng) -> [u8; 32] {
    let mut seed = [0u8; 32];
    rng.fill_bytes(&mut seed);
    seed
}

/// `SliceRandom::shuffle` (rand `seq`): a Fisher-Yates shuffle made of swaps, so
/// the result is a permutation of the input. Which permutation is not stated.
#[verifier::external_body]
pub(crate) fn shuffle<T>(items: &mut Vec<T>, rng: &mut StdRng)
    ensures
        final(items)@.len() == old(items)@.len(),
        final(items)@.to_multiset() == old(items)@.to_multiset(),
{
    items.as_mut_slice().shuffle(rng);
}

/// `Rng::gen_range(0..len)`: a uniform index below `len`; it panics on an empty
/// range, which `requires` rules out.
#[verifier::external_body]
pub(crate) fn gen_index(rng: &mut StdRng, len: usize) -> (index: usize)
    requires
        len > 0,
    ensures
        index < len,
{
    rng.gen_range(0..len)
}

} // verus!
