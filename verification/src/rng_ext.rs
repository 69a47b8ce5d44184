//! Trusted boundary to the `rand` crate: the randomness source.
//!
//! The sampler treats randomness as an injected capability. Each function
//! here makes exactly one call into `rand`; its contract states only what
//! that crate documents of every outcome, never which outcome arrives.

use vstd::prelude::*;

use rand::seq::SliceRandom;

verus! {

#[verifier::external_type_specification]
#[verifier::external_body]
pub struct ExThreadRng(rand::rngs::ThreadRng);

/// Relies on `rand::seq::index::sample`: exactly `amount` distinct indices
/// drawn from `0..length` without replacement, in random order. The call
/// panics when `amount` exceeds `length`, so that case is excluded here.
#[verifier::external_body]
pub fn sample_indices(rng: &mut rand::rngs::ThreadRng, length: usize, amount: usize) -> (r: Vec<
    usize,
>)
    requires
        amount <= length,
    ensures
        r@.len() == amount,
        forall|k: int| 0 <= k < r@.len() ==> (#[trigger] r@[k]) < length,
        forall|k1: int, k2: int| 0 <= k1 < k2 < r@.len() ==> r@[k1] != r@[k2],
{
    rand::seq::index::sample(rng, length, amount).into_vec()
}

/// Relies on `rand`'s `SliceRandom::shuffle`: an in-place permutation of
/// the slice, so the length and the multiset of elements are unchanged.
#[verifier::external_body]
pub fn shuffle_indices(rng: &mut rand::rngs::ThreadRng, data: &mut Vec<usize>)
    ensures
        final(data)@.len() == old(data)@.len(),
        final(data)@.to_multiset() == old(data)@.to_multiset(),
{
    data.as_mut_slice().shuffle(rng)
}

/// Relies on `rand`'s `Rng::next_u64`: the generator's next value.
/// Nothing is assumed of which value arrives; every caller's contract
/// holds for all of them.
#[verifier::external_body]
pub fn random_u64(rng: &mut rand::rngs::ThreadRng) -> u64 {
    rand::Rng::next_u64(rng)
}

} // verus!
