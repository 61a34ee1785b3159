//! Randomness for the search, drawn from a `rand_chacha::ChaCha8Rng` stream.
//! Every verified function obtains random values through the small trusted
//! wrappers below; their contracts state only what holds of every outcome.

use vstd::prelude::*;
use rand::Rng;
use rand::seq::SliceRandom;

verus! {

#[verifier::external_type_specification]
#[verifier::external_body]
pub struct ExChaCha8Rng(rand_chacha::ChaCha8Rng);

/// Relies on rand's `Rng::gen_range` over `0..n`: the sample lies in the
/// (non-empty) range.
#[verifier::external_body]
pub fn rng_below(rng: &mut rand_chacha::ChaCha8Rng, n: usize) -> (r: usize)
    requires
        n >= 1,
    ensures
        r < n,
{
    rng.gen_range(0..n)
}

/// Relies on rand's `Rng::gen_range` over `0..n` for `u64` bounds: the sample
/// lies in the (non-empty) range.
#[verifier::external_body]
pub fn rng_below_u64(rng: &mut rand_chacha::ChaCha8Rng, n: u64) -> (r: u64)
    requires
        n >= 1,
    ensures
        r < n,
{
    rng.gen_range(0..n)
}

/// Relies on rand's `Rng::gen_ratio`: a coin that comes up true with
/// probability `num / den`; its source returns true whenever `num == den`
/// and false whenever `num == 0`.
#[verifier::external_body]
pub fn rng_coin(rng: &mut rand_chacha::ChaCha8Rng, num: u32, den: u32) -> (r: bool)
    requires
        den >= 1,
        num <= den,
    ensures
        num == den ==> r,
        num == 0 ==> !r,
{
    rng.gen_ratio(num, den)
}

/// Relies on rand's `SliceRandom::shuffle`: a Fisher-Yates pass that permutes
/// the slice in place, so the multiset of elements is unchanged.
#[verifier::external_body]
pub fn rng_shuffle(rng: &mut rand_chacha::ChaCha8Rng, v: &mut Vec<u16>)
    ensures
        final(v)@.to_multiset() == old(v)@.to_multiset(),
        final(v)@.len() == old(v)@.len(),
{
    v.shuffle(rng)
}

} // verus!
