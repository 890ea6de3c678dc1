//! The seeded pseudorandom stream, as provided by the `rand` crate's
//! `StdRng` (ChaCha with 12 rounds in the version this library is built
//! with).
//!
//! Nothing here is proved. A generator is described by the 64-bit words it
//! has yet to give; what a seed starts and what a uniform draw picks are
//! named.

use rand::rngs::StdRng;
use vstd::prelude::*;

verus! {

/// The generator `rand::rngs::StdRng`, taken as it is.
#[verifier::external_type_specification]
#[verifier::external_body]
pub struct ExStdRng(StdRng);

/// The 64-bit words a generator will give from now on: the word at key 0
/// is the next one.
pub uninterp spec fn pending_words(rng: StdRng) -> Map<nat, u64>;

/// The stream of 64-bit words that `StdRng::from_seed` starts for a seed.
pub uninterp spec fn seeded_words(seed: Seq<u8>) -> Map<nat, u64>;

/// What sampling `Uniform::new(low, high)` makes of a stream of words: the
/// value drawn, and the number of words it takes from the stream.
pub uninterp spec fn uniform_pick(words: Map<nat, u64>, low: u64, high: u64) -> (u64, nat);

/// A stream without its first `n` words.
pub open spec fn words_after(words: Map<nat, u64>, n: nat) -> Map<nat, u64> {
    Map::new(|i: nat| true, |i: nat| words[i + n])
}

/// `StdRng::from_seed`: a generator at the start of the stream that belongs
/// to the seed.
#[verifier::external_body]
pub(crate) fn rng_from_seed(seed: [u8; 32]) -> (rng: StdRng)
    ensures
        pending_words(rng) == seeded_words(seed@),
{
    rand::SeedableRng::from_seed(seed)
}

/// `RngCore::next_u64` on `StdRng`: gives the next word of the stream and
/// moves past it.
#[verifier::external_body]
pub(crate) fn rng_next_u64(rng: &mut StdRng) -> (word: u64)
    ensures
        word == pending_words(*old(rng))[0],
        pending_words(*final(rng)) == words_after(pending_words(*old(rng)), 1),
{
    rand::RngCore::next_u64(rng)
}

/// `Rng::sample` with `Uniform::new(low, high)`: draws a value in
/// `low..high`. The value and the number of words consumed depend on the
/// pending words and the bounds only.
#[verifier::external_body]
pub(crate) fn rng_sample_uniform(rng: &mut StdRng, low: u64, high: u64) -> (value: u64)
    requires
        low < high,
    ensures
        value == uniform_pick(pending_words(*old(rng)), low, high).0,
        low <= value < high,
        pending_words(*final(rng)) == words_after(
            pending_words(*old(rng)),
            uniform_pick(pending_words(*old(rng)), low, high).1,
        ),
{
    rand::Rng::sample(rng, rand::distr::Uniform::new(low, high).unwrap())
}

} // verus!
