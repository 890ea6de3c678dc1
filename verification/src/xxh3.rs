//! The XXH3 hash, as provided by the `xxhash-rust` crate.
//!
//! Nothing here is proved: the digests are named, and the streaming hasher
//! is described by the bytes it has been given so far.

use vstd::prelude::*;
use xxhash_rust::xxh3::Xxh3;

verus! {

/// The streaming hasher `xxhash_rust::xxh3::Xxh3`, taken as it is.
#[verifier::external_type_specification]
#[verifier::external_body]
pub struct ExXxh3(Xxh3);

/// The bytes a streaming hasher has been fed since it was made, in order.
pub uninterp spec fn hashed_bytes(h: Xxh3) -> Seq<u8>;

/// The seed a streaming hasher was made with.
pub uninterp spec fn hasher_seed(h: Xxh3) -> u64;

/// The 128-bit XXH3 digest of `data` under `seed`, as `Xxh3::digest128`
/// reports it.
pub uninterp spec fn xxh3_digest128(seed: u64, data: Seq<u8>) -> u128;

/// The 64-bit XXH3 digest of `data` under `seed`, as `Xxh3::digest`
/// reports it.
pub uninterp spec fn xxh3_digest64(seed: u64, data: Seq<u8>) -> u64;

/// The unseeded 128-bit XXH3 hash of `data`, as `xxh3_128` returns it.
pub uninterp spec fn xxh3_128_spec(data: Seq<u8>) -> u128;

/// `Xxh3Builder::new().with_seed(seed).build()`: a fresh streaming hasher
/// that has seen no input and carries the given seed.
#[verifier::external_body]
pub(crate) fn hasher_with_seed(seed: u64) -> (h: Xxh3)
    ensures
        hashed_bytes(h) == Seq::<u8>::empty(),
        hasher_seed(h) == seed,
{
    xxhash_rust::xxh3::Xxh3Builder::new().with_seed(seed).build()
}

/// `Xxh3::update`: appends `bytes` to the hasher's input and leaves the seed
/// alone.
#[verifier::external_body]
pub(crate) fn hasher_update(h: &mut Xxh3, bytes: &[u8])
    ensures
        hashed_bytes(*final(h)) == hashed_bytes(*old(h)) + bytes@,
        hasher_seed(*final(h)) == hasher_seed(*old(h)),
{
    h.update(bytes)
}

/// `Hasher::write_u8` on `Xxh3`: appends the single byte `byte` to the
/// hasher's input and leaves the seed alone.
#[verifier::external_body]
pub(crate) fn hasher_write_u8(h: &mut Xxh3, byte: u8)
    ensures
        hashed_bytes(*final(h)) == hashed_bytes(*old(h)).push(byte),
        hasher_seed(*final(h)) == hasher_seed(*old(h)),
{
    std::hash::Hasher::write_u8(h, byte)
}

/// `Xxh3::digest128`: the 128-bit digest of everything fed so far. It
/// depends on the seed and on the bytes only, not on how they were split
/// over calls of `update`, and it leaves the hasher unchanged.
#[verifier::external_body]
pub(crate) fn hasher_digest128(h: &Xxh3) -> (d: u128)
    ensures
        d == xxh3_digest128(hasher_seed(*h), hashed_bytes(*h)),
{
    h.digest128()
}

/// `Xxh3::digest`: the 64-bit digest of everything fed so far, a function
/// of the seed and the bytes only.
#[verifier::external_body]
pub(crate) fn hasher_digest64(h: &Xxh3) -> (d: u64)
    ensures
        d == xxh3_digest64(hasher_seed(*h), hashed_bytes(*h)),
{
    h.digest()
}

/// `xxhash_rust::xxh3::xxh3_128`: the unseeded one-shot 128-bit hash.
#[verifier::external_body]
pub(crate) fn xxh3_128(data: &[u8]) -> (d: u128)
    ensures
        d == xxh3_128_spec(data@),
{
    xxhash_rust::xxh3::xxh3_128(data)
}

} // verus!
