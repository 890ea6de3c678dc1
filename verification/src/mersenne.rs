//! Arithmetic modulo the Mersenne prime `2^61 - 1`, the field of the affine
//! hash family `h(x) = (a * x + b) mod p`.

use vstd::prelude::*;

verus! {

/// The Mersenne prime `2^61 - 1`.
pub const MP: u64 = 0x1fff_ffff_ffff_ffff;

/// `MP`, widened to 128 bits.
pub const MP_128: u128 = 0x1fff_ffff_ffff_ffff;

/// The affine hash `(a * x + b) mod p` over the integers.
pub open spec fn affine_spec(a: int, b: int, x: int) -> int {
    (a * x + b) % (MP as int)
}

/// Folding at bit 61 keeps the residue modulo `2^61 - 1`, because
/// `2^61` is congruent to 1.
proof fn lemma_fold_residue(hi: int, lo: int)
    requires
        0 <= hi,
        0 <= lo,
    ensures
        (hi * 0x2000_0000_0000_0000 + lo) % (MP as int) == (hi + lo) % (MP as int),
{
    vstd::arithmetic::div_mod::lemma_mod_multiples_vanish(hi, hi + lo, MP as int);
    assert(hi * 0x2000_0000_0000_0000 + lo == (MP as int) * hi + (hi + lo)) by (nonlinear_arith);
}

/// Reduces a 64-bit value modulo `2^61 - 1`.
pub fn mod61(x: u64) -> (r: u64)
    ensures
        r == x % MP,
        r < MP,
{
    let lo: u64 = x & MP;
    let hi: u64 = x >> 61;
    assert(lo <= 0x1fff_ffff_ffff_ffff && hi <= 7 && x == hi * 0x2000_0000_0000_0000 + lo)
        by (bit_vector)
        requires
            lo == x & 0x1fff_ffff_ffff_ffff,
            hi == x >> 61,
    ;
    proof {
        lemma_fold_residue(hi as int, lo as int);
    }
    let y: u64 = lo + hi;
    if y < MP {
        y
    } else {
        y - MP
    }
}

/// Reduces a 128-bit value modulo `2^61 - 1`.
///
/// Two folds bring any 128-bit value below `2 * p`, so the result is
/// the residue for every input.
pub fn mod61_128(x: u128) -> (r: u64)
    ensures
        r == x % MP_128,
        r < MP,
{
    let lo: u128 = x & MP_128;
    let hi: u128 = x >> 61;
    assert(lo <= 0x1fff_ffff_ffff_ffff && hi <= 0x7_ffff_ffff_ffff_ffff && x == hi
        * 0x2000_0000_0000_0000 + lo) by (bit_vector)
        requires
            lo == x & 0x1fff_ffff_ffff_ffff,
            hi == x >> 61,
    ;
    proof {
        lemma_fold_residue(hi as int, lo as int);
    }
    let y: u128 = lo + hi;
    let lo2: u128 = y & MP_128;
    let hi2: u128 = y >> 61;
    assert(lo2 <= 0x1fff_ffff_ffff_ffff && hi2 <= 0x40 && y == hi2 * 0x2000_0000_0000_0000 + lo2)
        by (bit_vector)
        requires
            lo2 == y & 0x1fff_ffff_ffff_ffff,
            hi2 == y >> 61,
            y <= 0x8_1fff_ffff_ffff_fffe,
    ;
    proof {
        lemma_fold_residue(hi2 as int, lo2 as int);
    }
    let z: u64 = (lo2 + hi2) as u64;
    if z < MP {
        z
    } else {
        z - MP
    }
}

/// One member of the affine hash family: `(a * x + b) mod (2^61 - 1)`,
/// computed with a 128-bit intermediate.
pub fn affine61(a: u64, b: u64, x: u64) -> (r: u64)
    ensures
        r == affine_spec(a as int, b as int, x as int),
        r < MP,
{
    assert(a * x + b <= 0xffff_ffff_ffff_ffff_ffff_ffff_ffff_ffff) by (nonlinear_arith)
        requires
            a <= 0xffff_ffff_ffff_ffff,
            x <= 0xffff_ffff_ffff_ffff,
            b <= 0xffff_ffff_ffff_ffff,
    ;
    assert(a * x >= 0) by (nonlinear_arith)
        requires
            a >= 0,
            x >= 0,
    ;
    let y: u128 = (a as u128) * (x as u128) + (b as u128);
    mod61_128(y)
}

} // verus!
