//! Geometric byte samples: what a random 64-bit word decides.

use vstd::prelude::*;
use vstd::std_specs::bits::{axiom_u64_leading_zeros, u64_leading_zeros};

verus! {

/// The sample that a word decides: one more than its number of leading
/// zero bits, so that `k` comes with probability `2^-k` for a uniform word;
/// the zero word decides nothing and another word has to be drawn.
pub open spec fn samplebyte_spec(word: u64) -> Option<u8> {
    if word == 0 {
        None
    } else {
        Some((u64_leading_zeros(word) + 1) as u8)
    }
}

/// Turns a random word into a sample in `1..=64`, or asks for another word
/// when it is zero.
pub fn samplebyte(word: u64) -> (sample: Option<u8>)
    ensures
        sample == samplebyte_spec(word),
        sample matches Some(k) ==> 1 <= k <= 64,
{
    proof {
        axiom_u64_leading_zeros(word);
    }
    if word == 0 {
        None
    } else {
        let zeros: u32 = word.leading_zeros();
        Some((zeros + 1) as u8)
    }
}

} // verus!
