//! What both engines read off a token sequence: the bytes that stand for a
//! gram, and the characters a run of tokens holds.

use crate::chars::{char_count, lemma_char_count_bound};
use crate::pattern::spans_in_order;
use crate::tokens::token_seq;
use vstd::prelude::*;

verus! {

/// The byte that closes every token of a gram before it is hashed. It
/// never occurs in UTF-8 text, so the bytes of a gram determine its tokens.
pub const GRAM_SEPARATOR: u8 = 0xff;

/// The bytes that stand for the gram of `n + 1` tokens ending at position
/// `pos`: the tokens from the newest back to the oldest, each followed by
/// the separator.
pub open spec fn gram_bytes(toks: Seq<Seq<u8>>, pos: int, n: int) -> Seq<u8>
    decreases n + 1,
{
    if n < 0 {
        Seq::empty()
    } else {
        gram_bytes(toks, pos, n - 1) + toks[pos - n].push(GRAM_SEPARATOR)
    }
}

/// The character length of each token.
pub open spec fn token_chars(toks: Seq<Seq<u8>>) -> Seq<nat> {
    Seq::new(toks.len(), |i: int| char_count(toks[i]))
}

/// The characters held by the tokens at positions `lo..hi`, given the
/// character length of each token.
pub open spec fn range_chars(chars: Seq<nat>, lo: int, hi: int) -> nat
    decreases hi - lo,
{
    if hi <= lo {
        0
    } else {
        range_chars(chars, lo, hi - 1) + chars[hi - 1]
    }
}

/// The characters held by the gram of `n + 1` tokens ending at `pos`.
pub open spec fn gram_chars(chars: Seq<nat>, pos: int, n: int) -> nat {
    range_chars(chars, pos - n, pos + 1)
}

/// The characters of all tokens.
pub open spec fn total_chars(chars: Seq<nat>) -> nat {
    range_chars(chars, 0, chars.len() as int)
}

/// A run of tokens splits into two runs at any position inside it.
pub proof fn lemma_range_chars_split(chars: Seq<nat>, lo: int, mid: int, hi: int)
    requires
        lo <= mid <= hi,
    ensures
        range_chars(chars, lo, hi) == range_chars(chars, lo, mid) + range_chars(chars, mid, hi),
    decreases hi - mid,
{
    if mid < hi {
        lemma_range_chars_split(chars, lo, mid, hi - 1);
    }
}

/// A run of tokens holds no more characters than a run that contains it.
pub proof fn lemma_range_chars_monotone(chars: Seq<nat>, a: int, lo: int, hi: int, b: int)
    requires
        a <= lo <= hi <= b,
    ensures
        range_chars(chars, lo, hi) <= range_chars(chars, a, b),
{
    lemma_range_chars_split(chars, a, lo, b);
    lemma_range_chars_split(chars, lo, hi, b);
}

/// A run of tokens depends on the lengths of its own tokens only.
pub proof fn lemma_range_chars_agree(c1: Seq<nat>, c2: Seq<nat>, lo: int, hi: int)
    requires
        forall|i: int| lo <= i < hi ==> c1[i] == c2[i],
    ensures
        range_chars(c1, lo, hi) == range_chars(c2, lo, hi),
    decreases hi - lo,
{
    if lo < hi {
        lemma_range_chars_agree(c1, c2, lo, hi - 1);
    }
}

/// Tokens cut from a text in order hold, up to any position, no more
/// characters than the text has bytes before the end of the last of them.
pub proof fn lemma_range_chars_within_text(text: Seq<u8>, spans: Seq<(usize, usize)>, k: int)
    requires
        spans_in_order(spans, text.len() as int),
        0 <= k <= spans.len(),
    ensures
        range_chars(token_chars(token_seq(text, spans)), 0, k) <= if k == 0 {
            0
        } else {
            spans[k - 1].1 as int
        },
    decreases k,
{
    if k > 0 {
        lemma_range_chars_within_text(text, spans, k - 1);
        let toks = token_seq(text, spans);
        lemma_char_count_bound(toks[k - 1]);
        assert(spans[k - 1].0 <= spans[k - 1].1 <= text.len());
        if k > 1 {
            assert(spans[k - 2].1 <= spans[k - 1].0);
        }
    }
}

} // verus!
