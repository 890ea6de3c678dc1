//! Character lengths of UTF-8 encoded text, counted on the bytes.

use vstd::prelude::*;
use vstd::utf8::{
    decode_utf8, encode_utf8, encode_utf8_decode_utf8, encode_utf8_valid_utf8, is_char_boundary,
    is_char_boundary_iff_not_is_continuation_byte, is_char_boundary_start_end_of_seq,
    is_continuation_byte, length_of_first_scalar, pop_first_scalar, take_first_scalar,
    valid_first_scalar, valid_utf8, valid_utf8_split,
};

verus! {

/// The number of characters that start in `bytes`: every byte that is not
/// a UTF-8 continuation byte begins one.
pub open spec fn char_count(bytes: Seq<u8>) -> nat
    decreases bytes.len(),
{
    if bytes.len() == 0 {
        0
    } else {
        char_count(bytes.drop_last()) + if is_continuation_byte(bytes.last()) {
            0nat
        } else {
            1nat
        }
    }
}

/// A text never has more characters than bytes.
pub proof fn lemma_char_count_bound(bytes: Seq<u8>)
    ensures
        char_count(bytes) <= bytes.len(),
    decreases bytes.len(),
{
    if bytes.len() > 0 {
        lemma_char_count_bound(bytes.drop_last());
    }
}

/// Character counts add up over concatenation.
pub proof fn lemma_char_count_concat(a: Seq<u8>, b: Seq<u8>)
    ensures
        char_count(a + b) == char_count(a) + char_count(b),
    decreases b.len(),
{
    if b.len() == 0 {
        assert(a + b =~= a);
    } else {
        assert((a + b).drop_last() =~= a + b.drop_last());
        lemma_char_count_concat(a, b.drop_last());
    }
}

proof fn lemma_one_leading_byte(s: Seq<u8>)
    requires
        s.len() >= 1,
        !is_continuation_byte(s[0]),
        forall|i: int| 1 <= i < s.len() ==> is_continuation_byte(#[trigger] s[i]),
    ensures
        char_count(s) == 1,
    decreases s.len(),
{
    if s.len() == 1 {
        assert(char_count(s.drop_last()) == 0);
    } else {
        let rest = s.drop_last();
        assert(rest[0] == s[0]);
        assert forall|i: int| 1 <= i < rest.len() implies is_continuation_byte(
            #[trigger] rest[i],
        ) by {
            assert(rest[i] == s[i]);
        }
        lemma_one_leading_byte(rest);
        assert(is_continuation_byte(s[s.len() - 1]));
    }
}

proof fn lemma_first_scalar_is_one_char(bytes: Seq<u8>)
    requires
        bytes.len() > 0,
        valid_first_scalar(bytes),
    ensures
        char_count(take_first_scalar(bytes)) == 1,
{
    let first = take_first_scalar(bytes);
    let n = length_of_first_scalar(bytes);
    assert(1 <= n <= bytes.len());
    assert(first.len() == n);
    assert(first[0] == bytes[0]);
    assert forall|i: int| 1 <= i < first.len() implies is_continuation_byte(
        #[trigger] first[i],
    ) by {
        assert(first[i] == bytes[i]);
    }
    lemma_one_leading_byte(first);
}

/// On valid UTF-8 the count is the number of characters encoded.
pub proof fn lemma_char_count_is_decoded_length(bytes: Seq<u8>)
    requires
        valid_utf8(bytes),
    ensures
        char_count(bytes) == decode_utf8(bytes).len(),
    decreases bytes.len(),
{
    if bytes.len() > 0 {
        let first = take_first_scalar(bytes);
        let rest = pop_first_scalar(bytes);
        assert(bytes =~= first + rest);
        lemma_char_count_concat(first, rest);
        lemma_first_scalar_is_one_char(bytes);
        lemma_char_count_is_decoded_length(rest);
    }
}

/// The bytes of a text hold as many characters as the text has.
pub proof fn lemma_char_count_of_text(text: Seq<char>)
    ensures
        char_count(encode_utf8(text)) == text.len(),
{
    encode_utf8_valid_utf8(text);
    encode_utf8_decode_utf8(text);
    lemma_char_count_is_decoded_length(encode_utf8(text));
}

/// A slice of valid UTF-8 that is cut at character boundaries is valid
/// UTF-8 of its own, and its count is the number of its characters.
pub proof fn lemma_char_count_of_slice(bytes: Seq<u8>, start: int, end: int)
    requires
        valid_utf8(bytes),
        0 <= start <= end <= bytes.len(),
        is_char_boundary(bytes, start),
        is_char_boundary(bytes, end),
    ensures
        valid_utf8(bytes.subrange(start, end)),
        char_count(bytes.subrange(start, end)) == decode_utf8(bytes.subrange(start, end)).len(),
{
    let tail = bytes.subrange(start, bytes.len() as int);
    valid_utf8_split(bytes, start);
    let cut = end - start;
    if cut == tail.len() {
        is_char_boundary_start_end_of_seq(tail);
    } else {
        is_char_boundary_iff_not_is_continuation_byte(bytes, end);
        assert(tail[cut] == bytes[end]);
        is_char_boundary_iff_not_is_continuation_byte(tail, cut);
    }
    valid_utf8_split(tail, cut);
    assert(tail.subrange(0, cut) =~= bytes.subrange(start, end));
    lemma_char_count_is_decoded_length(bytes.subrange(start, end));
}

/// Counts the characters of a UTF-8 encoded byte string.
pub fn count_chars(bytes: &[u8]) -> (n: usize)
    ensures
        n == char_count(bytes@),
{
    let mut n: usize = 0;
    let mut i: usize = 0;
    while i < bytes.len()
        invariant
            i <= bytes.len(),
            n <= i,
            n == char_count(bytes@.take(i as int)),
        decreases bytes.len() - i,
    {
        let b: u8 = bytes[i];
        proof {
            assert(bytes@.take(i + 1).drop_last() =~= bytes@.take(i as int));
        }
        if b < 0x80 || b > 0xbf {
            n = n + 1;
        }
        i = i + 1;
    }
    proof {
        assert(bytes@.take(i as int) =~= bytes@);
    }
    n
}

/// `String::from_utf8` of the standard library, on bytes that are valid
/// UTF-8: the text that the bytes encode. Not proved.
#[verifier::external_body]
pub(crate) fn string_from_utf8(bytes: Vec<u8>) -> (text: String)
    requires
        valid_utf8(bytes@),
    ensures
        text@ == decode_utf8(bytes@),
{
    String::from_utf8(bytes).unwrap()
}

} // verus!
