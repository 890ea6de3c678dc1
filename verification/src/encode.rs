//! Byte and text encodings of the fingerprint: big-endian integers and
//! lowercase hexadecimal.

use vstd::prelude::*;

verus! {

/// The eight bytes of `x`, most significant first.
pub open spec fn be_bytes_u64(x: u64) -> Seq<u8> {
    seq![
        ((x >> 56) & 0xff) as u8,
        ((x >> 48) & 0xff) as u8,
        ((x >> 40) & 0xff) as u8,
        ((x >> 32) & 0xff) as u8,
        ((x >> 24) & 0xff) as u8,
        ((x >> 16) & 0xff) as u8,
        ((x >> 8) & 0xff) as u8,
        (x & 0xff) as u8,
    ]
}

/// The sixteen bytes of `x`, most significant first.
pub open spec fn be_bytes_u128(x: u128) -> Seq<u8> {
    be_bytes_u64(((x >> 64) & 0xffff_ffff_ffff_ffff) as u64) + be_bytes_u64(
        (x & 0xffff_ffff_ffff_ffff) as u64,
    )
}

/// The big-endian bytes of each value in turn.
pub open spec fn be_bytes_u64s(values: Seq<u64>) -> Seq<u8>
    decreases values.len(),
{
    if values.len() == 0 {
        Seq::empty()
    } else {
        be_bytes_u64s(values.drop_last()) + be_bytes_u64(values.last())
    }
}

/// The big-endian bytes of each value in turn.
pub open spec fn be_bytes_u128s(values: Seq<u128>) -> Seq<u8>
    decreases values.len(),
{
    if values.len() == 0 {
        Seq::empty()
    } else {
        be_bytes_u128s(values.drop_last()) + be_bytes_u128(values.last())
    }
}

/// Eight bytes per value.
pub proof fn lemma_be_bytes_u64s_len(values: Seq<u64>)
    ensures
        be_bytes_u64s(values).len() == 8 * values.len(),
    decreases values.len(),
{
    if values.len() > 0 {
        lemma_be_bytes_u64s_len(values.drop_last());
    }
}

/// Sixteen bytes per value.
pub proof fn lemma_be_bytes_u128s_len(values: Seq<u128>)
    ensures
        be_bytes_u128s(values).len() == 16 * values.len(),
    decreases values.len(),
{
    if values.len() > 0 {
        lemma_be_bytes_u128s_len(values.drop_last());
    }
}

/// The lowercase hexadecimal digit of a value below 16.
pub open spec fn hex_digit(d: int) -> char {
    if d == 0 {
        '0'
    } else if d == 1 {
        '1'
    } else if d == 2 {
        '2'
    } else if d == 3 {
        '3'
    } else if d == 4 {
        '4'
    } else if d == 5 {
        '5'
    } else if d == 6 {
        '6'
    } else if d == 7 {
        '7'
    } else if d == 8 {
        '8'
    } else if d == 9 {
        '9'
    } else if d == 10 {
        'a'
    } else if d == 11 {
        'b'
    } else if d == 12 {
        'c'
    } else if d == 13 {
        'd'
    } else if d == 14 {
        'e'
    } else {
        'f'
    }
}

/// The lowercase hexadecimal text of a byte string: two digits per byte,
/// the high half first.
pub open spec fn hex_string(bytes: Seq<u8>) -> Seq<char> {
    Seq::new(
        2 * bytes.len(),
        |i: int|
            if i % 2 == 0 {
                hex_digit(bytes[i / 2] as int / 16)
            } else {
                hex_digit(bytes[i / 2] as int % 16)
            },
    )
}

/// Appends the big-endian bytes of `x`.
pub fn push_be_u64(out: &mut Vec<u8>, x: u64)
    ensures
        final(out)@ == old(out)@ + be_bytes_u64(x),
{
    let b0: u64 = (x >> 56) & 0xff;
    let b1: u64 = (x >> 48) & 0xff;
    let b2: u64 = (x >> 40) & 0xff;
    let b3: u64 = (x >> 32) & 0xff;
    let b4: u64 = (x >> 24) & 0xff;
    let b5: u64 = (x >> 16) & 0xff;
    let b6: u64 = (x >> 8) & 0xff;
    let b7: u64 = x & 0xff;
    assert(b0 < 256 && b1 < 256 && b2 < 256 && b3 < 256 && b4 < 256 && b5 < 256 && b6 < 256 && b7
        < 256) by (bit_vector)
        requires
            b0 == (x >> 56) & 0xff,
            b1 == (x >> 48) & 0xff,
            b2 == (x >> 40) & 0xff,
            b3 == (x >> 32) & 0xff,
            b4 == (x >> 24) & 0xff,
            b5 == (x >> 16) & 0xff,
            b6 == (x >> 8) & 0xff,
            b7 == x & 0xff,
    ;
    out.push(b0 as u8);
    out.push(b1 as u8);
    out.push(b2 as u8);
    out.push(b3 as u8);
    out.push(b4 as u8);
    out.push(b5 as u8);
    out.push(b6 as u8);
    out.push(b7 as u8);
    assert(out@ =~= old(out)@ + be_bytes_u64(x));
}

/// Appends the big-endian bytes of `x`.
pub fn push_be_u128(out: &mut Vec<u8>, x: u128)
    ensures
        final(out)@ == old(out)@ + be_bytes_u128(x),
{
    let hi: u128 = (x >> 64) & 0xffff_ffff_ffff_ffff;
    let lo: u128 = x & 0xffff_ffff_ffff_ffff;
    assert(hi <= 0xffff_ffff_ffff_ffff && lo <= 0xffff_ffff_ffff_ffff) by (bit_vector)
        requires
            hi == (x >> 64) & 0xffff_ffff_ffff_ffff,
            lo == x & 0xffff_ffff_ffff_ffff,
    ;
    push_be_u64(out, hi as u64);
    push_be_u64(out, lo as u64);
    assert(out@ =~= old(out)@ + be_bytes_u128(x));
}

/// The big-endian bytes of a list of 64-bit values.
pub fn be_bytes_of_u64s(values: &[u64]) -> (out: Vec<u8>)
    ensures
        out@ == be_bytes_u64s(values@),
{
    let mut out: Vec<u8> = Vec::new();
    let mut i: usize = 0;
    while i < values.len()
        invariant
            i <= values.len(),
            out@ == be_bytes_u64s(values@.take(i as int)),
        decreases values.len() - i,
    {
        proof {
            assert(values@.take(i + 1).drop_last() =~= values@.take(i as int));
        }
        push_be_u64(&mut out, values[i]);
        i = i + 1;
    }
    proof {
        assert(values@.take(i as int) =~= values@);
    }
    out
}

/// The big-endian bytes of a list of 128-bit values.
pub fn be_bytes_of_u128s(values: &[u128]) -> (out: Vec<u8>)
    ensures
        out@ == be_bytes_u128s(values@),
{
    let mut out: Vec<u8> = Vec::new();
    let mut i: usize = 0;
    while i < values.len()
        invariant
            i <= values.len(),
            out@ == be_bytes_u128s(values@.take(i as int)),
        decreases values.len() - i,
    {
        proof {
            assert(values@.take(i + 1).drop_last() =~= values@.take(i as int));
        }
        push_be_u128(&mut out, values[i]);
        i = i + 1;
    }
    proof {
        assert(values@.take(i as int) =~= values@);
    }
    out
}

/// `hex::encode`: the lowercase hexadecimal text of the bytes, two digits
/// per byte. Not proved.
#[verifier::external_body]
pub(crate) fn hex_encode(bytes: &[u8]) -> (text: String)
    ensures
        text@ == hex_string(bytes@),
{
    hex::encode(bytes)
}

} // verus!
