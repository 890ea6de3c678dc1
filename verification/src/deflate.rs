//! Compressed sizes, as the `flate2` crate's raw DEFLATE encoder gives
//! them.

use std::io::Write;
use vstd::prelude::*;

verus! {

/// The highest compression level the encoder takes.
pub const MAX_LEVEL: u32 = 10;

/// The bytes that every DEFLATE stream spends on closing itself, which
/// the reported size leaves out.
pub const STREAM_OVERHEAD: usize = 2;

/// The length in bytes of the raw DEFLATE stream that `flate2` writes for
/// `data` at a compression level.
pub uninterp spec fn deflated_len(level: u32, data: Seq<u8>) -> usize;

/// `flate2::write::DeflateEncoder`: compresses `data` into a fresh stream
/// at the given level, finishes the stream, and gives its length. The
/// length depends on the level and the data only. Not proved.
#[verifier::external_body]
pub(crate) fn deflate_len(level: u32, data: &[u8]) -> (len: usize)
    requires
        level <= MAX_LEVEL,
    ensures
        len == deflated_len(level, data@),
{
    let sink: Vec<u8> = Vec::new();
    let mut encoder = flate2::write::DeflateEncoder::new(sink, flate2::Compression::new(level));
    let _ = encoder.write_all(data);
    encoder.finish().unwrap().len()
}

/// The size that is reported for a finished stream of `stream_len` bytes.
pub fn payload_size(stream_len: usize) -> (size: u64)
    requires
        stream_len >= STREAM_OVERHEAD,
    ensures
        size == stream_len - STREAM_OVERHEAD,
{
    (stream_len - STREAM_OVERHEAD) as u64
}

/// The compressed size of `data` at a level: the length of its DEFLATE
/// stream less the overhead. There is none for a level the encoder does
/// not take, nor for a stream shorter than the overhead.
pub open spec fn compressed_size_spec(level: u32, data: Seq<u8>) -> Option<u64> {
    if level <= MAX_LEVEL && deflated_len(level, data) >= STREAM_OVERHEAD {
        Some((deflated_len(level, data) - STREAM_OVERHEAD) as u64)
    } else {
        None
    }
}

/// The compressed size of `data` at a compression level.
pub fn compressed_size(data: &[u8], level: u32) -> (size: Option<u64>)
    ensures
        size == compressed_size_spec(level, data@),
{
    if level > MAX_LEVEL {
        return None;
    }
    let stream_len: usize = deflate_len(level, data);
    if stream_len < STREAM_OVERHEAD {
        None
    } else {
        Some(payload_size(stream_len))
    }
}

/// The compressed size of a row: that of its text where the row is
/// present and has one.
pub open spec fn row_compressed_size(level: u32, row: Option<String>) -> Option<u64> {
    match row {
        Some(text) => compressed_size_spec(level, vstd::utf8::encode_utf8(text@)),
        None => None,
    }
}

/// The compressed sizes of a batch of rows, each text compressed on its
/// own.
pub fn compressed_sizes(rows: &Vec<Option<String>>, level: u32) -> (sizes: Vec<Option<u64>>)
    ensures
        sizes@.len() == rows@.len(),
        forall|r: int|
            0 <= r < rows@.len() ==> #[trigger] sizes@[r] == row_compressed_size(level, rows@[r]),
{
    let mut sizes: Vec<Option<u64>> = Vec::new();
    let mut r: usize = 0;
    while r < rows.len()
        invariant
            r <= rows@.len(),
            sizes@.len() == r,
            forall|i: int|
                0 <= i < r ==> #[trigger] sizes@[i] == row_compressed_size(level, rows@[i]),
        decreases rows@.len() - r,
    {
        let size: Option<u64> = match &rows[r] {
            Some(text) => compressed_size(text.as_str().as_bytes(), level),
            None => None,
        };
        sizes.push(size);
        r = r + 1;
    }
    sizes
}

} // verus!
