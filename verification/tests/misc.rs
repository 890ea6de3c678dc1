use std::io::Write;

use text_signals::deflate::{compressed_size, compressed_sizes, payload_size};
use text_signals::langid::fasttext_output;
use text_signals::sampling::samplebyte;

fn plain_stream_len(data: &[u8], level: u32) -> usize {
    let mut encoder =
        flate2::write::DeflateEncoder::new(Vec::new(), flate2::Compression::new(level));
    encoder.write_all(data).unwrap();
    encoder.finish().unwrap().len()
}

#[test]
fn samplebyte_is_one_more_than_the_leading_zeros() {
    assert_eq!(samplebyte(u64::MAX), Some(1));
    assert_eq!(samplebyte(1 << 63), Some(1));
    assert_eq!(samplebyte(1 << 62), Some(2));
    assert_eq!(samplebyte(0x0000_ffff_0000_0000), Some(17));
    assert_eq!(samplebyte(1), Some(64));
}

#[test]
fn samplebyte_asks_again_for_the_zero_word() {
    assert_eq!(samplebyte(0), None);
}

#[test]
fn compressed_size_leaves_out_the_stream_overhead() {
    let text = "a rose is a rose is a rose is a rose is a rose is a rose".as_bytes();
    for level in [0u32, 1, 6, 9] {
        let want = (plain_stream_len(text, level) - 2) as u64;
        assert_eq!(compressed_size(text, level), Some(want));
    }
    // Repetitive text shrinks.
    assert!(compressed_size(text, 6).unwrap() < text.len() as u64);
}

#[test]
fn compressed_size_of_empty_text() {
    let want = (plain_stream_len(b"", 6) - 2) as u64;
    assert_eq!(compressed_size(b"", 6), Some(want));
}

#[test]
fn compressed_size_refuses_levels_the_encoder_does_not_take() {
    assert_eq!(compressed_size(b"abc", 11), None);
    assert_eq!(compressed_size(b"abc", u32::MAX), None);
}

#[test]
fn payload_size_subtracts_two() {
    assert_eq!(payload_size(2), 0);
    assert_eq!(payload_size(100), 98);
}

#[test]
fn compressed_sizes_compress_each_row_on_its_own() {
    let rows = vec![
        Some("hello hello hello hello".to_string()),
        None,
        Some("hello hello hello hello".to_string()),
        Some("".to_string()),
    ];
    let sizes = compressed_sizes(&rows, 6);
    assert_eq!(sizes.len(), 4);
    assert_eq!(sizes[0], compressed_size("hello hello hello hello".as_bytes(), 6));
    assert_eq!(sizes[1], None);
    assert_eq!(sizes[2], sizes[0]);
    assert_eq!(sizes[3], compressed_size(b"", 6));
}

#[test]
fn fasttext_output_lists_aggregates_then_labels() {
    let labels = vec!["__label__en".to_string(), "__label__fr".to_string()];
    assert_eq!(
        fasttext_output(&labels, true, true),
        vec!["top_label", "top_score", "total_score", "__label__en", "__label__fr"]
    );
    assert_eq!(
        fasttext_output(&labels, true, false),
        vec!["top_label", "top_score", "total_score"]
    );
    assert_eq!(fasttext_output(&labels, false, true), vec!["__label__en", "__label__fr"]);
    assert!(fasttext_output(&labels, false, false).is_empty());
}
