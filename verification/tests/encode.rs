use text_signals::chars::count_chars;
use text_signals::encode::{be_bytes_of_u128s, be_bytes_of_u64s, push_be_u128, push_be_u64};

#[test]
fn big_endian_u64() {
    let mut out = vec![0xaau8];
    push_be_u64(&mut out, 0x0102030405060708);
    assert_eq!(out, vec![0xaa, 1, 2, 3, 4, 5, 6, 7, 8]);
    assert_eq!(be_bytes_of_u64s(&[1, u64::MAX]), [1u64.to_be_bytes(), u64::MAX.to_be_bytes()].concat());
    assert!(be_bytes_of_u64s(&[]).is_empty());
}

#[test]
fn big_endian_u128() {
    let x: u128 = 0x0102030405060708090a0b0c0d0e0f10;
    let mut out = Vec::new();
    push_be_u128(&mut out, x);
    assert_eq!(out, x.to_be_bytes().to_vec());
    assert_eq!(be_bytes_of_u128s(&[x, 7]), [x.to_be_bytes(), 7u128.to_be_bytes()].concat());
}

#[test]
fn count_chars_counts_scalar_values() {
    assert_eq!(count_chars("".as_bytes()), 0);
    assert_eq!(count_chars("abc".as_bytes()), 3);
    assert_eq!(count_chars("été".as_bytes()), 3);
    assert_eq!(count_chars("日本語".as_bytes()), 3);
    assert_eq!(count_chars("a😀b".as_bytes()), 3);
    let s = "mixed ascii, ünïcödé and 漢字";
    assert_eq!(count_chars(s.as_bytes()), s.chars().count());
}
