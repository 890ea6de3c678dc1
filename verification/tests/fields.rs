use text_signals::fields::{decimal, fieldname};

#[test]
fn decimal_writes_numerals() {
    assert_eq!(decimal(0), "0");
    assert_eq!(decimal(7), "7");
    assert_eq!(decimal(10), "10");
    assert_eq!(decimal(1234567890), "1234567890");
    assert_eq!(decimal(usize::MAX), usize::MAX.to_string());
}

#[test]
fn fieldname_top_and_dup() {
    assert_eq!(fieldname(4, 10, 0), "top_1_gram_char_ratio");
    assert_eq!(fieldname(4, 10, 3), "top_4_gram_char_ratio");
    assert_eq!(fieldname(4, 10, 4), "dup_5_gram_char_ratio");
    assert_eq!(fieldname(4, 10, 9), "dup_10_gram_char_ratio");
    assert_eq!(fieldname(0, 1, 0), "dup_1_gram_char_ratio");
}
