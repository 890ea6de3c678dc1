use text_signals::mersenne::{affine61, mod61, mod61_128, MP};

#[test]
fn mod61_reduces_small_values_to_themselves() {
    assert_eq!(mod61(0), 0);
    assert_eq!(mod61(12345), 12345);
    assert_eq!(mod61(MP - 1), MP - 1);
}

#[test]
fn mod61_wraps_at_the_modulus() {
    assert_eq!(mod61(MP), 0);
    assert_eq!(mod61(MP + 1), 1);
    assert_eq!(mod61(u64::MAX), (u64::MAX % MP));
}

#[test]
fn mod61_128_matches_remainder() {
    assert_eq!(mod61_128(0), 0);
    assert_eq!(mod61_128(MP as u128), 0);
    assert_eq!(mod61_128(u128::MAX), (u128::MAX % (MP as u128)) as u64);
    let x: u128 = (MP as u128 - 1) * (MP as u128 - 1) + (MP as u128 - 1);
    assert_eq!(mod61_128(x), (x % (MP as u128)) as u64);
}

#[test]
fn affine61_is_exact_for_full_width_inputs() {
    let a = u64::MAX;
    let b = u64::MAX;
    let x = u64::MAX;
    let want = ((a as u128 * x as u128 + b as u128) % (MP as u128)) as u64;
    assert_eq!(affine61(a, b, x), want);
    assert_eq!(affine61(3, 4, 5), 19);
}
