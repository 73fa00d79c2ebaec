use code20::int_u256::{from_u128, mask_first_n_bits, one, to_u128, zero};
use std::cmp::Ordering;

#[test]
fn u256_shifts_and_masks() {
    let x = from_u128(0x8000_0000_0000_0001);
    assert_eq!(to_u128(x.shl(1)), 0x1_0000_0000_0000_0002);
    // only the low word of a u128 is kept
    assert_eq!(to_u128(from_u128(1u128 << 70)), 0);
    assert_eq!(to_u128(from_u128(u128::MAX)), u64::MAX as u128);
    assert_eq!(to_u128(x.shr(63)), 1);
    assert!(x.shl(256) == zero());
    assert_eq!(to_u128(mask_first_n_bits(70)), (1u128 << 70) - 1);
    assert_eq!(one().shl(200).ilog2(), 200);
    assert_eq!(one().shl(200).trailing_zeros(), 200);
    assert_eq!(zero().trailing_zeros(), 256);
    assert!(from_u128(3).cmp(&from_u128(5)) == Ordering::Less);
}

#[test]
fn int_u256_in_decimal() {
    assert_eq!(zero().to_decimal_string(), "0");
    assert_eq!(one().shl(64).to_decimal_string(), "18446744073709551616");
    assert_eq!(from_u128((1u128 << 64) + 7).to_decimal_string(), "7");
    // 2^255
    assert_eq!(
        one().shl(255).to_decimal_string(),
        "57896044618658097711785492504343953926634992332820282019728792003956564819968"
    );
}

#[test]
fn u256_order() {
    assert!(one().shl(100) > from_u128(1 << 63));
    assert!(zero() < one());
}
