use code20::int_u65536::{from_u128, mask_first_n_bits, one, to_u128, zero};

#[test]
fn u65536_shifts_and_masks() {
    let x = from_u128(0b1011);
    assert_eq!(to_u128(x.shl(3)), 0b1011000);
    assert_eq!(to_u128(x.shl(65536)), 0);
    assert_eq!(one().shl(65535).ilog2(), 65535);
    assert_eq!(one().shl(40000).shr(39999).trailing_zeros(), 1);
    assert_eq!(to_u128(mask_first_n_bits(2)), 3);
    assert!(zero() == from_u128(0));
}

#[test]
fn u65536_in_decimal() {
    assert_eq!(from_u128(987654321).to_decimal_string(), "987654321");
    assert_eq!(zero().to_decimal_string(), "0");
}

#[test]
fn u65536_order() {
    assert!(one().shl(65000) > one().shl(64999));
    assert!(!(zero() < zero()));
}
