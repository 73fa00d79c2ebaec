use code20::customuint::{T, U256};

#[test]
fn test_bit_rotations() {
    let x = T::from(0b1011u64);
    let rotated_left = x.rotate_left(2);
    let rotated_right = x.rotate_right(2);

    println!("Original:       {}", x.to_decimal_string());
    println!("Rotate Left:  {}", rotated_left.to_decimal_string());
    println!("Rotate Right: {}", rotated_right.to_decimal_string());
}

#[test]
fn rotations_move_bits_around_the_top() {
    let x = T::from(0b1011u64);
    assert_eq!(x.rotate_left(2).0, [0b101100, 0, 0, 0]);
    assert_eq!(x.rotate_right(2).0, [0b10, 0, 0, 0b11u64 << 62]);
    assert_eq!(x.rotate_left(258).0, [0b101100, 0, 0, 0]);
    assert_eq!(x.rotate_left(0).0, x.0);
    assert_eq!(x.rotate_right(256).0, x.0);
}

#[test]
fn one_and_two_place_rotations() {
    let top = U256([0, 0, 0, 1u64 << 63]);
    assert_eq!(top.rotate_one_left().0, [1, 0, 0, 0]);
    assert_eq!(top.rotate_two_left().0, [2, 0, 0, 0]);
    let low = U256([1, 0, 0, 0]);
    assert_eq!(low.rotate_one_right().0, [0, 0, 0, 1u64 << 63]);
    // moves every bit down by one and copies bits 0 and 1 to the top
    assert_eq!(U256([0b101, 0, 0, 0]).rotate_two_right().0, [0b10, 0, 0, 1u64 << 62]);
    assert_eq!(U256([0b11, 0, 0, 0]).rotate_two_right().0, [1, 0, 0, 0b11u64 << 62]);
}

#[test]
fn rotating_back_gives_the_number() {
    let x = U256([0x0123_4567_89ab_cdef, 0xdead_beef, 7, 1u64 << 40]);
    for n in [0u32, 1, 2, 63, 64, 65, 200, 255, 300] {
        assert_eq!(x.rotate_left(n).rotate_right(n).0, x.0);
    }
}

#[test]
fn shifts_across_limbs() {
    let x = U256::from_u64(0x8000_0000_0000_0001);
    assert_eq!(x.shl(1).0, [2, 1, 0, 0]);
    assert_eq!(x.shl(64).0, [0, 0x8000_0000_0000_0001, 0, 0]);
    assert_eq!(x.shl(256).0, [0, 0, 0, 0]);
    assert_eq!(x.shr(63).0, [1, 0, 0, 0]);
    assert_eq!(x.shr(300).0, [0, 0, 0, 0]);
    assert_eq!(U256([1, 2, 3, 4]).bitor(U256([8, 0, 0, 1])).0, [9, 2, 3, 5]);
}

#[test]
fn reverse_bits_mirrors_the_number() {
    let x = U256([1, 0, 0, 0]);
    assert_eq!(x.reverse_bits().0, [0, 0, 0, 1u64 << 63]);
    let y = U256([0x0123_4567_89ab_cdef, 5, 0, 99]);
    assert_eq!(y.reverse_bits().reverse_bits().0, y.0);
}

#[test]
fn ilog2_is_the_highest_set_bit() {
    assert_eq!(U256([0, 0, 0, 0]).ilog2(), 0);
    assert_eq!(U256([1, 0, 0, 0]).ilog2(), 0);
    assert_eq!(U256([0b1011, 0, 0, 0]).ilog2(), 3);
    assert_eq!(U256([5, 1, 0, 0]).ilog2(), 64);
    assert_eq!(U256([0, 0, 0, 1u64 << 63]).ilog2(), 255);
}

#[test]
fn bitwise_operations_and_conversions() {
    let a = U256([0b1100, 1, 0, 7]);
    let b = U256([0b1010, 3, 0, 1]);
    assert_eq!(a.bitxor(b).0, [0b0110, 2, 0, 6]);
    assert_eq!(a.bitand(b).0, [0b1000, 1, 0, 1]);
    assert!(!a.is_zero());
    assert!(U256::from_u64(0).is_zero());
    assert_eq!(U256::from_u64(42).as_u64(), 42);
}

#[test]
fn u256_in_decimal() {
    assert_eq!(U256::from_u64(0).to_decimal_string(), "0");
    assert_eq!(T::from(0b1011u64).rotate_left(2).to_decimal_string(), "44");
    assert_eq!(U256([0, 1, 0, 0]).to_decimal_string(), "18446744073709551616");
    assert_eq!(
        U256([u64::MAX; 4]).to_decimal_string(),
        "115792089237316195423570985008687907853269984665640564039457584007913129639935"
    );
}
