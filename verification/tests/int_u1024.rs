use code20::int_u1024::{from_u128, mask_first_n_bits, one, to_u128, zero, U1024};
use std::cmp::Ordering;

/// A small xorshift generator standing in for a random source.
struct Rng(u64);

impl Rng {
    fn next_u64(&mut self) -> u64 {
        let mut x = self.0;
        x ^= x << 13;
        x ^= x >> 7;
        x ^= x << 17;
        self.0 = x;
        x
    }

    fn random_u128(&mut self) -> u128 {
        ((self.next_u64() as u128) << 64) | self.next_u64() as u128
    }

    fn random_range(&mut self, lo: usize, hi: usize) -> usize {
        lo + (self.next_u64() as usize) % (hi - lo)
    }
}

fn check_eq_builtin(x: u128, y: u128) {
    let a = from_u128(x);
    let b = from_u128(y);

    // Bitwise ops
    assert!(from_u128(x & y) == a.bitand(b), "AND failed for {x} & {y}");
    assert!(from_u128(x | y) == a.bitor(b), "OR failed for {x} | {y}");
    assert!(from_u128(x ^ y) == a.bitxor(b), "XOR failed for {x} ^ {y}");

    // Shifts — especially near 0, 63, 64, 65, 127
    for k in [0u32, 1, 63, 64, 65, 127] {
        let max_shift = 128 - x.ilog2();
        if k >= max_shift {
            continue;
        }

        assert!(from_u128(x << k) == a.shl(k as usize), "SHL failed for {x} << {k}");
        assert!(from_u128(x >> k) == a.shr(k as usize), "SHR failed for {x} >> {k}");
    }

    // Comparisons
    assert_eq!(x == y, a == b, "EQ failed for {x} vs {y}");
    assert_eq!(x < y, a.cmp(&b) == Ordering::Less, "LT failed for {x} vs {y}");
    assert_eq!(x > y, a.cmp(&b) == Ordering::Greater, "GT failed for {x} vs {y}");

    // Trailing zeros + ilog2 if implemented
    assert_eq!(x.trailing_zeros(), a.trailing_zeros(), "trailing_zeros failed for {x}");
    if x > 0 {
        assert_eq!(x.ilog2(), a.ilog2(), "ilog2 failed for {x}");
    }
}

#[test]
fn fuzz_all_operations_against_u128() {
    let mut rng = Rng(0x9e37_79b9_7f4a_7c15);
    for _ in 0..100_000 {
        let x: u128 = rng.random_u128();
        let y: u128 = rng.random_u128();
        check_eq_builtin(x, y);
    }
}

#[test]
fn check_shr_small() {
    let x: u128 = 1 << 100;
    let big = from_u128(x);
    assert!(from_u128(x >> 1) == big.shr(1));
}

#[test]
fn shifts_across_limb_boundary() {
    // Choose values that straddle 64-bit boundaries.
    let cases: [u128; 6] = [
        (1u128 << 63) | 1,
        (1u128 << 64) | 3,
        (1u128 << 65) | (1u128 << 1),
        (1u128 << 100) | (1u128 << 63),
        u128::MAX - 1,
        0x0123_4567_89AB_CDEF_FEDC_BA98_7654_3210u128,
    ];

    for &x in &cases {
        let a = from_u128(x);

        for k in [1usize, 2, 3, 7, 31, 32, 33, 63, 64, 65, 100, 127] {
            let max_shift = 128 - x.ilog2();
            if k >= max_shift as usize {
                continue;
            }

            // SHR
            let expected = from_u128(x >> k);
            let got = a.shr(k);
            assert!(expected == got, "SHR failed for {x} >> {k}");

            // SHL (mask to u128 width)
            let expected = from_u128(x.wrapping_shl(k as u32));
            let got = a.shl(k);
            assert!(expected == got, "SHL failed for {x} << {k}");
        }
    }
}

#[test]
fn fuzz_shifts_vs_u128() {
    let mut rng = Rng(0x2545_f491_4f6c_dd1d);
    for _ in 0..20_000 {
        let x: u128 = rng.random_u128();
        let a = from_u128(x);

        let max_shift = 128 - x.ilog2();

        // Right-shifts 1..127
        let k = rng.random_range(1, 128);
        if k >= max_shift as usize {
            continue;
        }
        assert!(from_u128(x >> k) == a.shr(k), "SHR fuzz {x} >> {k}");

        // Left-shifts 0..127 (wrapping within 128-bit window)
        let k = rng.random_range(0, 128);
        if k >= max_shift as usize {
            continue;
        }
        assert!(from_u128(x.wrapping_shl(k as u32)) == a.shl(k), "SHL fuzz {x} << {k}");
    }
}

#[test]
fn test_incrementing_shifts() {
    (1u128..1_000).for_each(|x| {
        let xi = from_u128(x);

        for s in 0..(127 - xi.ilog2()) {
            assert_eq!(to_u128(xi.shl(s as usize)), x << s, "SHL");
            assert_eq!(to_u128(xi.shr(s as usize)), x >> s, "SHR");
        }
    });
}

#[test]
fn test_power_of_two_shifts() {
    (0u128..127).for_each(|i| {
        let x = 1u128 << i;
        let xi = from_u128(x);

        println!("{x}");

        for s in 0..(127 - xi.ilog2()) {
            assert_eq!(to_u128(xi.shl(s as usize)), x << s, "SHL");
            assert_eq!(to_u128(xi.shr(s as usize)), x >> s, "SHR");
        }
    });
}

#[test]
fn test_first_n_bits_mask() {
    assert_eq!(to_u128(mask_first_n_bits(5)), (1 << 5) - 1);
}

#[test]
fn test_u128_conversion_equality() {
    (0u128..127).for_each(|i| {
        let x = 1u128 << i;
        let xi = to_u128(from_u128(x));

        assert_eq!(x, xi);
    });

    (1u128..1_000).for_each(|x| {
        let xi = to_u128(from_u128(x));

        assert_eq!(x, xi);
    });
}

#[test]
fn u1024_in_decimal() {
    assert_eq!(zero().to_decimal_string(), "0");
    assert_eq!(one().to_decimal_string(), "1");
    assert_eq!(from_u128(1234567890).to_decimal_string(), "1234567890");
    assert_eq!(from_u128(u128::MAX).to_decimal_string(), "340282366920938463463374607431768211455");
    // 2^128
    assert_eq!(one().shl(128).to_decimal_string(), "340282366920938463463374607431768211456");
}

#[test]
fn u1024_words_and_bits() {
    let x = U1024::from_words([5, 0, 0, 0, 0, 0, 0, 0, 0, 0, 0, 0, 0, 0, 0, 1]);
    assert_eq!(x.count_ones(), 3);
    assert_eq!(x.ilog2(), 960);
    assert_eq!(x.trailing_zeros(), 0);
    assert_eq!(zero().trailing_zeros(), 1024);
    assert!(x.reverse_bits().reverse_bits() == x);
    assert!(x.min(one()) == one());
    assert_eq!(to_u128(x.not().bitand(mask_first_n_bits(3))), 0b010);
}

#[test]
fn u1024_order() {
    assert!(from_u128(3) < from_u128(5));
    assert!(one().shl(900) > from_u128(u128::MAX));
    assert_eq!(from_u128(7).partial_cmp(&from_u128(7)), Some(Ordering::Equal));
}

#[test]
fn converting_agrees_with_the_bit_operations() {
    let pairs = [(0u128, 0u128), (0xdead_beef_0000_0001_ffff_0000_1234_5678, 0x0f0f_0f0f_f0f0_f0f0_0000_ffff_ffff_0000), (u128::MAX, 1u128 << 100)];
    for (x, y) in pairs {
        assert!(from_u128(x & y) == from_u128(x).bitand(from_u128(y)));
        assert!(from_u128(x | y) == from_u128(x).bitor(from_u128(y)));
        assert!(from_u128(x ^ y) == from_u128(x).bitxor(from_u128(y)));
        assert_eq!(x < y, from_u128(x) < from_u128(y));
        assert_eq!(x == y, from_u128(x) == from_u128(y));
    }
}

#[test]
fn halving_and_quadrupling_by_shifts() {
    for x in [0u128, 1, 2, 3, 7, 1 << 64, (1 << 100) + 5, u128::MAX >> 3] {
        assert!(from_u128(x).shr1() == from_u128(x / 2));
        assert!(from_u128(x).shl2() == from_u128(x * 4));
    }
    // the top two bits fall off when quadrupling
    assert!(one().shl(1023).shl2() == zero());
    assert!(one().shl(1021).shl2() == one().shl(1023));
    assert!(one().shl(1023).shr1() == one().shl(1022));
}
