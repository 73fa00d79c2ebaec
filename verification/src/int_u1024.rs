//! A 1024-bit unsigned integer made of sixteen little-endian `u64` limbs.
use vstd::prelude::*;
use crate::decimal::{is_decimal, digit_char, limbs_to_string};
use vstd::std_specs::cmp::{PartialEqSpecImpl, PartialOrdSpecImpl};
use crate::bits::{
    limb_bit, limb_base, limbs_value, popcount_limbs, lemma_limbs_value_two, lemma_limbs_value_zero,
    lemma_limbs_value_lt_at, lemma_single_bit, lemma_zero_bit, lemma_word_ops_bit, lemma_zero_limbs,
    lemma_popcount_limbs_bound, u64_count_ones, u64_reverse_bits, wbit, shl_word, shr_word,
    shifted_left, shifted_right, lemma_shl_words, lemma_shr_words,
    lemma_word_misc, lemma_u128_halves, lemma_usize_div64, limbs_cap, lemma_shr1_value, lemma_shl2_value,
};

verus! {

broadcast use vstd::std_specs::bits::axiom_u64_trailing_zeros, vstd::std_specs::bits::axiom_u64_leading_zeros;

/// The width of `U1024` in bits.
pub const BITS: usize = 1024;

/// A 1024-bit unsigned integer; `v[0]` is the least significant limb.
#[derive(Clone, Copy, Default, Hash)]
pub struct U1024 {
    pub v: [u64; 16],
}

impl PartialEq for U1024 {
    /// Equal exactly when every limb is equal.
    fn eq(&self, other: &Self) -> (r: bool) {
        let mut i: usize = 0;
        while i < 16
            invariant
                i <= 16,
                forall|j: int| 0 <= j < i ==> self.v@[j] == other.v@[j],
            decreases 16 - i,
        {
            if self.v[i] != other.v[i] {
                return false;
            }
            i = i + 1;
        }
        assert(self.v@ =~= other.v@);
        true
    }
}

impl PartialEqSpecImpl for U1024 {
    open spec fn obeys_eq_spec() -> bool {
        true
    }

    open spec fn eq_spec(&self, other: &Self) -> bool {
        self.v@ == other.v@
    }
}

impl Eq for U1024 {

}

impl PartialOrd for U1024 {
    /// How the numbers compare; always comparable.
    fn partial_cmp(&self, other: &Self) -> (r: Option<std::cmp::Ordering>) {
        Some(self.cmp(other))
    }
}

impl PartialOrdSpecImpl for U1024 {
    open spec fn obeys_partial_cmp_spec() -> bool {
        true
    }

    open spec fn partial_cmp_spec(&self, other: &Self) -> Option<std::cmp::Ordering> {
        Some(
            if self.value() < other.value() {
                std::cmp::Ordering::Less
            } else if self.value() == other.value() {
                std::cmp::Ordering::Equal
            } else {
                std::cmp::Ordering::Greater
            },
        )
    }
}

/// The integer type that the Code 20 search runs on.
pub type Int = U1024;

impl U1024 {
    /// The number in decimal notation: digits without leading zeros, `0`
    /// for zero.
    pub fn to_decimal_string(&self) -> (s: String)
        ensures
            exists|d: Seq<u8>| is_decimal(d, self.value()) && s@ == d.map_values(|c: u8| digit_char(c)),
    {
        let limbs = vstd::array::array_as_slice(&self.v);
        proof {
            vstd::array::axiom_spec_array_as_slice(&self.v);
        }
        assert(limbs@ == self.v@);
        let s = limbs_to_string(limbs);
        proof {
            let d = choose|d: Seq<u8>| is_decimal(d, limbs_value(limbs@)) && s@ == d.map_values(|c: u8| digit_char(c));
            assert(is_decimal(d, self.value()));
        }
        s
    }

    /// Bit `k` of the number (false outside `0..1024`).
    pub open spec fn bit(&self, k: int) -> bool {
        limb_bit(self.v@, k)
    }

    /// The number the limbs stand for.
    pub open spec fn value(&self) -> nat {
        limbs_value(self.v@)
    }

    /// No limb is set.
    pub open spec fn is_zero(&self) -> bool {
        forall|i: int| 0 <= i < 16 ==> self.v@[i] == 0u64
    }
}

/// The low eight bits of `n`.
pub fn to_u8(n: Int) -> (r: u8)
    ensures
        r == n.v[0] % 256,
{
    let w = n.v[0];
    proof {
        lemma_word_misc(w, 0, 0);
    }
    w as u8
}

/// The number one.
pub fn one() -> (r: Int)
    ensures
        r.value() == 1,
        forall|k: int| #[trigger] r.bit(k) == (k == 0),
{
    let r = U1024 { v: [1, 0, 0, 0, 0, 0, 0, 0, 0, 0, 0, 0, 0, 0, 0, 0] };
    proof {
        lemma_limbs_value_two(r.v@);
        assert forall|k: int| #[trigger] r.bit(k) == (k == 0) by {
            if 0 <= k < 1024 {
                let b = (k % 64) as u64;
                if k / 64 == 0 {
                    lemma_single_bit(0, b);
                    lemma_word_misc(0, 0, 0);
                } else {
                    lemma_zero_bit(b);
                }
            }
        }
    }
    r
}

/// Bit `k` of `n` (false outside `0..128`).
pub open spec fn u128_bit(n: u128, k: int) -> bool {
    0 <= k < 128 && (n >> (k as u128)) & 1u128 == 1u128
}

/// `r` holds the number `n`, bit for bit.
pub open spec fn holds_u128(r: U1024, n: u128) -> bool {
    &&& r.value() == n
    &&& forall|k: int| #[trigger] r.bit(k) == u128_bit(n, k)
}

/// Bit `b` of the low and of the high word of `n` are bits `b` and `64 + b` of `n`.
proof fn lemma_u128_word_bits(n: u128, b: u64)
    requires
        b < 64,
    ensures
        wbit(n as u64, b) == u128_bit(n, b as int),
        wbit((n >> 64) as u64, b) == u128_bit(n, 64 + b),
{
    let c = b as u128;
    assert(((((n as u64) >> b) & 1u64) == 1u64) == (((n >> c) & 1u128) == 1u128)) by (bit_vector)
        requires
            c == b as u128,
            b < 64,
    ;
    assert((((((n >> 64u128) as u64) >> b) & 1u64) == 1u64) == (((n >> (64u128 + c)) & 1u128) == 1u128)) by (bit_vector)
        requires
            c == b as u128,
            b < 64,
    ;
    assert((64 + b) as u128 == 64u128 + c);
}

/// The number `n`.
pub fn from_u128(n: u128) -> (r: U1024)
    ensures
        r.value() == n,
        holds_u128(r, n),
{
    let w1 = n as u64;
    let w2 = (n >> 64) as u64;
    let r = U1024 { v: [w1, w2, 0, 0, 0, 0, 0, 0, 0, 0, 0, 0, 0, 0, 0, 0] };
    proof {
        lemma_u128_halves(n, 0, 0);
        lemma_limbs_value_two(r.v@);
        assert forall|k: int| #[trigger] r.bit(k) == u128_bit(n, k) by {
            if 0 <= k < 1024 {
                let b = (k % 64) as u64;
                if k < 64 {
                    assert(k / 64 == 0);
                    lemma_u128_word_bits(n, b);
                } else if k < 128 {
                    assert(k / 64 == 1);
                    lemma_u128_word_bits(n, b);
                    assert(64 + b == k);
                } else {
                    lemma_zero_bit(b);
                    let kk = k as u128;
                    assert(kk >= 128 ==> (n >> kk) & 1u128 == 0u128) by (bit_vector);
                }
            }
        }
    }
    r
}

/// The bits of `x & y`, `x | y` and `x ^ y`.
proof fn lemma_u128_ops_bits(x: u128, y: u128, k: int)
    ensures
        u128_bit(x & y, k) == (u128_bit(x, k) && u128_bit(y, k)),
        u128_bit(x | y, k) == (u128_bit(x, k) || u128_bit(y, k)),
        u128_bit(x ^ y, k) == (u128_bit(x, k) != u128_bit(y, k)),
{
    if 0 <= k < 128 {
        let kk = k as u128;
        assert((((x & y) >> kk) & 1u128 == 1u128) == (((x >> kk) & 1u128 == 1u128) && ((y >> kk) & 1u128 == 1u128))
            && (((x | y) >> kk) & 1u128 == 1u128) == (((x >> kk) & 1u128 == 1u128) || ((y >> kk) & 1u128 == 1u128))
            && (((x ^ y) >> kk) & 1u128 == 1u128) == (((x >> kk) & 1u128 == 1u128) != ((y >> kk) & 1u128 == 1u128)))
            by (bit_vector);
    }
}

/// Converting from `u128` agrees with the operations on numbers: the number
/// made from `x & y` (`x | y`, `x ^ y`) has exactly the bits of the numbers made
/// from `x` and `y` combined by and (or, exclusive or), and the numbers made
/// from `x` and `y` compare as `x` and `y` do.
pub proof fn law_from_u128_agrees(x: u128, y: u128, a: U1024, b: U1024, c: U1024, d: U1024, e: U1024)
    requires
        holds_u128(a, x),
        holds_u128(b, y),
        holds_u128(c, x & y),
        holds_u128(d, x | y),
        holds_u128(e, x ^ y),
    ensures
        forall|k: int| #[trigger] c.bit(k) == (a.bit(k) && b.bit(k)),
        forall|k: int| #[trigger] d.bit(k) == (a.bit(k) || b.bit(k)),
        forall|k: int| #[trigger] e.bit(k) == (a.bit(k) != b.bit(k)),
        (x == y) == (a.value() == b.value()),
        (x < y) == (a.value() < b.value()),
        (x > y) == (a.value() > b.value()),
{
    assert forall|k: int| #[trigger] c.bit(k) == (a.bit(k) && b.bit(k)) by {
        lemma_u128_ops_bits(x, y, k);
    }
    assert forall|k: int| #[trigger] d.bit(k) == (a.bit(k) || b.bit(k)) by {
        lemma_u128_ops_bits(x, y, k);
    }
    assert forall|k: int| #[trigger] e.bit(k) == (a.bit(k) != b.bit(k)) by {
        lemma_u128_ops_bits(x, y, k);
    }
}

/// Bit `i` of `x << k` and of `x >> k`, for places and shifts below 128.
proof fn lemma_u128_shift_bits(x: u128, k: u128, i: u128)
    requires
        k < 128,
        i < 128,
    ensures
        (((x << k) >> i) & 1u128 == 1u128) == (k <= i && (x >> (i - k) as u128) & 1u128 == 1u128),
        (((x >> k) >> i) & 1u128 == 1u128) == (i + k < 128 && (x >> (i + k) as u128) & 1u128 == 1u128),
{
    assert((((x << k) >> i) & 1u128 == 1u128) == (k <= i && (x >> (i - k) as u128) & 1u128 == 1u128)) by (bit_vector)
        requires
            k < 128,
            i < 128,
    ;
    assert((((x >> k) >> i) & 1u128 == 1u128) == (i + k < 128 && (x >> (i + k) as u128) & 1u128 == 1u128)) by (bit_vector)
        requires
            k < 128,
            i < 128,
    ;
}

/// Converting from `u128` agrees with shifting: the number made from `x >> k`
/// has the bits of the number made from `x` moved down by `k` places, as
/// `shr` moves them, and, where no set bit of `x` is pushed past bit 127, the
/// number made from `x << k` has them moved up by `k` places, as `shl` moves
/// them.
pub proof fn law_from_u128_shifts(x: u128, k: u128, a: U1024, l: U1024, r: U1024)
    requires
        k < 128,
        holds_u128(a, x),
        holds_u128(l, x << k),
        holds_u128(r, x >> k),
    ensures
        forall|i: int| 0 <= i < 1024 ==> #[trigger] r.bit(i) == a.bit(i + k),
        (forall|j: int| u128_bit(x, j) ==> j + k < 128) ==> forall|i: int|
            0 <= i < 1024 ==> #[trigger] l.bit(i) == (k <= i && a.bit(i - k)),
{
    assert forall|i: int| 0 <= i < 1024 implies #[trigger] r.bit(i) == a.bit(i + k) by {
        if i < 128 {
            lemma_u128_shift_bits(x, k, i as u128);
            assert((i + k) as u128 == (i as u128 + k) as u128);
        }
    }
    if forall|j: int| u128_bit(x, j) ==> j + k < 128 {
        assert forall|i: int| 0 <= i < 1024 implies #[trigger] l.bit(i) == (k <= i && a.bit(i - k)) by {
            if i < 128 {
                lemma_u128_shift_bits(x, k, i as u128);
                if k <= i {
                    assert((i - k) as u128 == (i as u128 - k) as u128);
                }
            } else if k <= i && a.bit(i - k) {
                assert(u128_bit(x, i - k));
            }
        }
    }
}

/// Converting from `u128` agrees with the lowest and the highest set bit: a
/// place is the lowest (highest) set bit of the number made from `x`, as
/// `trailing_zeros` (`ilog2`) reports it, exactly when it is the lowest
/// (highest) set bit of `x`, which is what `u128::trailing_zeros`
/// (`u128::ilog2`) reports for a nonzero `x`.
pub proof fn law_from_u128_set_bits(x: u128, a: U1024)
    requires
        holds_u128(a, x),
    ensures
        forall|p: int|
            (0 <= p < 1024 && a.bit(p) && forall|j: int| 0 <= j < p ==> !#[trigger] a.bit(j)) <==> (
            u128_bit(x, p) && forall|j: int| 0 <= j < p ==> !#[trigger] u128_bit(x, j)),
        forall|p: int|
            (0 <= p < 1024 && a.bit(p) && forall|j: int| p < j < 1024 ==> !#[trigger] a.bit(j)) <==> (
            u128_bit(x, p) && forall|j: int| p < j < 128 ==> !#[trigger] u128_bit(x, j)),
{
    assert forall|p: int|
        (0 <= p < 1024 && a.bit(p) && forall|j: int| p < j < 1024 ==> !#[trigger] a.bit(j)) <== (
        u128_bit(x, p) && forall|j: int| p < j < 128 ==> !#[trigger] u128_bit(x, j)) by {
        if u128_bit(x, p) && forall|j: int| p < j < 128 ==> !#[trigger] u128_bit(x, j) {
            assert forall|j: int| p < j < 1024 implies !#[trigger] a.bit(j) by {
                assert(a.bit(j) == u128_bit(x, j));
            }
        }
    }
    assert forall|p: int|
        (0 <= p < 1024 && a.bit(p) && forall|j: int| 0 <= j < p ==> !#[trigger] a.bit(j)) ==> (
        u128_bit(x, p) && forall|j: int| 0 <= j < p ==> !#[trigger] u128_bit(x, j)) by {
        if 0 <= p < 1024 && a.bit(p) && forall|j: int| 0 <= j < p ==> !#[trigger] a.bit(j) {
            assert(u128_bit(x, p) == a.bit(p));
            assert forall|j: int| 0 <= j < p implies !#[trigger] u128_bit(x, j) by {
                assert(a.bit(j) == u128_bit(x, j));
            }
        }
    }
}

/// Moving every bit down by one place halves the number: when `r` has the
/// bits of `a` moved down by one, as `shr1` makes it, `r` stands for half of
/// `a`'s number, rounded down.
pub proof fn law_shr1_halves(a: U1024, r: U1024)
    requires
        forall|k: int| 0 <= k < 1024 ==> #[trigger] r.bit(k) == a.bit(k + 1),
    ensures
        r.value() == a.value() / 2,
{
    assert forall|k: int| 0 <= k < 64 * a.v@.len() implies #[trigger] limb_bit(r.v@, k) == limb_bit(a.v@, k + 1) by {
        assert(r.bit(k) == a.bit(k + 1));
    }
    lemma_shr1_value(a.v@, r.v@);
}

/// Moving every bit up by two places multiplies the number by four, cut to
/// 1024 bits: when `r` has the bits of `a` moved up by two, as `shl2` makes
/// it, `r` stands for `4 * a` modulo `2^1024`.
pub proof fn law_shl2_quadruples(a: U1024, r: U1024)
    requires
        forall|k: int| 0 <= k < 1024 ==> #[trigger] r.bit(k) == (2 <= k && a.bit(k - 2)),
    ensures
        r.value() == (4 * a.value()) % limbs_cap(16),
{
    assert forall|k: int| 0 <= k < 64 * a.v@.len() implies #[trigger] limb_bit(r.v@, k) == (if k < 2 {
        (0u64 >> (k as u64)) & 1u64 == 1u64
    } else {
        limb_bit(a.v@, k - 2)
    }) by {
        assert(r.bit(k) == (2 <= k && a.bit(k - 2)));
        if k < 2 {
            lemma_zero_bit(k as u64);
        }
    }
    lemma_shl2_value(a.v@, r.v@, 0);
}

/// The two low limbs of `n` as one `u128`.
pub fn to_u128(n: Int) -> (r: u128)
    ensures
        r == n.v[0] + limb_base() * n.v[1],
{
    let lo = n.v[0];
    let hi = n.v[1];
    proof {
        lemma_u128_halves(0, lo, hi);
    }
    n.v[0] as u128 + ((n.v[1] as u128) << 64)
}

/// The number whose low `n` bits are set and whose other bits are clear.
pub fn mask_first_n_bits(n: usize) -> (r: Int)
    requires
        n <= 1024,
    ensures
        forall|k: int| 0 <= k < 1024 ==> #[trigger] r.bit(k) == (k < n),
{
    let mut o = [0u64; 16];
    proof {
        lemma_zero_limbs(o@);
    }
    for i in 0..n
        invariant
            n <= 1024,
            forall|k: int| 0 <= k < 1024 ==> #[trigger] limb_bit(o@, k) == (k < i),
    {
        let wi = i / 64;
        let bi = i % 64;
        let old_o = o;
        o[wi] = o[wi] | (1u64 << (bi as u64));
        proof {
            assert forall|k: int| 0 <= k < 1024 implies #[trigger] limb_bit(o@, k) == (k < i + 1) by {
                let b = (k % 64) as u64;
                assert(limb_bit(old_o@, k) == (k < i));
                if k / 64 == wi as int {
                    lemma_word_ops_bit(old_o[wi as int], 1u64 << (bi as u64), b);
                    lemma_single_bit(bi as u64, b);
                }
            }
        }
    }
    Int { v: o }
}

impl Int {
    /// The number of set bits.
    pub fn count_ones(&self) -> (r: u32)
        ensures
            r == popcount_limbs(self.v@, 16),
    {
        let mut total = 0u32;
        for i in 0..16
            invariant
                total == popcount_limbs(self.v@, i as int),
        {
            proof {
                lemma_popcount_limbs_bound(self.v@, i + 1);
            }
            total += u64_count_ones(self.v[i]);
        }
        total
    }
}

impl U1024 {
    /// The number with the given limbs.
    pub fn from_words(words: [u64; 16]) -> (r: Self)
        ensures
            r.v == words,
    {
        Self { v: words }
    }

    /// How `self` compares with `other` as numbers.
    pub fn cmp(&self, other: &Self) -> (r: std::cmp::Ordering)
        ensures
            r == std::cmp::Ordering::Less <==> self.value() < other.value(),
            r == std::cmp::Ordering::Equal <==> self.value() == other.value(),
            r == std::cmp::Ordering::Greater <==> self.value() > other.value(),
    {
        let mut i: usize = 16;
        while i > 0
            invariant
                i <= 16,
                forall|j: int| i <= j < 16 ==> self.v@[j] == other.v@[j],
            decreases i,
        {
            i = i - 1;
            if self.v[i] < other.v[i] {
                proof {
                    lemma_limbs_value_lt_at(self.v@, other.v@, i);
                }
                return std::cmp::Ordering::Less;
            }
            if self.v[i] > other.v[i] {
                proof {
                    lemma_limbs_value_lt_at(other.v@, self.v@, i);
                }
                return std::cmp::Ordering::Greater;
            }
        }
        assert(self.v@ =~= other.v@);
        std::cmp::Ordering::Equal
    }

    /// Limb-wise and.
    pub fn bitand(self, rhs: U1024) -> (r: U1024)
        ensures
            forall|i: int| 0 <= i < 16 ==> #[trigger] r.v@[i] == self.v@[i] & rhs.v@[i],
            forall|k: int| #[trigger] r.bit(k) == (self.bit(k) && rhs.bit(k)),
    {
        let mut out = [0u64; 16];
        for i in 0..16
            invariant
                forall|j: int| 0 <= j < i ==> #[trigger] out@[j] == self.v@[j] & rhs.v@[j],
        {
            out[i] = self.v[i] & rhs.v[i];
        }
        let r = U1024::from_words(out);
        proof {
            assert forall|k: int| #[trigger] r.bit(k) == (self.bit(k) && rhs.bit(k)) by {
                if 0 <= k < 1024 {
                    lemma_word_ops_bit(self.v@[k / 64], rhs.v@[k / 64], (k % 64) as u64);
                }
            }
        }
        r
    }

    /// Limb-wise or.
    pub fn bitor(self, rhs: U1024) -> (r: U1024)
        ensures
            forall|i: int| 0 <= i < 16 ==> #[trigger] r.v@[i] == self.v@[i] | rhs.v@[i],
            forall|k: int| #[trigger] r.bit(k) == (self.bit(k) || rhs.bit(k)),
    {
        let mut out = [0u64; 16];
        for i in 0..16
            invariant
                forall|j: int| 0 <= j < i ==> #[trigger] out@[j] == self.v@[j] | rhs.v@[j],
        {
            out[i] = self.v[i] | rhs.v[i];
        }
        let r = U1024::from_words(out);
        proof {
            assert forall|k: int| #[trigger] r.bit(k) == (self.bit(k) || rhs.bit(k)) by {
                if 0 <= k < 1024 {
                    lemma_word_ops_bit(self.v@[k / 64], rhs.v@[k / 64], (k % 64) as u64);
                }
            }
        }
        r
    }

    /// Limb-wise exclusive or.
    pub fn bitxor(self, rhs: U1024) -> (r: U1024)
        ensures
            forall|i: int| 0 <= i < 16 ==> #[trigger] r.v@[i] == self.v@[i] ^ rhs.v@[i],
            forall|k: int| #[trigger] r.bit(k) == (self.bit(k) != rhs.bit(k)),
    {
        let mut out = [0u64; 16];
        for i in 0..16
            invariant
                forall|j: int| 0 <= j < i ==> #[trigger] out@[j] == self.v@[j] ^ rhs.v@[j],
        {
            out[i] = self.v[i] ^ rhs.v[i];
        }
        let r = U1024::from_words(out);
        proof {
            assert forall|k: int| #[trigger] r.bit(k) == (self.bit(k) != rhs.bit(k)) by {
                if 0 <= k < 1024 {
                    lemma_word_ops_bit(self.v@[k / 64], rhs.v@[k / 64], (k % 64) as u64);
                }
            }
        }
        r
    }

    /// Limb-wise complement.
    pub fn not(self) -> (r: U1024)
        ensures
            forall|i: int| 0 <= i < 16 ==> #[trigger] r.v@[i] == !self.v@[i],
    {
        let mut out = [0u64; 16];
        for i in 0..16
            invariant
                forall|j: int| 0 <= j < i ==> #[trigger] out@[j] == !self.v@[j],
        {
            out[i] = !self.v[i];
        }
        U1024::from_words(out)
    }

    /// `self &= rhs`, limb by limb.
    pub fn bitand_assign(&mut self, rhs: U1024)
        ensures
            forall|i: int| 0 <= i < 16 ==> #[trigger] final(self).v@[i] == old(self).v@[i] & rhs.v@[i],
    {
        for i in 0..16
            invariant
                forall|j: int| 0 <= j < i ==> #[trigger] self.v@[j] == old(self).v@[j] & rhs.v@[j],
                forall|j: int| i <= j < 16 ==> #[trigger] self.v@[j] == old(self).v@[j],
        {
            self.v[i] = self.v[i] & rhs.v[i];
        }
    }

    /// `self |= rhs`, limb by limb.
    pub fn bitor_assign(&mut self, rhs: U1024)
        ensures
            forall|i: int| 0 <= i < 16 ==> #[trigger] final(self).v@[i] == old(self).v@[i] | rhs.v@[i],
    {
        for i in 0..16
            invariant
                forall|j: int| 0 <= j < i ==> #[trigger] self.v@[j] == old(self).v@[j] | rhs.v@[j],
                forall|j: int| i <= j < 16 ==> #[trigger] self.v@[j] == old(self).v@[j],
        {
            self.v[i] = self.v[i] | rhs.v[i];
        }
    }

    /// `self ^= rhs`, limb by limb.
    pub fn bitxor_assign(&mut self, rhs: U1024)
        ensures
            forall|i: int| 0 <= i < 16 ==> #[trigger] final(self).v@[i] == old(self).v@[i] ^ rhs.v@[i],
    {
        for i in 0..16
            invariant
                forall|j: int| 0 <= j < i ==> #[trigger] self.v@[j] == old(self).v@[j] ^ rhs.v@[j],
                forall|j: int| i <= j < 16 ==> #[trigger] self.v@[j] == old(self).v@[j],
        {
            self.v[i] = self.v[i] ^ rhs.v[i];
        }
    }
}

/// The number is zero.
pub fn zero() -> (r: Int)
    ensures
        r.value() == 0,
        r.is_zero(),
        forall|k: int| !#[trigger] r.bit(k),
{
    let r = U1024 { v: [0; 16] };
    proof {
        lemma_limbs_value_zero(r.v@);
        lemma_zero_limbs(r.v@);
    }
    r
}


/// `src` shifted left by `n` bits; bits moved past the top are dropped.
fn shl_words(src: &[u64; 16], n: usize) -> (out: [u64; 16])
    ensures
        shifted_left(src@, out@, n as int),
{
    if n >= 1024 {
        let out = [0u64; 16];
        proof {
            lemma_zero_limbs(out@);
        }
        return out;
    }
    let word_shift = n / 64;
    let bit_shift = n % 64;
    let ghost bs = bit_shift as u64;
    let mut out = [0u64; 16];

    if bit_shift == 0 {
        let mut i: usize = 16;
        while i > word_shift
            invariant
                word_shift <= i <= 16,
                word_shift == n / 64,
                bit_shift == n % 64,
                bit_shift == 0,
                forall|j: int| 0 <= j < i ==> out@[j] == 0u64,
                forall|j: int| i <= j < 16 ==> #[trigger] out@[j] == shl_word(src@, j, word_shift as int, 0u64),
            decreases i,
        {
            i = i - 1;
            out[i] = src[i - word_shift];
        }
        proof {
            lemma_shl_words(src@, out@, n as int);
        }
        return out;
    }

    let mut i: usize = 16;
    while i > 0
        invariant
            i <= 16,
            word_shift == n / 64,
            bit_shift == n % 64,
            0 < bit_shift < 64,
            forall|j: int| i <= j < 16 ==> #[trigger] out@[j] == shl_word(src@, j, word_shift as int, bit_shift as u64),
        decreases i,
    {
        i = i - 1;
        if i < word_shift {
            out[i] = 0;
        } else {
            let src_idx = i - word_shift;
            let lo = src[src_idx] << bit_shift;
            let hi = if src_idx >= 1 {
                src[src_idx - 1] >> (64 - bit_shift)
            } else {
                0
            };
            out[i] = lo | hi;
        }
    }
    proof {
        lemma_shl_words(src@, out@, n as int);
    }
    out
}

/// `src` shifted right by `n` bits; zeros come in at the top.
fn shr_words(src: &[u64; 16], n: usize) -> (out: [u64; 16])
    ensures
        shifted_right(src@, out@, n as int),
{
    let mut out = [0u64; 16];

    if n >= 1024 {
        proof {
            lemma_zero_limbs(out@);
            assert forall|k: int| 0 <= k < 1024 implies #[trigger] limb_bit(out@, k) == limb_bit(src@, k + n) by {
            }
        }
        return out;
    }

    let word_shift = n >> 6;
    let bit_shift = n & 63;
    proof {
        lemma_usize_div64(n);
    }

    if bit_shift == 0 {
        let len = 16 - word_shift;
        for i in 0..len
            invariant
                len == 16 - word_shift,
                word_shift == n / 64,
                bit_shift == 0,
                n % 64 == 0,
                forall|j: int| len <= j < 16 ==> out@[j] == 0u64,
                forall|j: int| 0 <= j < i ==> #[trigger] out@[j] == shr_word(src@, j, word_shift as int, 0u64),
        {
            out[i] = src[i + word_shift];
        }
        proof {
            lemma_shr_words(src@, out@, n as int);
        }
        return out;
    }

    let inv = 64 - bit_shift;

    let max = 16 - word_shift - 1;

    for i in 0..max
        invariant
            max == 16 - word_shift - 1,
            word_shift == n / 64,
            bit_shift == n % 64,
            0 < bit_shift < 64,
            inv == 64 - bit_shift,
            forall|j: int| max <= j < 16 ==> out@[j] == 0u64,
            forall|j: int| 0 <= j < i ==> #[trigger] out@[j] == shr_word(src@, j, word_shift as int, bit_shift as u64),
    {
        let j = i + word_shift;
        out[i] = (src[j] >> bit_shift) | (src[j + 1] << inv);
    }

    if max < 16 {
        let last = src[max + word_shift] >> bit_shift;
        proof {
            lemma_word_misc(last, 0, 0);
        }
        out[max] = last;
    }
    proof {
        lemma_shr_words(src@, out@, n as int);
    }
    out
}

/// `src` shifted right by one bit, limb by limb.
fn shr_words_one(src: &[u64; 16]) -> (out: [u64; 16])
    ensures
        shifted_right(src@, out@, 1),
{
    let mut out = [0u64; 16];

    out[0] = (src[0] >> 1) | (src[1] << 63);
    out[1] = (src[1] >> 1) | (src[2] << 63);
    out[2] = (src[2] >> 1) | (src[3] << 63);
    out[3] = (src[3] >> 1) | (src[4] << 63);
    out[4] = (src[4] >> 1) | (src[5] << 63);
    out[5] = (src[5] >> 1) | (src[6] << 63);
    out[6] = (src[6] >> 1) | (src[7] << 63);
    out[7] = (src[7] >> 1) | (src[8] << 63);
    out[8] = (src[8] >> 1) | (src[9] << 63);
    out[9] = (src[9] >> 1) | (src[10] << 63);
    out[10] = (src[10] >> 1) | (src[11] << 63);
    out[11] = (src[11] >> 1) | (src[12] << 63);
    out[12] = (src[12] >> 1) | (src[13] << 63);
    out[13] = (src[13] >> 1) | (src[14] << 63);
    out[14] = (src[14] >> 1) | (src[15] << 63);
    out[15] = src[15] >> 1;

    proof {
        let x = src[15];
        lemma_word_misc(x >> 1u64, 0, 0);
        assert forall|j: int| 0 <= j < 16 implies #[trigger] out@[j] == shr_word(src@, j, 0, 1u64) by {
        }
        lemma_shr_words(src@, out@, 1);
    }
    out
}

/// `src` shifted left by one bit, limb by limb.
fn shl_words_one(src: &[u64; 16]) -> (out: [u64; 16])
    ensures
        shifted_left(src@, out@, 1),
{
    let mut out = [0u64; 16];

    out[0] = src[0] << 1;
    out[1] = (src[1] << 1) | (src[0] >> 63);
    out[2] = (src[2] << 1) | (src[1] >> 63);
    out[3] = (src[3] << 1) | (src[2] >> 63);
    out[4] = (src[4] << 1) | (src[3] >> 63);
    out[5] = (src[5] << 1) | (src[4] >> 63);
    out[6] = (src[6] << 1) | (src[5] >> 63);
    out[7] = (src[7] << 1) | (src[6] >> 63);
    out[8] = (src[8] << 1) | (src[7] >> 63);
    out[9] = (src[9] << 1) | (src[8] >> 63);
    out[10] = (src[10] << 1) | (src[9] >> 63);
    out[11] = (src[11] << 1) | (src[10] >> 63);
    out[12] = (src[12] << 1) | (src[11] >> 63);
    out[13] = (src[13] << 1) | (src[12] >> 63);
    out[14] = (src[14] << 1) | (src[13] >> 63);
    out[15] = (src[15] << 1) | (src[14] >> 63);

    proof {
        let x = src[0];
        lemma_word_misc(x << 1u64, 0, 0);
        assert forall|j: int| 0 <= j < 16 implies #[trigger] out@[j] == shl_word(src@, j, 0, 1u64) by {
        }
        lemma_shl_words(src@, out@, 1);
    }
    out
}

/// `src` shifted right by two bits, limb by limb.
fn shr_words_two(src: &[u64; 16]) -> (out: [u64; 16])
    ensures
        shifted_right(src@, out@, 2),
{
    let mut out = [0u64; 16];

    out[0] = (src[0] >> 2) | (src[1] << 62);
    out[1] = (src[1] >> 2) | (src[2] << 62);
    out[2] = (src[2] >> 2) | (src[3] << 62);
    out[3] = (src[3] >> 2) | (src[4] << 62);
    out[4] = (src[4] >> 2) | (src[5] << 62);
    out[5] = (src[5] >> 2) | (src[6] << 62);
    out[6] = (src[6] >> 2) | (src[7] << 62);
    out[7] = (src[7] >> 2) | (src[8] << 62);
    out[8] = (src[8] >> 2) | (src[9] << 62);
    out[9] = (src[9] >> 2) | (src[10] << 62);
    out[10] = (src[10] >> 2) | (src[11] << 62);
    out[11] = (src[11] >> 2) | (src[12] << 62);
    out[12] = (src[12] >> 2) | (src[13] << 62);
    out[13] = (src[13] >> 2) | (src[14] << 62);
    out[14] = (src[14] >> 2) | (src[15] << 62);
    out[15] = src[15] >> 2;

    proof {
        let x = src[15];
        lemma_word_misc(x >> 2u64, 0, 0);
        assert forall|j: int| 0 <= j < 16 implies #[trigger] out@[j] == shr_word(src@, j, 0, 2u64) by {
        }
        lemma_shr_words(src@, out@, 2);
    }
    out
}

/// `src` shifted left by two bits, limb by limb.
fn shl_words_two(src: &[u64; 16]) -> (out: [u64; 16])
    ensures
        shifted_left(src@, out@, 2),
{
    let mut out = [0u64; 16];

    out[0] = src[0] << 2;
    out[1] = (src[1] << 2) | (src[0] >> 62);
    out[2] = (src[2] << 2) | (src[1] >> 62);
    out[3] = (src[3] << 2) | (src[2] >> 62);
    out[4] = (src[4] << 2) | (src[3] >> 62);
    out[5] = (src[5] << 2) | (src[4] >> 62);
    out[6] = (src[6] << 2) | (src[5] >> 62);
    out[7] = (src[7] << 2) | (src[6] >> 62);
    out[8] = (src[8] << 2) | (src[7] >> 62);
    out[9] = (src[9] << 2) | (src[8] >> 62);
    out[10] = (src[10] << 2) | (src[9] >> 62);
    out[11] = (src[11] << 2) | (src[10] >> 62);
    out[12] = (src[12] << 2) | (src[11] >> 62);
    out[13] = (src[13] << 2) | (src[12] >> 62);
    out[14] = (src[14] << 2) | (src[13] >> 62);
    out[15] = (src[15] << 2) | (src[14] >> 62);

    proof {
        let x = src[0];
        lemma_word_misc(x << 2u64, 0, 0);
        assert forall|j: int| 0 <= j < 16 implies #[trigger] out@[j] == shl_word(src@, j, 0, 2u64) by {
        }
        lemma_shl_words(src@, out@, 2);
    }
    out
}

impl U1024 {
    /// `self >> 1`.
    pub fn shr1(&self) -> (r: Self)
        ensures
            forall|k: int| 0 <= k < 1024 ==> #[trigger] r.bit(k) == self.bit(k + 1),
    {
        U1024 { v: shr_words_one(&self.v) }
    }

    /// `self >> 2`.
    pub fn shr2(&self) -> (r: Self)
        ensures
            forall|k: int| 0 <= k < 1024 ==> #[trigger] r.bit(k) == self.bit(k + 2),
    {
        U1024 { v: shr_words_two(&self.v) }
    }

    /// `self << 1`, the top bit dropped.
    pub fn shl1(&self) -> (r: Self)
        ensures
            forall|k: int| 0 <= k < 1024 ==> #[trigger] r.bit(k) == (1 <= k && self.bit(k - 1)),
    {
        U1024 { v: shl_words_one(&self.v) }
    }

    /// `self << 2`, the top bits dropped.
    pub fn shl2(&self) -> (r: Self)
        ensures
            forall|k: int| 0 <= k < 1024 ==> #[trigger] r.bit(k) == (2 <= k && self.bit(k - 2)),
    {
        U1024 { v: shl_words_two(&self.v) }
    }

    /// `self << rhs`, the bits moved past the top dropped.
    pub fn shl(self, rhs: usize) -> (r: U1024)
        ensures
            forall|k: int| 0 <= k < 1024 ==> #[trigger] r.bit(k) == (rhs <= k && self.bit(k - rhs)),
    {
        U1024::from_words(shl_words(&self.v, rhs))
    }

    /// `self >> rhs`.
    pub fn shr(self, rhs: usize) -> (r: U1024)
        ensures
            forall|k: int| 0 <= k < 1024 ==> #[trigger] r.bit(k) == self.bit(k + rhs),
    {
        U1024::from_words(shr_words(&self.v, rhs))
    }

    /// `self <<= rhs`.
    pub fn shl_assign(&mut self, rhs: usize)
        ensures
            forall|k: int| 0 <= k < 1024 ==> #[trigger] final(self).bit(k) == (rhs <= k && old(self).bit(k - rhs)),
    {
        self.v = shl_words(&self.v, rhs);
    }

    /// `self >>= rhs`.
    pub fn shr_assign(&mut self, rhs: usize)
        ensures
            forall|k: int| 0 <= k < 1024 ==> #[trigger] final(self).bit(k) == old(self).bit(k + rhs),
    {
        self.v = shr_words(&self.v, rhs);
    }

    /// The index of the lowest set bit, or 1024 when no bit is set.
    pub fn trailing_zeros(&self) -> (r: u32)
        ensures
            r <= 1024,
            r < 1024 ==> self.bit(r as int),
            forall|k: int| 0 <= k < r ==> !#[trigger] self.bit(k),
    {
        for i in 0..16
            invariant
                forall|k: int| 0 <= k < 64 * i ==> !#[trigger] self.bit(k),
        {
            if self.v[i] != 0 {
                let tz = self.v[i].trailing_zeros();
                proof {
                    let w = self.v[i as int];
                    assert forall|k: int| 0 <= k < 64 * i + tz implies !#[trigger] self.bit(k) by {
                        if k >= 64 * i {
                            assert(k / 64 == i);
                            let b = (k % 64) as u64;
                            assert(b < tz);
                            assert((w >> b) & 1u64 == 0u64);
                        }
                    }
                    let k = 64 * i + tz;
                    assert(k / 64 == i);
                    assert(k % 64 == tz);
                }
                return (i as u32) * 64 + tz;
            }
            proof {
                lemma_zero_bit(0);
                assert forall|k: int| 0 <= k < 64 * (i + 1) implies !#[trigger] self.bit(k) by {
                    if k >= 64 * i {
                        assert(k / 64 == i);
                        lemma_zero_bit((k % 64) as u64);
                    }
                }
            }
        }
        1024
    }

    /// The bits in reverse order: bit `k` of the result is bit `1023 - k` of `self`.
    pub fn reverse_bits(&self) -> (r: U1024)
        ensures
            forall|k: int| 0 <= k < 1024 ==> #[trigger] r.bit(k) == self.bit(1023 - k),
    {
        let mut out = [0u64; 16];
        for i in 0..16
            invariant
                forall|j: int, b: u64| 0 <= j < i && b < 64 ==> #[trigger] wbit(out@[j], b) == wbit(self.v@[15 - j], (63 - b) as u64),
        {
            out[i] = u64_reverse_bits(self.v[15 - i]);
        }
        let r = U1024::from_words(out);
        proof {
            assert forall|k: int| 0 <= k < 1024 implies #[trigger] r.bit(k) == self.bit(1023 - k) by {
                let i = k / 64;
                let b = (k % 64) as u64;
                assert(wbit(out@[i], b) == wbit(self.v@[15 - i], (63 - b) as u64));
                assert((1023 - k) / 64 == 15 - i);
                assert((1023 - k) % 64 == 63 - b);
            }
        }
        r
    }

    /// The smaller of the two numbers; `self` when they are equal.
    pub fn min(self, other: U1024) -> (r: U1024)
        ensures
            r == (if self.value() <= other.value() { self } else { other }),
    {
        let mut i: usize = 16;
        while i > 0
            invariant
                i <= 16,
                forall|j: int| i <= j < 16 ==> self.v@[j] == other.v@[j],
            decreases i,
        {
            i = i - 1;
            if self.v[i] < other.v[i] {
                proof {
                    lemma_limbs_value_lt_at(self.v@, other.v@, i);
                }
                return self;
            } else if self.v[i] > other.v[i] {
                proof {
                    lemma_limbs_value_lt_at(other.v@, self.v@, i);
                }
                return other;
            }
        }
        assert(self.v@ =~= other.v@);
        self
    }

    /// The index of the highest set bit, i.e. the base-2 logarithm rounded down.
    pub fn ilog2(&self) -> (r: u32)
        requires
            !self.is_zero(),
        ensures
            r < 1024,
            self.bit(r as int),
            forall|k: int| r < k < 1024 ==> !#[trigger] self.bit(k),
    {
        let mut i: usize = 16;
        while i > 0
            invariant
                i <= 16,
                !self.is_zero(),
                forall|j: int| i <= j < 16 ==> self.v@[j] == 0u64,
            decreases i,
        {
            i = i - 1;
            if self.v[i] != 0 {
                let lz = self.v[i].leading_zeros();
                proof {
                    let w = self.v[i as int];
                    let r = 64 * i + 63 - lz;
                    assert(r / 64 == i);
                    assert(r % 64 == 63 - lz);
                    let t = (63 - lz) as u64;
                    assert((w >> t) & 1u64 != 0u64);
                    lemma_word_misc(w, 0, t);
                    assert forall|k: int| r < k < 1024 implies !#[trigger] self.bit(k) by {
                        if k / 64 == i {
                            let b = (k % 64) as u64;
                            assert(64 - lz <= b);
                            assert((w >> b) & 1u64 == 0u64);
                        } else {
                            assert(k / 64 > i);
                            lemma_zero_bit((k % 64) as u64);
                        }
                    }
                }
                return (i as u32) * 64 + 63 - lz;
            }
        }
        proof {
            assert(false);
        }
        0
    }
}

} // verus!
