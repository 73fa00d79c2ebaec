//! A 256-bit unsigned integer made of four little-endian `u64` limbs.
use vstd::prelude::*;
use crate::decimal::{is_decimal, digit_char, limbs_to_string};
use vstd::std_specs::cmp::{PartialEqSpecImpl, PartialOrdSpecImpl};
use crate::bits::{
    limb_bit, limb_base, limbs_value, popcount_limbs, lemma_limbs_value_two, lemma_limbs_value_zero,
    lemma_limbs_value_lt_at, lemma_single_bit, lemma_zero_bit, lemma_word_ops_bit, lemma_zero_limbs,
    lemma_popcount_limbs_bound, u64_count_ones, u64_reverse_bits, wbit, shl_word, shr_word,
    shifted_left, shifted_right, lemma_shl_words, lemma_shr_words,
    lemma_word_misc, lemma_u128_halves, lemma_usize_div64,
};

verus! {

broadcast use vstd::std_specs::bits::axiom_u64_trailing_zeros, vstd::std_specs::bits::axiom_u64_leading_zeros;

/// The width of `U256` in bits.
pub const BITS: usize = 256;

/// A 256-bit unsigned integer; `v[0]` is the least significant limb.
#[derive(Clone, Copy, Default, Hash)]
pub struct U256 {
    v: [u64; 4],
}

impl PartialEq for U256 {
    /// Equal exactly when every limb is equal.
    fn eq(&self, other: &Self) -> (r: bool) {
        let mut i: usize = 0;
        while i < 4
            invariant
                i <= 4,
                forall|j: int| 0 <= j < i ==> self.v@[j] == other.v@[j],
            decreases 4 - i,
        {
            if self.v[i] != other.v[i] {
                return false;
            }
            i = i + 1;
        }
        assert(self.v@ =~= other.v@);
        true
    }
}

impl PartialEqSpecImpl for U256 {
    open spec fn obeys_eq_spec() -> bool {
        true
    }

    open spec fn eq_spec(&self, other: &Self) -> bool {
        self.limbs() == other.limbs()
    }
}

impl Eq for U256 {

}

impl PartialOrd for U256 {
    /// How the numbers compare; always comparable.
    fn partial_cmp(&self, other: &Self) -> (r: Option<std::cmp::Ordering>) {
        Some(self.cmp(other))
    }
}

impl PartialOrdSpecImpl for U256 {
    open spec fn obeys_partial_cmp_spec() -> bool {
        true
    }

    open spec fn partial_cmp_spec(&self, other: &Self) -> Option<std::cmp::Ordering> {
        Some(
            if self.value() < other.value() {
                std::cmp::Ordering::Less
            } else if self.value() == other.value() {
                std::cmp::Ordering::Equal
            } else {
                std::cmp::Ordering::Greater
            },
        )
    }
}

/// The integer type of this width.
pub type Int = U256;

impl U256 {
    /// The number in decimal notation: digits without leading zeros, `0`
    /// for zero.
    pub fn to_decimal_string(&self) -> (s: String)
        ensures
            exists|d: Seq<u8>| is_decimal(d, self.value()) && s@ == d.map_values(|c: u8| digit_char(c)),
    {
        let limbs = vstd::array::array_as_slice(&self.v);
        proof {
            vstd::array::axiom_spec_array_as_slice(&self.v);
        }
        assert(limbs@ == self.v@);
        let s = limbs_to_string(limbs);
        proof {
            let d = choose|d: Seq<u8>| is_decimal(d, limbs_value(limbs@)) && s@ == d.map_values(|c: u8| digit_char(c));
            assert(is_decimal(d, self.value()));
        }
        s
    }

    /// The four limbs, least significant first.
    pub closed spec fn limbs(&self) -> Seq<u64> {
        self.v@
    }

    /// Bit `k` of the number (false outside `0..256`).
    pub open spec fn bit(&self, k: int) -> bool {
        limb_bit(self.limbs(), k)
    }

    /// The number the limbs stand for.
    pub open spec fn value(&self) -> nat {
        limbs_value(self.limbs())
    }

    /// No limb is set.
    pub open spec fn is_zero(&self) -> bool {
        forall|i: int| 0 <= i < 4 ==> self.limbs()[i] == 0u64
    }
}

/// The low eight bits of `n`.
pub fn to_u8(n: Int) -> (r: u8)
    ensures
        r == n.limbs()[0] % 256,
{
    let w = n.v[0];
    proof {
        lemma_word_misc(w, 0, 0);
    }
    w as u8
}

/// The number one.
pub fn one() -> (r: Int)
    ensures
        r.value() == 1,
        forall|k: int| #[trigger] r.bit(k) == (k == 0),
{
    let r = U256 { v: [1, 0, 0, 0] };
    proof {
        lemma_limbs_value_two(r.v@);
        assert forall|k: int| #[trigger] r.bit(k) == (k == 0) by {
            if 0 <= k < 256 {
                let b = (k % 64) as u64;
                if k / 64 == 0 {
                    lemma_single_bit(0, b);
                    lemma_word_misc(0, 0, 0);
                } else {
                    lemma_zero_bit(b);
                }
            }
        }
    }
    r
}

/// The low 64 bits of `n`: the first limb holds `n`'s low word, and the
/// second limb holds what is left of `n`'s high word after it is cut down to
/// 64 bits in place, which is always zero.
pub fn from_u128(n: u128) -> (r: U256)
    ensures
        r.value() == (n as nat) % limb_base(),
        r.limbs()[0] == n % 0x1_0000_0000_0000_0000,
        r.limbs()[1] == 0,
        r.limbs()[2] == 0,
        r.limbs()[3] == 0,
{
    let lower_bit_mask: u128 = 0xffff_ffff_ffff_ffff;
    let w1 = n & lower_bit_mask;
    let w2 = n & (u128::MAX ^ lower_bit_mask);
    let r = U256 { v: [w1 as u64, w2 as u64, 0, 0] };
    proof {
        assert((w1 as u64) == n % 0x1_0000_0000_0000_0000 && (w2 as u64) == 0) by (bit_vector)
            requires
                lower_bit_mask == 0xffff_ffff_ffff_ffffu128,
                w1 == n & lower_bit_mask,
                w2 == n & (0xffff_ffff_ffff_ffff_ffff_ffff_ffff_ffffu128 ^ lower_bit_mask),
        ;
        lemma_limbs_value_two(r.v@);
        assert(limb_base() == 0x1_0000_0000_0000_0000);
    }
    r
}

/// The two low limbs of `n` as one `u128`.
pub fn to_u128(n: Int) -> (r: u128)
    ensures
        r == n.limbs()[0] + limb_base() * n.limbs()[1],
{
    let lo = n.v[0];
    let hi = n.v[1];
    proof {
        lemma_u128_halves(0, lo, hi);
    }
    n.v[0] as u128 + ((n.v[1] as u128) << 64)
}

/// The number whose low `n` bits are set and whose other bits are clear.
pub fn mask_first_n_bits(n: usize) -> (r: Int)
    requires
        n <= 256,
    ensures
        forall|k: int| 0 <= k < 256 ==> #[trigger] r.bit(k) == (k < n),
{
    let mut o = [0u64; 4];
    proof {
        lemma_zero_limbs(o@);
    }
    for i in 0..n
        invariant
            n <= 256,
            forall|k: int| 0 <= k < 256 ==> #[trigger] limb_bit(o@, k) == (k < i),
    {
        let wi = i / 64;
        let bi = i % 64;
        let old_o = o;
        o[wi] = o[wi] | (1u64 << (bi as u64));
        proof {
            assert forall|k: int| 0 <= k < 256 implies #[trigger] limb_bit(o@, k) == (k < i + 1) by {
                let b = (k % 64) as u64;
                assert(limb_bit(old_o@, k) == (k < i));
                if k / 64 == wi as int {
                    lemma_word_ops_bit(old_o[wi as int], 1u64 << (bi as u64), b);
                    lemma_single_bit(bi as u64, b);
                }
            }
        }
    }
    Int { v: o }
}

impl Int {
    /// The number of set bits.
    pub fn count_ones(&self) -> (r: u32)
        ensures
            r == popcount_limbs(self.limbs(), 4),
    {
        let mut total = 0u32;
        for i in 0..4
            invariant
                total == popcount_limbs(self.v@, i as int),
        {
            proof {
                lemma_popcount_limbs_bound(self.v@, i + 1);
            }
            total += u64_count_ones(self.v[i]);
        }
        total
    }
}

impl U256 {
    /// The number with the given limbs.
    pub fn from_words(words: [u64; 4]) -> (r: Self)
        ensures
            r.limbs() == words@,
    {
        Self { v: words }
    }

    /// How `self` compares with `other` as numbers.
    pub fn cmp(&self, other: &Self) -> (r: std::cmp::Ordering)
        ensures
            r == std::cmp::Ordering::Less <==> self.value() < other.value(),
            r == std::cmp::Ordering::Equal <==> self.value() == other.value(),
            r == std::cmp::Ordering::Greater <==> self.value() > other.value(),
    {
        let mut i: usize = 4;
        while i > 0
            invariant
                i <= 4,
                forall|j: int| i <= j < 4 ==> self.v@[j] == other.v@[j],
            decreases i,
        {
            i = i - 1;
            if self.v[i] < other.v[i] {
                proof {
                    lemma_limbs_value_lt_at(self.v@, other.v@, i);
                }
                return std::cmp::Ordering::Less;
            }
            if self.v[i] > other.v[i] {
                proof {
                    lemma_limbs_value_lt_at(other.v@, self.v@, i);
                }
                return std::cmp::Ordering::Greater;
            }
        }
        assert(self.v@ =~= other.v@);
        std::cmp::Ordering::Equal
    }

    /// Limb-wise and.
    pub fn bitand(self, rhs: U256) -> (r: U256)
        ensures
            forall|i: int| 0 <= i < 4 ==> #[trigger] r.limbs()[i] == self.limbs()[i] & rhs.limbs()[i],
    {
        U256::from_words([
            self.v[0] & rhs.v[0],
            self.v[1] & rhs.v[1],
            self.v[2] & rhs.v[2],
            self.v[3] & rhs.v[3],
        ])
    }

    /// Limb-wise or.
    pub fn bitor(self, rhs: U256) -> (r: U256)
        ensures
            forall|i: int| 0 <= i < 4 ==> #[trigger] r.limbs()[i] == self.limbs()[i] | rhs.limbs()[i],
    {
        U256::from_words([
            self.v[0] | rhs.v[0],
            self.v[1] | rhs.v[1],
            self.v[2] | rhs.v[2],
            self.v[3] | rhs.v[3],
        ])
    }

    /// Limb-wise exclusive or.
    pub fn bitxor(self, rhs: U256) -> (r: U256)
        ensures
            forall|i: int| 0 <= i < 4 ==> #[trigger] r.limbs()[i] == self.limbs()[i] ^ rhs.limbs()[i],
    {
        U256::from_words([
            self.v[0] ^ rhs.v[0],
            self.v[1] ^ rhs.v[1],
            self.v[2] ^ rhs.v[2],
            self.v[3] ^ rhs.v[3],
        ])
    }

    /// Limb-wise complement.
    pub fn not(self) -> (r: U256)
        ensures
            forall|i: int| 0 <= i < 4 ==> #[trigger] r.limbs()[i] == !self.limbs()[i],
    {
        U256::from_words([!self.v[0], !self.v[1], !self.v[2], !self.v[3]])
    }

    /// `self &= rhs`, limb by limb.
    pub fn bitand_assign(&mut self, rhs: U256)
        ensures
            forall|i: int| 0 <= i < 4 ==> #[trigger] final(self).limbs()[i] == old(self).limbs()[i] & rhs.limbs()[i],
    {
        for i in 0..4
            invariant
                forall|j: int| 0 <= j < i ==> #[trigger] self.v@[j] == old(self).v@[j] & rhs.v@[j],
                forall|j: int| i <= j < 4 ==> #[trigger] self.v@[j] == old(self).v@[j],
        {
            self.v[i] = self.v[i] & rhs.v[i];
        }
    }

    /// `self |= rhs`, limb by limb.
    pub fn bitor_assign(&mut self, rhs: U256)
        ensures
            forall|i: int| 0 <= i < 4 ==> #[trigger] final(self).limbs()[i] == old(self).limbs()[i] | rhs.limbs()[i],
    {
        for i in 0..4
            invariant
                forall|j: int| 0 <= j < i ==> #[trigger] self.v@[j] == old(self).v@[j] | rhs.v@[j],
                forall|j: int| i <= j < 4 ==> #[trigger] self.v@[j] == old(self).v@[j],
        {
            self.v[i] = self.v[i] | rhs.v[i];
        }
    }

    /// `self ^= rhs`, limb by limb.
    pub fn bitxor_assign(&mut self, rhs: U256)
        ensures
            forall|i: int| 0 <= i < 4 ==> #[trigger] final(self).limbs()[i] == old(self).limbs()[i] ^ rhs.limbs()[i],
    {
        for i in 0..4
            invariant
                forall|j: int| 0 <= j < i ==> #[trigger] self.v@[j] == old(self).v@[j] ^ rhs.v@[j],
                forall|j: int| i <= j < 4 ==> #[trigger] self.v@[j] == old(self).v@[j],
        {
            self.v[i] = self.v[i] ^ rhs.v[i];
        }
    }
}

/// The number is zero.
pub fn zero() -> (r: Int)
    ensures
        r.value() == 0,
        r.is_zero(),
        forall|k: int| !#[trigger] r.bit(k),
{
    let r = U256 { v: [0, 0, 0, 0] };
    proof {
        lemma_limbs_value_zero(r.v@);
        lemma_zero_limbs(r.v@);
    }
    r
}


/// `src` shifted left by `n` bits; bits moved past the top are dropped.
fn shl_words(src: &[u64; 4], n: usize) -> (out: [u64; 4])
    ensures
        shifted_left(src@, out@, n as int),
{
    if n >= 256 {
        let out = [0u64; 4];
        proof {
            lemma_zero_limbs(out@);
        }
        return out;
    }
    let word_shift = n / 64;
    let bit_shift = n % 64;
    let mut out = [0u64; 4];

    if bit_shift == 0 {
        let mut i: usize = 4;
        while i > word_shift
            invariant
                word_shift <= i <= 4,
                word_shift == n / 64,
                bit_shift == n % 64,
                bit_shift == 0,
                forall|j: int| 0 <= j < i ==> out@[j] == 0u64,
                forall|j: int| i <= j < 4 ==> #[trigger] out@[j] == shl_word(src@, j, word_shift as int, 0u64),
            decreases i,
        {
            i = i - 1;
            out[i] = src[i - word_shift];
        }
        proof {
            lemma_shl_words(src@, out@, n as int);
        }
        return out;
    }

    let mut i: usize = 4;
    while i > 0
        invariant
            i <= 4,
            word_shift == n / 64,
            bit_shift == n % 64,
            0 < bit_shift < 64,
            forall|j: int| i <= j < 4 ==> #[trigger] out@[j] == shl_word(src@, j, word_shift as int, bit_shift as u64),
        decreases i,
    {
        i = i - 1;
        if i < word_shift {
            out[i] = 0;
        } else {
            let src_idx = i - word_shift;
            let lo = src[src_idx] << bit_shift;
            let hi = if src_idx >= 1 {
                src[src_idx - 1] >> (64 - bit_shift)
            } else {
                0
            };
            out[i] = lo | hi;
        }
    }
    proof {
        lemma_shl_words(src@, out@, n as int);
    }
    out
}

/// `src` shifted right by `n` bits; zeros come in at the top.
fn shr_words(src: &[u64; 4], n: usize) -> (out: [u64; 4])
    ensures
        shifted_right(src@, out@, n as int),
{
    if n >= 256 {
        let out = [0u64; 4];
        proof {
            lemma_zero_limbs(out@);
        }
        return out;
    }
    let word_shift = n / 64;
    let bit_shift = n % 64;
    let mut out = [0u64; 4];

    if bit_shift == 0 {
        for i in 0..(4 - word_shift)
            invariant
                n < 256,
                word_shift == n / 64,
                bit_shift == 0,
                n % 64 == 0,
                forall|j: int| 4 - word_shift <= j < 4 ==> out@[j] == 0u64,
                forall|j: int| 0 <= j < i ==> #[trigger] out@[j] == shr_word(src@, j, word_shift as int, 0u64),
        {
            out[i] = src[i + word_shift];
        }
        proof {
            lemma_shr_words(src@, out@, n as int);
        }
        return out;
    }

    for i in 0..4
        invariant
            n < 256,
            word_shift == n / 64,
            bit_shift == n % 64,
            0 < bit_shift < 64,
            forall|j: int| 0 <= j < i ==> #[trigger] out@[j] == shr_word(src@, j, word_shift as int, bit_shift as u64),
    {
        let src_idx = i + word_shift;
        if src_idx >= 4 {
            out[i] = 0;
        } else {
            let lo = src[src_idx] >> bit_shift;
            let hi = if src_idx + 1 < 4 {
                src[src_idx + 1] << (64 - bit_shift)
            } else {
                0
            };
            out[i] = lo | hi;
        }
    }
    proof {
        lemma_shr_words(src@, out@, n as int);
    }
    out
}

impl U256 {
    /// `self << rhs`, the bits moved past the top dropped.
    pub fn shl(self, rhs: usize) -> (r: U256)
        ensures
            forall|k: int| 0 <= k < 256 ==> #[trigger] r.bit(k) == (rhs <= k && self.bit(k - rhs)),
    {
        U256::from_words(shl_words(&self.v, rhs))
    }

    /// `self >> rhs`.
    pub fn shr(self, rhs: usize) -> (r: U256)
        ensures
            forall|k: int| 0 <= k < 256 ==> #[trigger] r.bit(k) == self.bit(k + rhs),
    {
        U256::from_words(shr_words(&self.v, rhs))
    }

    /// `self <<= rhs`.
    pub fn shl_assign(&mut self, rhs: usize)
        ensures
            forall|k: int| 0 <= k < 256 ==> #[trigger] final(self).bit(k) == (rhs <= k && old(self).bit(k - rhs)),
    {
        self.v = shl_words(&self.v, rhs);
    }

    /// `self >>= rhs`.
    pub fn shr_assign(&mut self, rhs: usize)
        ensures
            forall|k: int| 0 <= k < 256 ==> #[trigger] final(self).bit(k) == old(self).bit(k + rhs),
    {
        self.v = shr_words(&self.v, rhs);
    }

    /// The index of the lowest set bit, or 256 when no bit is set.
    pub fn trailing_zeros(&self) -> (r: u32)
        ensures
            r <= 256,
            r < 256 ==> self.bit(r as int),
            forall|k: int| 0 <= k < r ==> !#[trigger] self.bit(k),
    {
        for i in 0..4
            invariant
                forall|k: int| 0 <= k < 64 * i ==> !#[trigger] self.bit(k),
        {
            if self.v[i] != 0 {
                let tz = self.v[i].trailing_zeros();
                proof {
                    let w = self.v[i as int];
                    assert forall|k: int| 0 <= k < 64 * i + tz implies !#[trigger] self.bit(k) by {
                        if k >= 64 * i {
                            assert(k / 64 == i);
                            let b = (k % 64) as u64;
                            assert(b < tz);
                            assert((w >> b) & 1u64 == 0u64);
                        }
                    }
                    let k = 64 * i + tz;
                    assert(k / 64 == i);
                    assert(k % 64 == tz);
                }
                return (i as u32) * 64 + tz;
            }
            proof {
                lemma_zero_bit(0);
                assert forall|k: int| 0 <= k < 64 * (i + 1) implies !#[trigger] self.bit(k) by {
                    if k >= 64 * i {
                        assert(k / 64 == i);
                        lemma_zero_bit((k % 64) as u64);
                    }
                }
            }
        }
        256
    }

    /// The bits in reverse order: bit `k` of the result is bit `255 - k` of `self`.
    pub fn reverse_bits(&self) -> (r: U256)
        ensures
            forall|k: int| 0 <= k < 256 ==> #[trigger] r.bit(k) == self.bit(255 - k),
    {
        let r = U256 {
            v: [
                u64_reverse_bits(self.v[3]),
                u64_reverse_bits(self.v[2]),
                u64_reverse_bits(self.v[1]),
                u64_reverse_bits(self.v[0]),
            ],
        };
        proof {
            assert forall|k: int| 0 <= k < 256 implies #[trigger] r.bit(k) == self.bit(255 - k) by {
                let i = k / 64;
                let b = (k % 64) as u64;
                assert(wbit(r.v@[i], b) == wbit(self.v@[3 - i], (63 - b) as u64));
                assert((255 - k) / 64 == 3 - i);
                assert((255 - k) % 64 == 63 - b);
            }
        }
        r
    }

    /// The smaller of the two numbers; `self` when they are equal.
    pub fn min(self, other: U256) -> (r: U256)
        ensures
            r == (if self.value() <= other.value() { self } else { other }),
    {
        let mut i: usize = 4;
        while i > 0
            invariant
                i <= 4,
                forall|j: int| i <= j < 4 ==> self.v@[j] == other.v@[j],
            decreases i,
        {
            i = i - 1;
            if self.v[i] < other.v[i] {
                proof {
                    lemma_limbs_value_lt_at(self.v@, other.v@, i);
                }
                return self;
            } else if self.v[i] > other.v[i] {
                proof {
                    lemma_limbs_value_lt_at(other.v@, self.v@, i);
                }
                return other;
            }
        }
        assert(self.v@ =~= other.v@);
        self
    }

    /// The index of the highest set bit, i.e. the base-2 logarithm rounded down.
    pub fn ilog2(&self) -> (r: u32)
        requires
            !self.is_zero(),
        ensures
            r < 256,
            self.bit(r as int),
            forall|k: int| r < k < 256 ==> !#[trigger] self.bit(k),
    {
        let mut i: usize = 4;
        while i > 0
            invariant
                i <= 4,
                !self.is_zero(),
                forall|j: int| i <= j < 4 ==> self.v@[j] == 0u64,
            decreases i,
        {
            i = i - 1;
            if self.v[i] != 0 {
                let lz = self.v[i].leading_zeros();
                proof {
                    let w = self.v[i as int];
                    let r = 64 * i + 63 - lz;
                    assert(r / 64 == i);
                    assert(r % 64 == 63 - lz);
                    let t = (63 - lz) as u64;
                    assert((w >> t) & 1u64 != 0u64);
                    lemma_word_misc(w, 0, t);
                    assert forall|k: int| r < k < 256 implies !#[trigger] self.bit(k) by {
                        if k / 64 == i {
                            let b = (k % 64) as u64;
                            assert(64 - lz <= b);
                            assert((w >> b) & 1u64 == 0u64);
                        } else {
                            assert(k / 64 > i);
                            lemma_zero_bit((k % 64) as u64);
                        }
                    }
                }
                return (i as u32) * 64 + 63 - lz;
            }
        }
        proof {
            assert(false);
        }
        0
    }
}

} // verus!
