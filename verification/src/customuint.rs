//! The 256-bit integer of the brute-force search, with rotations.
//!
//! The number is four little-endian `u64` limbs; shifts, `|` and the
//! conversion from `u64` behave as those of a fixed-width unsigned integer.
use vstd::prelude::*;
use crate::decimal::{is_decimal, digit_char, limbs_to_string};
use crate::bits::limbs_value;
use crate::bits::{
    limb_bit, wbit, shl_word, shr_word, shifted_left, shifted_right, lemma_shl_words,
    lemma_shr_words, lemma_zero_limbs, lemma_limbs_or_bit, lemma_limbs_ext, lemma_word_ops_bit, lemma_zero_bit, u64_reverse_bits,
    lemma_word_misc,
};

verus! {

/// A 256-bit unsigned integer; limb 0 is the least significant one.
#[derive(Clone, Copy, Default, Hash)]
pub struct U256(pub [u64; 4]);

/// The integer type of the brute-force search.
pub type T = U256;

/// The highest set bit of a nonzero word.
pub open spec fn is_word_log2(w: u64, r: u32) -> bool {
    r < 64 && wbit(w, r as u64) && forall|b: u64| r < b < 64 ==> !#[trigger] wbit(w, b)
}

/// The index of the highest set bit of a nonzero word: 63 less the number of
/// its leading zeros.
fn u64_ilog2(w: u64) -> (r: u32)
    requires
        w != 0,
    ensures
        is_word_log2(w, r),
{
    broadcast use vstd::std_specs::bits::axiom_u64_leading_zeros;

    let lz = w.leading_zeros();
    proof {
        let t = (63 - lz) as u64;
        assert((w >> t) & 1u64 != 0u64);
        lemma_word_misc(w, 0, t);
        assert forall|b: u64| t < b < 64 implies !#[trigger] wbit(w, b) by {
            assert(64 - lz <= b);
            assert((w >> b) & 1u64 == 0u64);
        }
    }
    63 - lz
}

impl From<u64> for U256 {
    /// The number `n`.
    fn from(n: u64) -> (r: Self) {
        U256([n, 0, 0, 0])
    }
}

impl vstd::std_specs::convert::FromSpecImpl<u64> for U256 {
    open spec fn obeys_from_spec() -> bool {
        true
    }

    open spec fn from_spec(n: u64) -> U256 {
        U256([n, 0, 0, 0])
    }
}

impl U256 {
    /// The number in decimal notation: digits without leading zeros, `0`
    /// for zero.
    pub fn to_decimal_string(&self) -> (s: String)
        ensures
            exists|d: Seq<u8>| is_decimal(d, limbs_value(self.0@)) && s@ == d.map_values(|c: u8| digit_char(c)),
    {
        let limbs = vstd::array::array_as_slice(&self.0);
        proof {
            vstd::array::axiom_spec_array_as_slice(&self.0);
        }
        assert(limbs@ == self.0@);
        let s = limbs_to_string(limbs);
        proof {
            let d = choose|d: Seq<u8>| is_decimal(d, limbs_value(limbs@)) && s@ == d.map_values(|c: u8| digit_char(c));
            assert(is_decimal(d, limbs_value(self.0@)));
        }
        s
    }

    /// Bit `k` of the number (false outside `0..256`).
    pub open spec fn bit(&self, k: int) -> bool {
        limb_bit(self.0@, k)
    }

    /// The number `n`.
    pub fn from_u64(n: u64) -> (r: Self)
        ensures
            r.0@ == seq![n, 0u64, 0u64, 0u64],
    {
        let r = U256([n, 0, 0, 0]);
        assert(r.0@ =~= seq![n, 0u64, 0u64, 0u64]);
        r
    }

    /// `self << n`; the bits moved past the top are dropped.
    pub fn shl(self, n: u32) -> (r: Self)
        ensures
            shifted_left(self.0@, r.0@, n as int),
    {
        let shift = n as usize;
        let src_limbs = self.0;
        let mut ret = [0u64; 4];
        let word_shift = shift / 64;
        let bit_shift = shift % 64;
        if word_shift >= 4 {
            proof {
                lemma_zero_limbs(ret@);
                assert forall|k: int| 0 <= k < 256 implies #[trigger] limb_bit(ret@, k) == (n <= k
                    && limb_bit(src_limbs@, k - n)) by {
                }
            }
            return U256(ret);
        }
        for i in word_shift..4
            invariant
                word_shift == shift / 64,
                bit_shift == shift % 64,
                word_shift < 4,
                shift == n,
                forall|j: int| 0 <= j < word_shift ==> ret@[j] == 0u64,
                forall|j: int| word_shift <= j < i ==> #[trigger] ret@[j] == shl_word(src_limbs@, j, word_shift as int, bit_shift as u64),
        {
            let lo = src_limbs[i - word_shift] << (bit_shift as u64);
            let hi = if bit_shift > 0 && i >= word_shift + 1 {
                src_limbs[i - 1 - word_shift] >> ((64 - bit_shift) as u64)
            } else {
                0
            };
            proof {
                lemma_word_misc(lo, 0, 0);
            }
            ret[i] = if bit_shift > 0 {
                lo | hi
            } else {
                lo
            };
            proof {
                lemma_word_misc(src_limbs@[i - word_shift], 0, 0);
            }
        }
        proof {
            lemma_shl_words(src_limbs@, ret@, n as int);
        }
        U256(ret)
    }

    /// `self >> n`; zeros come in at the top.
    pub fn shr(self, n: u32) -> (r: Self)
        ensures
            shifted_right(self.0@, r.0@, n as int),
    {
        let shift = n as usize;
        let src_limbs = self.0;
        let mut ret = [0u64; 4];
        let word_shift = shift / 64;
        let bit_shift = shift % 64;
        if word_shift >= 4 {
            proof {
                lemma_zero_limbs(ret@);
                assert forall|k: int| 0 <= k < 256 implies #[trigger] limb_bit(ret@, k) == limb_bit(src_limbs@, k + n) by {
                }
            }
            return U256(ret);
        }
        for i in word_shift..4
            invariant
                word_shift == shift / 64,
                bit_shift == shift % 64,
                word_shift < 4,
                shift == n,
                forall|j: int| 4 - word_shift <= j < 4 ==> ret@[j] == 0u64,
                forall|j: int| 0 <= j < i - word_shift ==> #[trigger] ret@[j] == shr_word(src_limbs@, j, word_shift as int, bit_shift as u64),
        {
            let lo = src_limbs[i] >> (bit_shift as u64);
            let hi = if bit_shift > 0 && i + 1 < 4 {
                src_limbs[i + 1] << ((64 - bit_shift) as u64)
            } else {
                0
            };
            proof {
                lemma_word_misc(lo, 0, 0);
            }
            ret[i - word_shift] = if bit_shift > 0 {
                lo | hi
            } else {
                lo
            };
            proof {
                lemma_word_misc(src_limbs@[i as int], 0, 0);
            }
        }
        proof {
            lemma_shr_words(src_limbs@, ret@, n as int);
        }
        U256(ret)
    }

    /// Limb-wise exclusive or.
    pub fn bitxor(self, rhs: Self) -> (r: Self)
        ensures
            forall|k: int| #[trigger] r.bit(k) == (self.bit(k) != rhs.bit(k)),
    {
        let r = U256([self.0[0] ^ rhs.0[0], self.0[1] ^ rhs.0[1], self.0[2] ^ rhs.0[2], self.0[3] ^ rhs.0[3]]);
        proof {
            assert forall|k: int| #[trigger] r.bit(k) == (self.bit(k) != rhs.bit(k)) by {
                if 0 <= k < 256 {
                    lemma_word_ops_bit(self.0@[k / 64], rhs.0@[k / 64], (k % 64) as u64);
                }
            }
        }
        r
    }

    /// Limb-wise and.
    pub fn bitand(self, rhs: Self) -> (r: Self)
        ensures
            forall|i: int| 0 <= i < 4 ==> #[trigger] r.0@[i] == self.0@[i] & rhs.0@[i],
            forall|k: int| #[trigger] r.bit(k) == (self.bit(k) && rhs.bit(k)),
    {
        let r = U256([self.0[0] & rhs.0[0], self.0[1] & rhs.0[1], self.0[2] & rhs.0[2], self.0[3] & rhs.0[3]]);
        proof {
            assert forall|k: int| #[trigger] r.bit(k) == (self.bit(k) && rhs.bit(k)) by {
                if 0 <= k < 256 {
                    lemma_word_ops_bit(self.0@[k / 64], rhs.0@[k / 64], (k % 64) as u64);
                }
            }
        }
        r
    }

    /// The number as a `u64`; it must fit.
    pub fn as_u64(&self) -> (r: u64)
        requires
            self.0@[1] == 0 && self.0@[2] == 0 && self.0@[3] == 0,
        ensures
            r == self.0@[0],
    {
        self.0[0]
    }

    /// Whether the number is zero.
    pub fn is_zero(&self) -> (r: bool)
        ensures
            r == (forall|i: int| 0 <= i < 4 ==> #[trigger] self.0@[i] == 0),
    {
        self.0[0] == 0 && self.0[1] == 0 && self.0[2] == 0 && self.0[3] == 0
    }

    /// Limb-wise or.
    pub fn bitor(self, rhs: Self) -> (r: Self)
        ensures
            forall|i: int| 0 <= i < 4 ==> #[trigger] r.0@[i] == self.0@[i] | rhs.0@[i],
    {
        U256([self.0[0] | rhs.0[0], self.0[1] | rhs.0[1], self.0[2] | rhs.0[2], self.0[3] | rhs.0[3]])
    }
}

impl T {
    /// The bit that rotating left by `n` places moves to position `k`.
    pub open spec fn rotl_bit(&self, n: int, k: int) -> bool {
        self.bit((k - n) % 256)
    }

    /// Rotation left by one place.
    pub fn rotate_one_left(self) -> (r: Self)
        ensures
            forall|k: int| 0 <= k < 256 ==> #[trigger] r.bit(k) == self.rotl_bit(1, k),
    {
        let a = self.shl(1);
        let b = self.shr(255);
        let r = a.bitor(b);
        proof {
            assert forall|k: int| 0 <= k < 256 implies #[trigger] r.bit(k) == self.rotl_bit(1, k) by {
                lemma_limbs_or_bit(a.0@, b.0@, r.0@, k);
            }
        }
        r
    }

    /// Rotation left by two places.
    pub fn rotate_two_left(self) -> (r: Self)
        ensures
            forall|k: int| 0 <= k < 256 ==> #[trigger] r.bit(k) == self.rotl_bit(2, k),
    {
        let a = self.shl(2);
        let b = self.shr(254);
        let r = a.bitor(b);
        proof {
            assert forall|k: int| 0 <= k < 256 implies #[trigger] r.bit(k) == self.rotl_bit(2, k) by {
                lemma_limbs_or_bit(a.0@, b.0@, r.0@, k);
            }
        }
        r
    }

    /// Rotation right by one place.
    pub fn rotate_one_right(self) -> (r: Self)
        ensures
            forall|k: int| 0 <= k < 256 ==> #[trigger] r.bit(k) == self.rotl_bit(-1, k),
    {
        let a = self.shr(1);
        let b = self.shl(255);
        let r = a.bitor(b);
        proof {
            assert forall|k: int| 0 <= k < 256 implies #[trigger] r.bit(k) == self.rotl_bit(-1, k) by {
                lemma_limbs_or_bit(a.0@, b.0@, r.0@, k);
            }
        }
        r
    }

    /// `self >> 1 | self << 254`: every bit moves down by one place, and bits
    /// 0 and 1 are or-ed into places 254 and 255 as well.
    pub fn rotate_two_right(self) -> (r: Self)
        ensures
            forall|k: int|
                0 <= k < 256 ==> #[trigger] r.bit(k) == ((k < 255 && self.bit(k + 1)) || (254 <= k
                    && self.bit(k - 254))),
    {
        let a = self.shr(1);
        let b = self.shl(254);
        let r = a.bitor(b);
        proof {
            assert forall|k: int| 0 <= k < 256 implies #[trigger] r.bit(k) == ((k < 255 && self.bit(
                k + 1,
            )) || (254 <= k && self.bit(k - 254))) by {
                lemma_limbs_or_bit(a.0@, b.0@, r.0@, k);
            }
        }
        r
    }

    /// Rotate left by `n` bits
    pub fn rotate_left(self, n: u32) -> (r: Self)
        ensures
            forall|k: int| 0 <= k < 256 ==> #[trigger] r.bit(k) == self.rotl_bit(n as int, k),
    {
        let ghost n0 = n;
        let n = n % 256;
        let a = self.shl(n);
        let b = self.shr(256 - n);
        let r = a.bitor(b);
        proof {
            assert forall|k: int| 0 <= k < 256 implies #[trigger] r.bit(k) == self.rotl_bit(n0 as int, k) by {
                lemma_limbs_or_bit(a.0@, b.0@, r.0@, k);
                assert((k - n0) % 256 == (k - n) % 256) by (nonlinear_arith)
                    requires
                        n == n0 % 256,
                        n0 >= 0,
                ;
                if k >= n {
                    assert((k - n) % 256 == k - n);
                } else {
                    assert((k - n) % 256 == k - n + 256);
                }
            }
        }
        r
    }

    /// Rotate right by `n` bits
    pub fn rotate_right(self, n: u32) -> (r: Self)
        ensures
            forall|k: int| 0 <= k < 256 ==> #[trigger] r.bit(k) == self.rotl_bit(-(n as int), k),
    {
        let ghost n0 = n;
        let n = n % 256;
        let a = self.shr(n);
        let b = self.shl(256 - n);
        let r = a.bitor(b);
        proof {
            assert forall|k: int| 0 <= k < 256 implies #[trigger] r.bit(k) == self.rotl_bit(-(n0 as int), k) by {
                lemma_limbs_or_bit(a.0@, b.0@, r.0@, k);
                assert((k + n0) % 256 == (k + n) % 256) by (nonlinear_arith)
                    requires
                        n == n0 % 256,
                        n0 >= 0,
                ;
                assert(k - (-(n0 as int)) == k + n0);
                if k + n < 256 {
                    assert((k + n) % 256 == k + n);
                } else {
                    assert((k + n) % 256 == k + n - 256);
                }
            }
        }
        r
    }

    /// The bits in reverse order: bit `k` of the result is bit `255 - k` of `self`.
    pub fn reverse_bits(self) -> (r: Self)
        ensures
            forall|k: int| 0 <= k < 256 ==> #[trigger] r.bit(k) == self.bit(255 - k),
    {
        let mut limbs = self.0;

        // Reverse bits in each 64-bit limb
        for i in 0..4
            invariant
                forall|j: int, b: u64| 0 <= j < i && b < 64 ==> #[trigger] wbit(limbs@[j], b) == wbit(self.0@[j], (63 - b) as u64),
                forall|j: int| i <= j < 4 ==> limbs@[j] == self.0@[j],
        {
            limbs[i] = u64_reverse_bits(limbs[i]);
        }

        // Swap limbs to reflect bit order reversal
        let rev = [limbs[3], limbs[2], limbs[1], limbs[0]];
        let r = U256(rev);
        proof {
            assert forall|k: int| 0 <= k < 256 implies #[trigger] r.bit(k) == self.bit(255 - k) by {
                let i = k / 64;
                let b = (k % 64) as u64;
                assert(r.0@[i] == limbs@[3 - i]);
                assert(wbit(limbs@[3 - i], b) == wbit(self.0@[3 - i], (63 - b) as u64));
                assert((255 - k) / 64 == 3 - i);
                assert((255 - k) % 64 == 63 - b);
            }
        }
        r
    }

    /// The index of the highest set bit; 0 when no bit is set.
    pub fn ilog2(self) -> (r: u32)
        ensures
            (forall|k: int| 0 <= k < 256 ==> !#[trigger] self.bit(k)) ==> r == 0,
            (exists|k: int| 0 <= k < 256 && #[trigger] self.bit(k)) ==> {
                &&& r < 256
                &&& self.bit(r as int)
                &&& forall|k: int| r < k < 256 ==> !#[trigger] self.bit(k)
            },
    {
        let mut i: usize = 4;
        while i > 0
            invariant
                i <= 4,
                forall|k: int| 64 * i <= k < 256 ==> !#[trigger] self.bit(k),
            decreases i,
        {
            i = i - 1;
            let limb = self.0[i];
            if limb != 0 {
                let l = u64_ilog2(limb);
                proof {
                    let r = 64 * i + l;
                    assert(r / 64 == i);
                    assert(r % 64 == l);
                    assert(self.bit(r));
                    assert forall|k: int| r < k < 256 implies !#[trigger] self.bit(k) by {
                        if k / 64 == i {
                            assert(l < (k % 64) as u64);
                        }
                    }
                }
                return (i as u32 * 64) + l;
            }
            proof {
                assert forall|k: int| 64 * i <= k < 256 implies !#[trigger] self.bit(k) by {
                    if k / 64 == i {
                        lemma_zero_bit((k % 64) as u64);
                    }
                }
            }
        }
        0
    }
}

/// Rotating right by `n` undoes rotating left by `n`.
#[verifier::spinoff_prover]
pub proof fn lemma_rotate_left_right(x: T, y: T, z: T, n: u32)
    requires
        forall|k: int| 0 <= k < 256 ==> #[trigger] y.bit(k) == x.rotl_bit(n as int, k),
        forall|k: int| 0 <= k < 256 ==> #[trigger] z.bit(k) == y.rotl_bit(-(n as int), k),
    ensures
        z == x,
{
    assert forall|k: int| 0 <= k < 64 * 4 implies #[trigger] limb_bit(z.0@, k) == limb_bit(x.0@, k) by {
        let m = (k + n) % 256;
        assert(z.bit(k) == y.bit(m));
        assert(y.bit(m) == x.bit((m - n) % 256));
        assert((m - n) % 256 == k) by (nonlinear_arith)
            requires
                m == (k + n) % 256,
                0 <= k < 256,
                n >= 0,
        ;
    }
    lemma_limbs_ext(z.0@, x.0@);
    assert(z.0 =~= x.0);
}

/// Reversing the bits twice gives the number back.
pub proof fn lemma_reverse_bits_involution(x: T, y: T, z: T)
    requires
        forall|k: int| 0 <= k < 256 ==> #[trigger] y.bit(k) == x.bit(255 - k),
        forall|k: int| 0 <= k < 256 ==> #[trigger] z.bit(k) == y.bit(255 - k),
    ensures
        z == x,
{
    assert forall|k: int| 0 <= k < 64 * 4 implies #[trigger] limb_bit(z.0@, k) == limb_bit(x.0@, k) by {
        assert(z.bit(k) == y.bit(255 - k));
    }
    lemma_limbs_ext(z.0@, x.0@);
    assert(z.0 =~= x.0);
}

} // verus!
