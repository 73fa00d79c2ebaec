//! Bit-level model shared by the fixed-width integers and the bit sets.
//!
//! A limb array `s: Seq<u64>` is read little-endian: bit `k` of the whole
//! number is bit `k % 64` of limb `k / 64`.
use vstd::prelude::*;

verus! {

/// Bit `b` of the word `w` (for `b < 64`).
pub open spec fn wbit(w: u64, b: u64) -> bool {
    (w >> b) & 1u64 == 1u64
}

/// Bit `k` of the little-endian limb sequence `s`; false outside the width.
pub open spec fn limb_bit(s: Seq<u64>, k: int) -> bool {
    0 <= k < 64 * s.len() && wbit(s[k / 64], (k % 64) as u64)
}

/// The number of bits set in a word.
pub open spec fn popcount(w: u64) -> nat
    decreases w,
{
    if w == 0 {
        0
    } else {
        (w % 2) as nat + popcount(w / 2)
    }
}

/// The sum of the bit counts of the limbs `s[0..n]`.
pub open spec fn popcount_limbs(s: Seq<u64>, n: int) -> nat
    decreases n,
{
    if n <= 0 {
        0
    } else {
        popcount_limbs(s, n - 1) + popcount(s[n - 1])
    }
}

/// Limb `i` of `s` shifted left by `64 * ws + bs` bits, as the limb loops compute it.
pub open spec fn shl_word(s: Seq<u64>, i: int, ws: int, bs: u64) -> u64 {
    if i < ws {
        0
    } else if bs == 0 {
        s[i - ws]
    } else {
        (s[i - ws] << bs) | (if i - ws >= 1 {
            s[i - ws - 1] >> (64 - bs) as u64
        } else {
            0
        })
    }
}

/// Limb `i` of `s` shifted right by `64 * ws + bs` bits, as the limb loops compute it.
pub open spec fn shr_word(s: Seq<u64>, i: int, ws: int, bs: u64) -> u64 {
    if i + ws >= s.len() {
        0
    } else if bs == 0 {
        s[i + ws]
    } else {
        (s[i + ws] >> bs) | (if i + ws + 1 < s.len() {
            s[i + ws + 1] << (64 - bs) as u64
        } else {
            0
        })
    }
}

/// The bits of `out` are those of `src` moved up by `n` places, the top ones dropped.
pub open spec fn shifted_left(src: Seq<u64>, out: Seq<u64>, n: int) -> bool {
    forall|k: int| 0 <= k < 64 * src.len() ==> #[trigger] limb_bit(out, k) == (n <= k && limb_bit(src, k - n))
}

/// The bits of `out` are those of `src` moved down by `n` places, zeros shifted in.
pub open spec fn shifted_right(src: Seq<u64>, out: Seq<u64>, n: int) -> bool {
    forall|k: int| 0 <= k < 64 * src.len() ==> #[trigger] limb_bit(out, k) == limb_bit(src, k + n)
}

// ---------------------------------------------------------------- word lemmas

pub proof fn lemma_shl_low(x: u64, y: u64, bs: u64, b: u64)
    requires
        0 < bs < 64,
        b < bs,
    ensures
        wbit((x << bs) | (y >> (64 - bs) as u64), b) == wbit(y, (b + 64 - bs) as u64),
        !wbit(x << bs, b),
{
    assert((((x << bs) | (y >> (64 - bs) as u64)) >> b) & 1u64 == ((y >> (b + 64 - bs) as u64) & 1u64)
        && ((x << bs) >> b) & 1u64 == 0u64) by (bit_vector)
        requires
            0 < bs < 64,
            b < bs,
    ;
}

pub proof fn lemma_shl_high(x: u64, y: u64, bs: u64, b: u64)
    requires
        0 < bs < 64,
        bs <= b < 64,
    ensures
        wbit((x << bs) | (y >> (64 - bs) as u64), b) == wbit(x, (b - bs) as u64),
        wbit(x << bs, b) == wbit(x, (b - bs) as u64),
{
    assert((((x << bs) | (y >> (64 - bs) as u64)) >> b) & 1u64 == ((x >> (b - bs) as u64) & 1u64)
        && ((x << bs) >> b) & 1u64 == ((x >> (b - bs) as u64) & 1u64)) by (bit_vector)
        requires
            0 < bs < 64,
            bs <= b < 64,
    ;
}

pub proof fn lemma_shr_low(x: u64, y: u64, bs: u64, b: u64)
    requires
        0 < bs < 64,
        b + bs < 64,
    ensures
        wbit((x >> bs) | (y << (64 - bs) as u64), b) == wbit(x, (b + bs) as u64),
        wbit(x >> bs, b) == wbit(x, (b + bs) as u64),
{
    assert((((x >> bs) | (y << (64 - bs) as u64)) >> b) & 1u64 == ((x >> (b + bs) as u64) & 1u64)
        && ((x >> bs) >> b) & 1u64 == ((x >> (b + bs) as u64) & 1u64)) by (bit_vector)
        requires
            0 < bs < 64,
            b + bs < 64,
    ;
}

pub proof fn lemma_shr_high(x: u64, y: u64, bs: u64, b: u64)
    requires
        0 < bs < 64,
        64 <= b + bs,
        b < 64,
    ensures
        wbit((x >> bs) | (y << (64 - bs) as u64), b) == wbit(y, (b + bs - 64) as u64),
        !wbit(x >> bs, b),
{
    assert((((x >> bs) | (y << (64 - bs) as u64)) >> b) & 1u64 == ((y >> (b + bs - 64) as u64) & 1u64)
        && ((x >> bs) >> b) & 1u64 == 0u64) by (bit_vector)
        requires
            0 < bs < 64,
            64 <= b + bs,
            b < 64,
    ;
}

pub proof fn lemma_zero_bit(b: u64)
    requires
        b < 64,
    ensures
        !wbit(0u64, b),
{
    lemma_word_misc(0, 0, b);
}

pub proof fn lemma_word_ops_bit(x: u64, y: u64, b: u64)
    requires
        b < 64,
    ensures
        wbit(x & y, b) == (wbit(x, b) && wbit(y, b)),
        wbit(x | y, b) == (wbit(x, b) || wbit(y, b)),
        wbit(x ^ y, b) == (wbit(x, b) != wbit(y, b)),
        wbit(!x, b) == !wbit(x, b),
{
    assert((((x & y) >> b) & 1u64 == 1u64 <==> ((x >> b) & 1u64 == 1u64 && (y >> b) & 1u64 == 1u64))
        && (((x | y) >> b) & 1u64 == 1u64 <==> ((x >> b) & 1u64 == 1u64 || (y >> b) & 1u64 == 1u64))
        && (((x ^ y) >> b) & 1u64 == 1u64 <==> ((x >> b) & 1u64 == 1u64) != ((y >> b) & 1u64 == 1u64))
        && ((((!x) >> b) & 1u64 == 1u64) <==> !((x >> b) & 1u64 == 1u64))) by (bit_vector)
        requires
            b < 64,
    ;
}

/// Bit `b` of `1 << c` is set exactly when `b == c`.
pub proof fn lemma_single_bit(c: u64, b: u64)
    requires
        c < 64,
        b < 64,
    ensures
        wbit(1u64 << c, b) == (b == c),
{
    assert(((1u64 << c) >> b) & 1u64 == 1u64 <==> b == c) by (bit_vector)
        requires
            c < 64,
            b < 64,
    ;
}

/// Small facts about one word: shifting or oring by nothing changes nothing,
/// zero stays zero, a bit is 0 or 1, and testing a bit with a mask.
pub proof fn lemma_word_misc(x: u64, y: u64, b: u64)
    requires
        b < 64,
    ensures
        x ^ y == 0u64 ==> x == y,
        x | 0u64 == x,
        x << 0u64 == x,
        x >> 0u64 == x,
        0u64 >> b == 0u64,
        (0u64 >> b) & 1u64 == 0u64,
        0u64 << b == 0u64,
        1u64 << 0u64 == 1u64,
        (x >> b) & 1u64 == 0u64 || (x >> b) & 1u64 == 1u64,
        (x & (1u64 << b) != 0u64) == wbit(x, b),
        x as u8 == x % 256,
{
    assert((x ^ y == 0u64 ==> x == y) && x | 0u64 == x && x << 0u64 == x && x >> 0u64 == x && 0u64 >> b
        == 0u64 && (0u64 >> b) & 1u64 == 0u64 && 0u64 << b == 0u64 && 1u64 << 0u64 == 1u64 && ((x >> b) & 1u64 == 0u64 || (x >> b)
        & 1u64 == 1u64) && (x & (1u64 << b) != 0u64) == ((x >> b) & 1u64 == 1u64) && x as u8 == x
        % 256) by (bit_vector)
        requires
            b < 64,
    ;
}

/// A machine index split into a word index and a bit index.
pub proof fn lemma_usize_div64(i: usize)
    ensures
        i >> 6 == i / 64,
        i & 63 == i % 64,
{
    assert(i >> 6 == i / 64 && i & 63 == i % 64) by (bit_vector);
}

/// A `u128` split into its two 64-bit halves, and joined back.
pub proof fn lemma_u128_halves(n: u128, lo: u64, hi: u64)
    ensures
        (n as u64) == n % 0x1_0000_0000_0000_0000,
        ((n >> 64) as u64) == n / 0x1_0000_0000_0000_0000,
        (lo as u128) + ((hi as u128) << 64) == lo + 0x1_0000_0000_0000_0000 * hi,
{
    assert((n as u64) == n % 0x1_0000_0000_0000_0000 && ((n >> 64) as u64) == n
        / 0x1_0000_0000_0000_0000 && (lo as u128) + ((hi as u128) << 64) == lo
        + 0x1_0000_0000_0000_0000 * hi) by (bit_vector);
}

/// Two words that agree on every bit are equal.
pub proof fn lemma_word_ext(x: u64, y: u64)
    requires
        forall|b: u64| b < 64 ==> #[trigger] wbit(x, b) == wbit(y, b),
    ensures
        x == y,
{
    let z = x ^ y;
    assert forall|b: u64| b < 64 implies !#[trigger] wbit(z, b) by {
        lemma_word_ops_bit(x, y, b);
        assert(wbit(x, b) == wbit(y, b));
    }
    assert(z == 0u64) by {
        assert forall|b: u64| b < 64 implies (z >> b) & 1u64 == 0u64 by {
            assert(!wbit(z, b));
            lemma_word_misc(z, 0, b);
        }
        lemma_word_zero_from_bits(z);
    }
    lemma_word_misc(x, y, 0);
}

proof fn lemma_word_zero_from_bits(z: u64)
    requires
        forall|b: u64| b < 64 ==> #[trigger] ((z >> b) & 1u64) == 0u64,
    ensures
        z == 0u64,
{
    let t = z.trailing_zeros();
    broadcast use vstd::std_specs::bits::axiom_u64_trailing_zeros;
    if z != 0 {
        assert(vstd::std_specs::bits::u64_trailing_zeros(z) < 64);
        let tz = vstd::std_specs::bits::u64_trailing_zeros(z) as u64;
        assert((z >> tz) & 1u64 == 0u64);
    }
}

/// A word is zero exactly when no bit of it is set.
pub proof fn lemma_word_zero_iff(w: u64)
    ensures
        w == 0u64 <==> forall|b: u64| b < 64 ==> !#[trigger] wbit(w, b),
{
    if w == 0 {
        assert forall|b: u64| b < 64 implies !#[trigger] wbit(w, b) by {
            lemma_zero_bit(b);
        }
    } else {
        if forall|b: u64| b < 64 ==> !#[trigger] wbit(w, b) {
            assert forall|b: u64| b < 64 implies #[trigger] ((w >> b) & 1u64) == 0u64 by {
                assert(!wbit(w, b));
                lemma_word_misc(w, 0, b);
            }
            lemma_word_zero_from_bits(w);
        }
    }
}

/// Two limb sequences of one length that agree on every bit are equal.
pub proof fn lemma_limbs_ext(a: Seq<u64>, c: Seq<u64>)
    requires
        a.len() == c.len(),
        forall|k: int| 0 <= k < 64 * a.len() ==> #[trigger] limb_bit(a, k) == limb_bit(c, k),
    ensures
        a == c,
{
    assert forall|i: int| 0 <= i < a.len() implies a[i] == c[i] by {
        assert forall|b: u64| b < 64 implies #[trigger] wbit(a[i], b) == wbit(c[i], b) by {
            let k = 64 * i + b;
            assert(k / 64 == i && k % 64 == b);
            assert(limb_bit(a, k) == limb_bit(c, k));
        }
        lemma_word_ext(a[i], c[i]);
    }
    assert(a =~= c);
}

// ------------------------------------------------------------ limb lemmas

/// The limb-wise left shift of `shl_word` moves every bit up by `n` places.
pub proof fn lemma_shl_words(src: Seq<u64>, out: Seq<u64>, n: int)
    requires
        out.len() == src.len(),
        0 <= n,
        forall|i: int|
            0 <= i < src.len() ==> #[trigger] out[i] == shl_word(src, i, n / 64, (n % 64) as u64),
    ensures
        shifted_left(src, out, n),
{
    let ws = n / 64;
    let bs = (n % 64) as u64;
    assert forall|k: int| 0 <= k < 64 * src.len() implies #[trigger] limb_bit(out, k) == (n <= k
        && limb_bit(src, k - n)) by {
        let i = k / 64;
        let b = (k % 64) as u64;
        assert(k == 64 * i + b);
        assert(n == 64 * ws + bs);
        assert(0 <= i < src.len());
        assert(out[i] == shl_word(src, i, ws, bs));
        assert(limb_bit(out, k) == wbit(out[i], b));
        if i < ws {
            lemma_zero_bit(b);
            assert(k < n);
        } else if bs == 0 {
            assert((k - n) / 64 == i - ws);
            assert((k - n) % 64 == b);
            assert(limb_bit(src, k - n) == wbit(src[i - ws], b));
        } else {
            let j = i - ws;
            let hi = if j >= 1 {
                src[j - 1] >> (64 - bs) as u64
            } else {
                0u64
            };
            if b >= bs {
                let y = if j >= 1 {
                    src[j - 1]
                } else {
                    0u64
                };
                lemma_word_misc(0, 0, (64 - bs) as u64);
                lemma_shl_high(src[j], y, bs, b);
                assert(out[i] == (src[j] << bs) | hi);
                assert((k - n) / 64 == j);
                assert((k - n) % 64 == b - bs);
                assert(limb_bit(src, k - n) == wbit(src[j], (b - bs) as u64));
                assert(limb_bit(out, k) == wbit(src[j], (b - bs) as u64));
            } else {
                if j >= 1 {
                    lemma_shl_low(src[j], src[j - 1], bs, b);
                    assert(out[i] == (src[j] << bs) | hi);
                    assert((k - n) / 64 == j - 1);
                    assert((k - n) % 64 == b + 64 - bs);
                    assert(limb_bit(src, k - n) == wbit(src[j - 1], (b + 64 - bs) as u64));
                } else {
                    lemma_shl_low(src[j], 0u64, bs, b);
                    assert(out[i] == (src[j] << bs) | 0u64);
                    lemma_word_misc(src[j] << bs, 0, 0);
                    assert(k < n);
                }
            }
        }
    }
}

/// The limb-wise right shift of `shr_word` moves every bit down by `n` places.
pub proof fn lemma_shr_words(src: Seq<u64>, out: Seq<u64>, n: int)
    requires
        out.len() == src.len(),
        0 <= n,
        forall|i: int|
            0 <= i < src.len() ==> #[trigger] out[i] == shr_word(src, i, n / 64, (n % 64) as u64),
    ensures
        shifted_right(src, out, n),
{
    let ws = n / 64;
    let bs = (n % 64) as u64;
    let len = src.len() as int;
    assert forall|k: int| 0 <= k < 64 * src.len() implies #[trigger] limb_bit(out, k)
        == limb_bit(src, k + n) by {
        let i = k / 64;
        let b = (k % 64) as u64;
        assert(k == 64 * i + b);
        assert(n == 64 * ws + bs);
        assert(0 <= i < src.len());
        assert(out[i] == shr_word(src, i, ws, bs));
        assert(limb_bit(out, k) == wbit(out[i], b));
        if i + ws >= len {
            lemma_zero_bit(b);
            assert(k + n >= 64 * len);
        } else if bs == 0 {
            assert((k + n) / 64 == i + ws);
            assert((k + n) % 64 == b);
        } else {
            let j = i + ws;
            if b + bs < 64 {
                let hi = if j + 1 < len {
                    src[j + 1] << (64 - bs) as u64
                } else {
                    0u64
                };
                lemma_shr_low(src[j], if j + 1 < len {
                    src[j + 1]
                } else {
                    0u64
                }, bs, b);
                lemma_word_misc(0, 0, (64 - bs) as u64);
                assert(out[i] == (src[j] >> bs) | hi);
                assert((k + n) / 64 == j);
                assert((k + n) % 64 == b + bs);
                assert(limb_bit(src, k + n) == wbit(src[j], (b + bs) as u64));
            } else {
                assert((k + n) / 64 == j + 1);
                assert((k + n) % 64 == b + bs - 64);
                if j + 1 < len {
                    lemma_shr_high(src[j], src[j + 1], bs, b);
                    assert(out[i] == (src[j] >> bs) | (src[j + 1] << (64 - bs) as u64));
                    assert(limb_bit(src, k + n) == wbit(src[j + 1], (b + bs - 64) as u64));
                } else {
                    lemma_shr_high(src[j], 0u64, bs, b);
                    assert(out[i] == (src[j] >> bs) | 0u64);
                    lemma_word_misc(src[j] >> bs, 0, 0);
                }
            }
        }
    }
}

/// A sequence of zero limbs has no bit set.
pub proof fn lemma_zero_limbs(s: Seq<u64>)
    requires
        forall|i: int| 0 <= i < s.len() ==> s[i] == 0u64,
    ensures
        forall|k: int| #[trigger] limb_bit(s, k) == false,
{
    assert forall|k: int| #[trigger] limb_bit(s, k) == false by {
        if 0 <= k < 64 * s.len() {
            lemma_zero_bit((k % 64) as u64);
        }
    }
}

/// `limb_base()` to the power `n`: one more than the largest value of `n` limbs.
pub open spec fn limbs_cap(n: nat) -> nat
    decreases n,
{
    if n == 0 {
        1
    } else {
        limb_base() * limbs_cap((n - 1) as nat)
    }
}

/// `limbs_cap(n)` is at least one.
pub proof fn lemma_limbs_cap_pos(n: nat)
    ensures
        limbs_cap(n) >= 1,
    decreases n,
{
    if n > 0 {
        lemma_limbs_cap_pos((n - 1) as nat);
        assert(limb_base() * limbs_cap((n - 1) as nat) >= 1) by (nonlinear_arith)
            requires
                limbs_cap((n - 1) as nat) >= 1,
                limb_base() >= 1,
        ;
    }
}

/// The value of `n` limbs is below `limbs_cap(n)`.
pub proof fn lemma_limbs_value_cap(s: Seq<u64>)
    ensures
        limbs_value(s) < limbs_cap(s.len()),
    decreases s.len(),
{
    if s.len() > 0 {
        let t = s.drop_first();
        lemma_limbs_value_cap(t);
        let v = limbs_value(t);
        let c = limbs_cap(t.len());
        assert(s[0] as nat + limb_base() * v < limb_base() * c) by (nonlinear_arith)
            requires
                s[0] < limb_base(),
                v < c,
        ;
    }
}

/// Bit `k` of the limbs after the first is bit `k + 64` of all of them.
pub proof fn lemma_limb_bit_drop_first(s: Seq<u64>, k: int)
    requires
        s.len() > 0,
        k >= 0,
    ensures
        limb_bit(s.drop_first(), k) == limb_bit(s, k + 64),
{
    assert((k + 64) / 64 == k / 64 + 1);
    assert((k + 64) % 64 == k % 64);
    if 0 <= k < 64 * (s.len() - 1) {
        assert(s.drop_first()[k / 64] == s[k / 64 + 1]);
    }
}

/// An even number of limb-base units plus a word, halved.
proof fn lemma_halve_parts(a0: nat, v1: nat, hi: nat)
    requires
        hi == v1 % 2,
    ensures
        (a0 + limb_base() * v1) / 2 == a0 / 2 + hi * 0x8000_0000_0000_0000 + limb_base() * (v1 / 2),
{
    assert((a0 + limb_base() * v1) / 2 == a0 / 2 + hi * 0x8000_0000_0000_0000 + limb_base() * (v1 / 2))
        by (nonlinear_arith)
        requires
            hi == v1 % 2,
            limb_base() == 0x1_0000_0000_0000_0000nat,
    {
        assert(v1 == 2 * (v1 / 2) + hi);
        assert(a0 + limb_base() * v1 == 2 * (a0 / 2 + hi * 0x8000_0000_0000_0000 + limb_base() * (v1 / 2)) + a0 % 2);
    }
}

/// Limbs whose bits are those of `a` moved down by one place stand for half
/// of `a`'s number, rounded down.
pub proof fn lemma_shr1_value(a: Seq<u64>, r: Seq<u64>)
    requires
        a.len() == r.len(),
        shifted_right(a, r, 1),
    ensures
        limbs_value(r) == limbs_value(a) / 2,
    decreases a.len(),
{
    if a.len() > 0 {
        let a1 = a.drop_first();
        let r1 = r.drop_first();
        assert forall|k: int| 0 <= k < 64 * a1.len() implies #[trigger] limb_bit(r1, k) == limb_bit(a1, k + 1) by {
            lemma_limb_bit_drop_first(r, k);
            lemma_limb_bit_drop_first(a, k + 1);
            assert(limb_bit(r, k + 64) == limb_bit(a, k + 64 + 1));
        }
        lemma_shr1_value(a1, r1);
        let a0 = a[0];
        let hi: u64 = if a.len() > 1 { a[1] & 1u64 } else { 0u64 };
        if a.len() > 1 {
            let x = a[1];
            assert(x & 1u64 <= 1) by (bit_vector);
        }
        assert(hi <= 1);
        let w: u64 = (a0 >> 1u64) | (hi << 63u64);
        assert forall|b: u64| b < 64 implies #[trigger] wbit(r[0], b) == wbit(w, b) by {
            assert(limb_bit(r, b as int) == limb_bit(a, b + 1));
            assert((b as int) / 64 == 0 && (b as int) % 64 == b);
            if b < 63 {
                assert((b + 1) / 64 == 0 && (b + 1) % 64 == b + 1);
                assert(wbit(w, b) == wbit(a0, (b + 1) as u64)) by (bit_vector)
                    requires
                        w == (a0 >> 1u64) | (hi << 63u64),
                        hi <= 1,
                        b < 63,
                ;
            } else {
                assert((b + 1) / 64 == 1 && (b + 1) % 64 == 0);
                assert(wbit(w, b) == (hi == 1u64)) by (bit_vector)
                    requires
                        w == (a0 >> 1u64) | (hi << 63u64),
                        hi <= 1,
                        b == 63,
                ;
                if a.len() > 1 {
                    let x = a[1];
                    assert((hi == 1u64) == wbit(x, 0)) by (bit_vector)
                        requires
                            hi == x & 1u64,
                    ;
                }
            }
        }
        lemma_word_ext(r[0], w);
        assert(w as nat == a0 / 2 + hi * 0x8000_0000_0000_0000) by (bit_vector)
            requires
                w == (a0 >> 1u64) | (hi << 63u64),
                hi <= 1,
        ;
        if a.len() > 1 {
            let x = a1[0];
            assert(hi == x % 2) by (bit_vector)
                requires
                    hi == x & 1u64,
            ;
            assert(limbs_value(a1) % 2 == a1[0] % 2) by (nonlinear_arith)
                requires
                    limbs_value(a1) == a1[0] as nat + limb_base() * limbs_value(a1.drop_first()),
                    limb_base() == 0x1_0000_0000_0000_0000nat,
            ;
        } else {
            assert(limbs_value(a1) == 0);
        }
        lemma_halve_parts(a0 as nat, limbs_value(a1), hi as nat);
    }
}

/// Words `r0 + limb_base() * y` modulo `limb_base() * c`.
proof fn lemma_mod_parts(r0: nat, y: nat, c: nat)
    requires
        r0 < limb_base(),
        c >= 1,
    ensures
        (r0 + limb_base() * y) % (limb_base() * c) == r0 + limb_base() * (y % c),
{
    let b = limb_base();
    let m = y % c;
    let q = y / c;
    assert(y == c * q + m && 0 <= m < c) by {
        vstd::arithmetic::div_mod::lemma_fundamental_div_mod(y as int, c as int);
    }
    assert(r0 + b * y == (b * c) * q + (r0 + b * m) && 0 <= r0 + b * m < b * c) by (nonlinear_arith)
        requires
            y == c * q + m,
            0 <= m < c,
            r0 < b,
    ;
    vstd::arithmetic::div_mod::lemma_fundamental_div_mod_converse(
        (r0 + b * y) as int,
        (b * c) as int,
        q as int,
        (r0 + b * m) as int,
    );
}

/// Limbs whose bits are those of `a` moved up by two places, with the two
/// bits of `c` shifted in at the bottom, stand for `4 * a + c` cut to their
/// width.
pub proof fn lemma_shl2_value(a: Seq<u64>, r: Seq<u64>, c: u64)
    requires
        a.len() == r.len(),
        c < 4,
        forall|k: int|
            0 <= k < 64 * a.len() ==> #[trigger] limb_bit(r, k) == (if k < 2 {
                (c >> (k as u64)) & 1u64 == 1u64
            } else {
                limb_bit(a, k - 2)
            }),
    ensures
        limbs_value(r) == (4 * limbs_value(a) + c) % (limbs_cap(a.len()) as int),
    decreases a.len(),
{
    if a.len() == 0 {
        assert(limbs_cap(0) == 1);
    } else {
        let a1 = a.drop_first();
        let r1 = r.drop_first();
        let a0 = a[0];
        let carry: u64 = a0 >> 62u64;
        assert(carry < 4) by (bit_vector)
            requires
                carry == a0 >> 62u64,
        ;
        assert forall|k: int| 0 <= k < 64 * a1.len() implies #[trigger] limb_bit(r1, k) == (if k < 2 {
            (carry >> (k as u64)) & 1u64 == 1u64
        } else {
            limb_bit(a1, k - 2)
        }) by {
            lemma_limb_bit_drop_first(r, k);
            assert(limb_bit(r, k + 64) == limb_bit(a, k + 62));
            if k < 2 {
                assert((k + 62) / 64 == 0 && (k + 62) % 64 == k + 62);
                let kk = k as u64;
                assert(wbit(a0, (kk + 62) as u64) == ((carry >> kk) & 1u64 == 1u64)) by (bit_vector)
                    requires
                        carry == a0 >> 62u64,
                        kk < 2,
                ;
            } else {
                lemma_limb_bit_drop_first(a, k - 2);
            }
        }
        lemma_shl2_value(a1, r1, carry);
        let w: u64 = (a0 << 2u64) | c;
        assert forall|b: u64| b < 64 implies #[trigger] wbit(r[0], b) == wbit(w, b) by {
            assert(limb_bit(r, b as int) == wbit(r[0], b));
            if b < 2 {
                assert(wbit(w, b) == ((c >> b) & 1u64 == 1u64)) by (bit_vector)
                    requires
                        w == (a0 << 2u64) | c,
                        c < 4,
                        b < 2,
                ;
            } else {
                assert(((b - 2) as int) / 64 == 0 && ((b - 2) as int) % 64 == b - 2);
                assert(wbit(w, b) == wbit(a0, (b - 2) as u64)) by (bit_vector)
                    requires
                        w == (a0 << 2u64) | c,
                        c < 4,
                        2 <= b < 64,
                ;
            }
        }
        lemma_word_ext(r[0], w);
        assert(4 * (a0 as nat) + c == carry * 0x1_0000_0000_0000_0000nat + w) by (bit_vector)
            requires
                carry == a0 >> 62u64,
                w == (a0 << 2u64) | c,
                c < 4,
        ;
        let v1 = limbs_value(a1);
        let cap1 = limbs_cap(a1.len());
        lemma_limbs_cap_pos(a1.len());
        assert(limbs_cap(a.len()) == limb_base() * cap1);
        assert(4 * limbs_value(a) + c == w + limb_base() * (carry + 4 * v1)) by (nonlinear_arith)
            requires
                limbs_value(a) == a0 as nat + limb_base() * v1,
                4 * (a0 as nat) + c == carry * limb_base() + w,
        ;
        lemma_mod_parts(w as nat, (carry + 4 * v1) as nat, cap1);
    }
}

/// Different limbs of the same length stand for different numbers.
pub proof fn lemma_limbs_value_injective(a: Seq<u64>, c: Seq<u64>)
    requires
        a.len() == c.len(),
        limbs_value(a) == limbs_value(c),
    ensures
        a == c,
    decreases a.len(),
{
    if a.len() > 0 {
        let a1 = a.drop_first();
        let c1 = c.drop_first();
        let x = limbs_value(a1);
        let y = limbs_value(c1);
        assert(a[0] as nat + limb_base() * x == c[0] as nat + limb_base() * y);
        assert(a[0] == c[0] && x == y) by (nonlinear_arith)
            requires
                a[0] < limb_base(),
                c[0] < limb_base(),
                a[0] as nat + limb_base() * x == c[0] as nat + limb_base() * y,
        ;
        lemma_limbs_value_injective(a1, c1);
        assert(a =~= seq![a[0]] + a1);
        assert(c =~= seq![c[0]] + c1);
    } else {
        assert(a =~= c);
    }
}

} // verus!

verus! {

// ------------------------------------------------------------ numeric value

/// The base of one limb, `2^64`.
pub open spec fn limb_base() -> nat {
    0x1_0000_0000_0000_0000
}

/// The number that the little-endian limbs `s` stand for.
pub open spec fn limbs_value(s: Seq<u64>) -> nat
    decreases s.len(),
{
    if s.len() == 0 {
        0
    } else {
        s[0] as nat + limb_base() * limbs_value(s.drop_first())
    }
}

/// Limbs that are all zero stand for zero.
pub proof fn lemma_limbs_value_zero(s: Seq<u64>)
    requires
        forall|i: int| 0 <= i < s.len() ==> s[i] == 0u64,
    ensures
        limbs_value(s) == 0,
    decreases s.len(),
{
    if s.len() > 0 {
        lemma_limbs_value_zero(s.drop_first());
    }
}

/// The value of limbs whose limbs from index 2 on are zero.
pub proof fn lemma_limbs_value_two(s: Seq<u64>)
    requires
        s.len() >= 2,
        forall|i: int| 2 <= i < s.len() ==> s[i] == 0u64,
    ensures
        limbs_value(s) == s[0] + limb_base() * s[1],
{
    let t = s.drop_first();
    let u = t.drop_first();
    lemma_limbs_value_zero(u);
    assert(limbs_value(t) == t[0] + limb_base() * limbs_value(u));
}

/// Limbs are ordered by their value as by their most significant differing limb.
pub proof fn lemma_limbs_value_lt(a: Seq<u64>, c: Seq<u64>, i: int)
    requires
        a.len() == c.len(),
        0 <= i < a.len(),
        a[i] < c[i],
        forall|j: int| i < j < a.len() ==> a[j] == c[j],
    ensures
        limbs_value(a) < limbs_value(c),
    decreases a.len(),
{
    let a1 = a.drop_first();
    let c1 = c.drop_first();
    if i == 0 {
        assert(a1 =~= c1);
        assert(limbs_value(a) == a[0] + limb_base() * limbs_value(a1));
        assert(limbs_value(c) == c[0] + limb_base() * limbs_value(c1));
    } else {
        lemma_limbs_value_lt(a1, c1, i - 1);
        let va = limbs_value(a1);
        let vc = limbs_value(c1);
        assert(limb_base() * va + limb_base() <= limb_base() * vc) by (nonlinear_arith)
            requires
                va < vc,
        ;
        assert(limbs_value(a) == a[0] + limb_base() * va);
        assert(limbs_value(c) == c[0] + limb_base() * vc);
    }
}

/// `lemma_limbs_value_lt` at a machine index.
pub proof fn lemma_limbs_value_lt_at(a: Seq<u64>, c: Seq<u64>, i: usize)
    requires
        a.len() == c.len(),
        i < a.len(),
        a[i as int] < c[i as int],
        forall|j: int| i < j < a.len() ==> a[j] == c[j],
    ensures
        limbs_value(a) < limbs_value(c),
{
    lemma_limbs_value_lt(a, c, i as int);
}

// ------------------------------------------------------------ bit counting

/// `2^m`, by repeated doubling.
pub open spec fn pow2n(m: nat) -> nat
    decreases m,
{
    if m == 0 {
        1
    } else {
        2 * pow2n((m - 1) as nat)
    }
}

proof fn lemma_popcount_below(w: u64, m: nat)
    requires
        w < pow2n(m),
    ensures
        popcount(w) <= m,
    decreases m,
{
    if w != 0 {
        assert(m > 0);
        lemma_popcount_below(w / 2, (m - 1) as nat);
    }
}

/// A word has at most 64 bits set.
pub proof fn lemma_popcount_le_64(w: u64)
    ensures
        popcount(w) <= 64,
{
    assert(pow2n(64) == 0x1_0000_0000_0000_0000nat) by {
        reveal_with_fuel(pow2n, 65);
    }
    lemma_popcount_below(w, 64);
}

/// The bit counts of the first `n` limbs add up to at most `64 * n`.
pub proof fn lemma_popcount_limbs_bound(s: Seq<u64>, n: int)
    requires
        0 <= n <= s.len(),
    ensures
        popcount_limbs(s, n) <= 64 * n,
    decreases n,
{
    if n > 0 {
        lemma_popcount_limbs_bound(s, n - 1);
        lemma_popcount_le_64(s[n - 1]);
    }
}

// ------------------------------------------------------------ std words

/// The number of bits set in `w`, counted one bit at a time.
pub(crate) fn u64_count_ones(w: u64) -> (r: u32)
    ensures
        r == popcount(w),
{
    proof {
        lemma_popcount_le_64(w);
    }
    let mut x = w;
    let mut c: u32 = 0;
    while x != 0
        invariant
            c + popcount(x) == popcount(w),
            popcount(w) <= 64,
        decreases x,
    {
        c = c + (x % 2) as u32;
        x = x / 2;
    }
    c
}

/// Shifting `r` up by one and putting bit `i` of `w` at the bottom.
proof fn lemma_reverse_step(r: u64, w: u64, i: u64, b: u64)
    by (bit_vector)
    requires
        i < 64,
        b < 64,
    ensures
        wbit((r << 1u64) | ((w >> i) & 1u64), b) == (if b == 0 {
            wbit(w, i)
        } else {
            wbit(r, (b - 1) as u64)
        }),
{
}

/// The bits of `w` in reverse order: bit `b` of the result is bit `63 - b`
/// of `w`, built by taking the bits of `w` from the bottom up.
pub(crate) fn u64_reverse_bits(w: u64) -> (r: u64)
    ensures
        forall|b: u64| b < 64 ==> #[trigger] wbit(r, b) == wbit(w, (63 - b) as u64),
{
    let mut r: u64 = 0;
    let mut i: u64 = 0;
    while i < 64
        invariant
            i <= 64,
            forall|b: u64| b < i ==> #[trigger] wbit(r, b) == wbit(w, (i - 1 - b) as u64),
        decreases 64 - i,
    {
        let ghost before = r;
        r = (r << 1u64) | ((w >> i) & 1u64);
        proof {
            assert forall|b: u64| b < i + 1 implies #[trigger] wbit(r, b) == wbit(w, (i + 1 - 1 - b) as u64) by {
                lemma_reverse_step(before, w, i, b);
                if b > 0 {
                    assert(wbit(before, (b - 1) as u64) == wbit(w, (i - 1 - (b - 1) as u64) as u64));
                }
            }
        }
        i = i + 1;
    }
    r
}

/// Bit `k` of a limb-wise or is the or of the bits.
pub proof fn lemma_limbs_or_bit(a: Seq<u64>, c: Seq<u64>, out: Seq<u64>, k: int)
    requires
        a.len() == c.len(),
        out.len() == a.len(),
        forall|i: int| 0 <= i < a.len() ==> #[trigger] out[i] == a[i] | c[i],
    ensures
        limb_bit(out, k) == (limb_bit(a, k) || limb_bit(c, k)),
{
    if 0 <= k < 64 * a.len() {
        lemma_word_ops_bit(a[k / 64], c[k / 64], (k % 64) as u64);
    }
}

/// Bit `k` of limb-wise and, or and exclusive or.
pub proof fn lemma_limbs_ops_bit(a: Seq<u64>, c: Seq<u64>, and: Seq<u64>, or: Seq<u64>, xor: Seq<u64>, k: int)
    requires
        a.len() == c.len(),
        and.len() == a.len(),
        or.len() == a.len(),
        xor.len() == a.len(),
        forall|i: int| 0 <= i < a.len() ==> #[trigger] and[i] == a[i] & c[i],
        forall|i: int| 0 <= i < a.len() ==> #[trigger] or[i] == a[i] | c[i],
        forall|i: int| 0 <= i < a.len() ==> #[trigger] xor[i] == a[i] ^ c[i],
    ensures
        limb_bit(and, k) == (limb_bit(a, k) && limb_bit(c, k)),
        limb_bit(or, k) == (limb_bit(a, k) || limb_bit(c, k)),
        limb_bit(xor, k) == (limb_bit(a, k) != limb_bit(c, k)),
{
    if 0 <= k < 64 * a.len() {
        lemma_word_ops_bit(a[k / 64], c[k / 64], (k % 64) as u64);
    }
}

} // verus!
