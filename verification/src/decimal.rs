//! Decimal digits of numbers held as little-endian 64-bit limbs.
use vstd::prelude::*;
use crate::bits::{limbs_value, limb_base};
use crate::render::string_push;

verus! {

/// The value of the decimal digits `d`, the most significant first.
pub open spec fn digits_value(d: Seq<u8>) -> nat
    decreases d.len(),
{
    if d.len() == 0 {
        0
    } else {
        digits_value(d.drop_last()) * 10 + d.last() as nat
    }
}

/// The value of the decimal digits `d`, the least significant first.
pub open spec fn low_digits_value(d: Seq<u8>) -> nat
    decreases d.len(),
{
    if d.len() == 0 {
        0
    } else {
        d[0] as nat + 10 * low_digits_value(d.drop_first())
    }
}

/// `d` is the decimal notation of `v`: digits below ten, the most significant
/// first, without leading zeros, `0` written as one zero.
pub open spec fn is_decimal(d: Seq<u8>, v: nat) -> bool {
    &&& d.len() >= 1
    &&& forall|i: int| 0 <= i < d.len() ==> #[trigger] d[i] < 10
    &&& digits_value(d) == v
    &&& d.len() == 1 || d[0] != 0
}

/// The character of a decimal digit.
pub open spec fn digit_char(d: u8) -> char {
    if d == 0 {
        '0'
    } else if d == 1 {
        '1'
    } else if d == 2 {
        '2'
    } else if d == 3 {
        '3'
    } else if d == 4 {
        '4'
    } else if d == 5 {
        '5'
    } else if d == 6 {
        '6'
    } else if d == 7 {
        '7'
    } else if d == 8 {
        '8'
    } else {
        '9'
    }
}

/// The limbs from position `i` on stand for the limb at `i` plus the base
/// times those from `i + 1` on.
proof fn lemma_limbs_skip(s: Seq<u64>, i: int)
    requires
        0 <= i < s.len(),
    ensures
        limbs_value(s.skip(i)) == s[i] as nat + limb_base() * limbs_value(s.skip(i + 1)),
{
    assert(s.skip(i).drop_first() =~= s.skip(i + 1));
}

/// Divides the number held in `v` by ten in place; returns the remainder.
fn div10_limbs(v: &mut Vec<u64>) -> (rem: u64)
    ensures
        final(v)@.len() == old(v)@.len(),
        rem < 10,
        limbs_value(old(v)@) == 10 * limbs_value(final(v)@) + rem,
{
    let ghost v0 = v@;
    let mut rem: u64 = 0;
    let mut i: usize = v.len();
    proof {
        assert(v0.skip(v0.len() as int) =~= Seq::<u64>::empty());
        assert(v@.skip(v@.len() as int) =~= Seq::<u64>::empty());
    }
    while i > 0
        invariant
            i <= v@.len(),
            v@.len() == v0.len(),
            rem < 10,
            forall|j: int| 0 <= j < i ==> #[trigger] v@[j] == v0[j],
            limbs_value(v0.skip(i as int)) == 10 * limbs_value(v@.skip(i as int)) + rem,
        decreases i,
    {
        i = i - 1;
        let w = v[i];
        let value: u128 = ((rem as u128) << 64u128) | (w as u128);
        proof {
            assert(value == (rem as u128) * 0x1_0000_0000_0000_0000u128 + (w as u128)) by (bit_vector)
                requires
                    value == ((rem as u128) << 64u128) | (w as u128),
                    rem < 10,
            ;
        }
        let q = value / 10;
        let r = value % 10;
        assert(q < 0x1_0000_0000_0000_0000u128);
        let ghost before = v@;
        v.set(i, q as u64);
        proof {
            lemma_limbs_skip(v0, i as int);
            lemma_limbs_skip(v@, i as int);
            assert(v@.skip(i + 1) =~= before.skip(i + 1));
            let hi = limbs_value(before.skip(i + 1));
            assert(limbs_value(v0.skip(i + 1)) == 10 * hi + rem);
            assert(v0[i as int] == w);
            assert(limbs_value(v0.skip(i as int)) == w as nat + limb_base() * (10 * hi + rem));
            assert(limbs_value(v@.skip(i as int)) == q as nat + limb_base() * hi);
            assert(w as nat + limb_base() * (10 * hi + rem) == 10 * (q as nat + limb_base() * hi) + r) by (nonlinear_arith)
                requires
                    value == rem * limb_base() + w,
                    q == value / 10,
                    r == value % 10,
                    limb_base() == 0x1_0000_0000_0000_0000,
            ;
        }
        rem = r as u64;
    }
    proof {
        assert(v0.skip(0) =~= v0);
        assert(v@.skip(0) =~= v@);
    }
    rem
}

/// Whether every limb is zero.
fn limbs_zero(v: &Vec<u64>) -> (r: bool)
    ensures
        r == (limbs_value(v@) == 0),
{
    let mut i: usize = 0;
    while i < v.len()
        invariant
            i <= v@.len(),
            forall|j: int| 0 <= j < i ==> v@[j] == 0u64,
        decreases v@.len() - i,
    {
        if v[i] != 0 {
            proof {
                lemma_limbs_nonzero(v@, i as int);
            }
            return false;
        }
        i = i + 1;
    }
    proof {
        crate::bits::lemma_limbs_value_zero(v@);
    }
    true
}

/// Limbs with a nonzero limb stand for a nonzero number.
proof fn lemma_limbs_nonzero(s: Seq<u64>, i: int)
    requires
        0 <= i < s.len(),
        s[i] != 0,
    ensures
        limbs_value(s) > 0,
    decreases i,
{
    if i > 0 {
        lemma_limbs_nonzero(s.drop_first(), i - 1);
        assert(limbs_value(s) == s[0] as nat + limb_base() * limbs_value(s.drop_first()));
        assert(limb_base() * limbs_value(s.drop_first()) > 0) by (nonlinear_arith)
            requires
                limbs_value(s.drop_first()) > 0,
                limb_base() > 0,
        ;
    }
}

/// The digits read from the other end give the same number.
proof fn lemma_digits_reverse(d: Seq<u8>)
    ensures
        digits_value(d.reverse()) == low_digits_value(d),
    decreases d.len(),
{
    if d.len() > 0 {
        let t = d.drop_first();
        lemma_digits_reverse(t);
        assert(d.reverse() =~= t.reverse().push(d[0]));
        assert(d.reverse().drop_last() =~= t.reverse());
    }
}

/// Pushing a more significant digit.
proof fn lemma_low_digits_push(d: Seq<u8>, c: u8)
    ensures
        low_digits_value(d.push(c)) == low_digits_value(d) + c as nat * vstd::arithmetic::power::pow(10, d.len()),
    decreases d.len(),
{
    vstd::arithmetic::power::lemma_pow0(10);
    if d.len() > 0 {
        lemma_low_digits_push(d.drop_first(), c);
        assert(d.push(c).drop_first() =~= d.drop_first().push(c));
        let p = vstd::arithmetic::power::pow(10, (d.len() - 1) as nat);
        assert(vstd::arithmetic::power::pow(10, d.len()) == 10 * p) by {
            reveal(vstd::arithmetic::power::pow);
        }
        assert(10 * (low_digits_value(d.drop_first()) + c as nat * p) == 10 * low_digits_value(d.drop_first()) + c as nat * (10 * p))
            by (nonlinear_arith);
        assert(d.push(c)[0] == d[0]);
        assert(low_digits_value(d.push(c)) == d[0] as nat + 10 * low_digits_value(d.drop_first().push(c)));
    } else {
        assert(d.push(c).drop_first() =~= Seq::<u8>::empty());
        assert(d.push(c)[0] == c);
        assert(low_digits_value(d.push(c)) == c as nat + 10 * low_digits_value(Seq::<u8>::empty()));
        assert(c as nat * 1 == c as nat);
    }
}

/// The decimal digits of the number held in `limbs`, the most significant
/// first; zero gives one zero.
pub fn limbs_to_decimal(limbs: &[u64]) -> (d: Vec<u8>)
    ensures
        is_decimal(d@, limbs_value(limbs@)),
{
    let mut n: Vec<u64> = Vec::new();
    let mut i: usize = 0;
    while i < limbs.len()
        invariant
            i <= limbs@.len(),
            n@ == limbs@.take(i as int),
        decreases limbs@.len() - i,
    {
        n.push(limbs[i]);
        assert(limbs@.take(i + 1) =~= limbs@.take(i as int).push(limbs@[i as int]));
        i = i + 1;
    }
    assert(limbs@.take(limbs@.len() as int) =~= limbs@);
    let ghost total = limbs_value(limbs@);
    if limbs_zero(&n) {
        let mut d: Vec<u8> = Vec::new();
        d.push(0);
        assert(d@.drop_last() =~= Seq::<u8>::empty());
        assert(digits_value(d@) == digits_value(Seq::<u8>::empty()) * 10 + 0);
        assert(n@ == limbs@);
        return d;
    }
    let mut digits: Vec<u8> = Vec::new();
    proof {
        vstd::arithmetic::power::lemma_pow0(10);
    }
    while !limbs_zero(&n)
        invariant
            total == limbs_value(n@) * vstd::arithmetic::power::pow(10, digits@.len()) + low_digits_value(digits@),
            forall|j: int| 0 <= j < digits@.len() ==> #[trigger] digits@[j] < 10,
            digits@.len() > 0 && limbs_value(n@) == 0 ==> digits@.last() != 0,
            digits@.len() == 0 ==> limbs_value(n@) > 0,
        decreases limbs_value(n@),
    {
        let ghost before = n@;
        let ghost k = digits@.len();
        let rem = div10_limbs(&mut n);
        let ghost dd = digits@;
        digits.push(rem as u8);
        proof {
            lemma_low_digits_push(dd, rem as u8);
            let p = vstd::arithmetic::power::pow(10, k);
            assert(vstd::arithmetic::power::pow(10, k + 1) == 10 * p) by {
                reveal(vstd::arithmetic::power::pow);
            }
            let hn = limbs_value(n@);
            assert(limbs_value(before) * p == hn * (10 * p) + rem as nat * p) by (nonlinear_arith)
                requires
                    limbs_value(before) == 10 * hn + rem,
            ;
            if hn == 0 {
                assert(rem != 0);
            }
        }
    }
    proof {
        assert(limbs_value(n@) == 0);
        lemma_digits_reverse(digits@);
    }
    let mut d: Vec<u8> = Vec::new();
    let mut j: usize = digits.len();
    while j > 0
        invariant
            j <= digits@.len(),
            d@ == digits@.skip(j as int).reverse(),
        decreases j,
    {
        j = j - 1;
        d.push(digits[j]);
        assert(digits@.skip(j as int).reverse() =~= digits@.skip(j + 1).reverse().push(digits@[j as int]));
    }
    assert(digits@.skip(0) =~= digits@);
    proof {
        assert(forall|i: int| 0 <= i < d@.len() ==> #[trigger] d@[i] == digits@[digits@.len() - 1 - i]);
        assert(d@[0] == digits@.last());
    }
    d
}

/// The decimal notation of the number held in `limbs`.
pub fn limbs_to_string(limbs: &[u64]) -> (s: String)
    ensures
        exists|d: Seq<u8>| is_decimal(d, limbs_value(limbs@)) && s@ == d.map_values(|c: u8| digit_char(c)),
{
    let d = limbs_to_decimal(limbs);
    let mut s = String::new();
    let mut i: usize = 0;
    while i < d.len()
        invariant
            i <= d@.len(),
            s@ == d@.take(i as int).map_values(|c: u8| digit_char(c)),
        decreases d@.len() - i,
    {
        let ch = digit_char_of(d[i]);
        string_push(&mut s, ch);
        assert(d@.take(i + 1).map_values(|c: u8| digit_char(c)) =~= d@.take(i as int).map_values(|c: u8| digit_char(c)).push(ch));
        i = i + 1;
    }
    assert(d@.take(d@.len() as int) =~= d@);
    s
}

/// The character of a decimal digit.
fn digit_char_of(c: u8) -> (ch: char)
    ensures
        ch == digit_char(c),
{
    if c == 0 {
        '0'
    } else if c == 1 {
        '1'
    } else if c == 2 {
        '2'
    } else if c == 3 {
        '3'
    } else if c == 4 {
        '4'
    } else if c == 5 {
        '5'
    } else if c == 6 {
        '6'
    } else if c == 7 {
        '7'
    } else if c == 8 {
        '8'
    } else {
        '9'
    }
}

/// The decimal notation of `v`, without leading zeros.
pub open spec fn nat_text(v: nat) -> Seq<char>
    decreases v,
{
    if v < 10 {
        seq![digit_char(v as u8)]
    } else {
        nat_text(v / 10).push(digit_char((v % 10) as u8))
    }
}

/// The decimal notation of `v`, with a minus sign in front when it is negative.
pub open spec fn int_text(v: int) -> Seq<char> {
    if v < 0 {
        seq!['-'] + nat_text((-v) as nat)
    } else {
        nat_text(v as nat)
    }
}

/// Appends the decimal notation of `v`.
pub fn push_decimal(s: &mut String, v: u64)
    ensures
        final(s)@ == old(s)@ + nat_text(v as nat),
    decreases v,
{
    if v >= 10 {
        push_decimal(s, v / 10);
    }
    string_push(s, digit_char_of((v % 10) as u8));
    assert(s@ =~= old(s)@ + nat_text(v as nat));
}

/// Appends the decimal notation of `v`, with a minus sign when it is negative.
pub fn push_signed(s: &mut String, v: i32)
    ensures
        final(s)@ == old(s)@ + int_text(v as int),
{
    if v < 0 {
        string_push(s, '-');
        let a: i64 = -(v as i64);
        push_decimal(s, a as u64);
        assert(s@ =~= old(s)@ + int_text(v as int));
    } else {
        push_decimal(s, v as u64);
    }
}

} // verus!
