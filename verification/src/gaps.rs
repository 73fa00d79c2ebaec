//! Measuring the gaps between the live cells of a row.
use vstd::prelude::*;
use crate::int_u1024::{Int, U1024, zero};
use crate::bits::{limb_bit, lemma_limbs_ext};
use crate::search::gaps_at_most;

verus! {

/// Whether every gap between consecutive set bits of `n` is at most `max` bits long.
/// Every gap between consecutive set bits of `n` that ends below bit `e` is at
/// most `max` long.
#[verifier::opaque]
spec fn gaps_below(n: U1024, max: int, e: int) -> bool {
    forall|i: int, j: int|
        #![trigger n.bit(i), n.bit(j)]
        0 <= i < j < e && n.bit(i) && n.bit(j) && (forall|m: int| i < m < j ==> !#[trigger] n.bit(m)) ==> j - i - 1
            <= max
}

/// A first set bit of `cur` further than `max` above the last set bit below
/// `off` makes a gap that is too long.
proof fn lemma_gap_too_long(orig: U1024, cur: U1024, off: int, tz: int, max: int)
    requires
        0 <= off,
        0 <= tz < 1024,
        forall|k: int| 0 <= k < 1024 ==> #[trigger] cur.bit(k) == orig.bit(off + k),
        cur.bit(tz),
        forall|k: int| 0 <= k < tz ==> !#[trigger] cur.bit(k),
        (off > 0 && orig.bit(off - 1)) || ((forall|m: int| 0 <= m < off ==> !#[trigger] orig.bit(m)) && cur.bit(0)),
        0 <= max < tz,
    ensures
        !gaps_at_most(orig, max),
{
    if !(off > 0 && orig.bit(off - 1)) {
        assert(cur.bit(0));
    }
    let i = off - 1;
    let j = off + tz;
    assert(orig.bit(j));
    assert forall|m: int| i < m < j implies !#[trigger] orig.bit(m) by {
        assert(cur.bit(m - off) == orig.bit(m));
    }
    assert(orig.bit(i) && orig.bit(j));
    assert(!(j - i - 1 <= max));
}

/// Moving past the next set bit, at most `max` above the last one, keeps the
/// gaps short.
proof fn lemma_gaps_extend(orig: U1024, cur: U1024, off: int, tz: int, max: int)
    requires
        0 <= off,
        0 <= tz < 1024,
        forall|k: int| 0 <= k < 1024 ==> #[trigger] cur.bit(k) == orig.bit(off + k),
        cur.bit(tz),
        forall|k: int| 0 <= k < tz ==> !#[trigger] cur.bit(k),
        (off > 0 && orig.bit(off - 1)) || ((forall|m: int| 0 <= m < off ==> !#[trigger] orig.bit(m)) && cur.bit(0)),
        tz <= max,
        gaps_below(orig, max, off),
    ensures
        gaps_below(orig, max, off + tz + 1),
{
    reveal(gaps_below);
    assert(orig.bit(off + tz));
    let e = off + tz + 1;
    assert forall|i: int, j: int|
        #![trigger orig.bit(i), orig.bit(j)]
        0 <= i < j < e && orig.bit(i) && orig.bit(j) && (forall|m: int| i < m < j ==> !#[trigger] orig.bit(m))
            implies j - i - 1 <= max by {
        if j >= off {
            assert(j == off + tz) by {
                if j < off + tz {
                    assert(cur.bit(j - off));
                }
            }
            if i < off - 1 {
                if off > 0 && orig.bit(off - 1) {
                    assert(!orig.bit(off - 1));
                } else {
                    assert(!orig.bit(i));
                }
            }
            if i >= off {
                assert(cur.bit(i - off));
            }
        }
    }
}

/// Once no set bit is left above `off`, the gaps below `off` are all the gaps.
proof fn lemma_gaps_done(orig: U1024, cur: U1024, z: U1024, off: int, max: int)
    requires
        0 <= off <= 1024,
        cur.v@ == z.v@,
        forall|k: int| !#[trigger] z.bit(k),
        forall|k: int| 0 <= k < 1024 ==> #[trigger] cur.bit(k) == orig.bit(off + k),
        gaps_below(orig, max, off),
    ensures
        gaps_at_most(orig, max),
{
    reveal(gaps_below);
    assert forall|i: int, j: int|
        #![trigger orig.bit(i), orig.bit(j)]
        0 <= i < j < 1024 && orig.bit(i) && orig.bit(j) && (forall|m: int| i < m < j ==> !#[trigger] orig.bit(m))
            implies j - i - 1 <= max by {
        if j >= off {
            assert(cur.bit(j - off) == orig.bit(j));
            assert(cur.bit(j - off) == z.bit(j - off));
        }
    }
}

#[inline(always)]
pub(crate) fn gap_length_less_than(n: Int, max: u32) -> (r: bool)
    ensures
        r == gaps_at_most(n, max as int),
{
    let z = zero();
    if n == z {
        proof {
            assert(n.v@ =~= z.v@);
            assert forall|k: int| !#[trigger] n.bit(k) by {
                assert(z.bit(k) == n.bit(k));
            }
        }
        return true;
    }
    let orig = n;
    let t0 = n.trailing_zeros();
    let mut cur = n.shr(t0 as usize);
    let ghost mut off: int = t0 as int;
    proof {
        reveal(gaps_below);
        if t0 == 1024 {
            assert forall|i: int| 0 <= i < 16 implies orig.v@[i] == 0u64 by {
                assert forall|b: u64| b < 64 implies !#[trigger] crate::bits::wbit(orig.v@[i], b) by {
                    let k = 64 * i + b;
                    assert(k / 64 == i && k % 64 == b);
                    assert(!orig.bit(k));
                }
                crate::bits::lemma_word_zero_iff(orig.v@[i]);
            }
            assert(orig.v@ =~= z.v@);
        }
    }
    while cur != z
        invariant
            0 <= off <= 1024,
            orig == n,
            z.is_zero(),
            forall|k: int| !#[trigger] z.bit(k),
            forall|k: int| 0 <= k < 1024 ==> #[trigger] cur.bit(k) == orig.bit(off + k),
            (off > 0 && orig.bit(off - 1)) || ((forall|m: int| 0 <= m < off ==> !#[trigger] orig.bit(m)) && cur.bit(0)),
            gaps_below(orig, max as int, off),
        decreases 1024 - off,
    {
        let tz = cur.trailing_zeros();
        proof {
            if tz == 1024 {
                assert(cur.v@ =~= z.v@) by {
                    assert forall|k: int| 0 <= k < 64 * 16 implies #[trigger] limb_bit(cur.v@, k) == limb_bit(z.v@, k) by {
                        assert(!cur.bit(k));
                        assert(!z.bit(k));
                    }
                    lemma_limbs_ext(cur.v@, z.v@);
                }
            }
            assert(cur.bit(tz as int));
            assert(orig.bit(off + tz));
        }
        if tz > max {
            proof {
                lemma_gap_too_long(orig, cur, off, tz as int, max as int);
            }
            return false;
        }
        let ghost old_off = off;
        let ghost old_n = cur;
        cur = cur.shr(tz as usize + 1);
        proof {
            lemma_gaps_extend(orig, old_n, old_off, tz as int, max as int);
            off = off + tz + 1;
        }
    }
    proof {
        lemma_gaps_done(orig, cur, z, off, max as int);
    }
    true
}

} // verus!
