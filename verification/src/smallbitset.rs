//! A fixed-size set of integers below 512, kept in eight words.
use vstd::prelude::*;
use vstd::std_specs::cmp::PartialEqSpecImpl;
use crate::bits::{limb_bit, wbit, lemma_word_ops_bit, lemma_single_bit, lemma_zero_bit, lemma_word_misc};

verus! {

/// The number of words; supports members below `64 * WORDS`.
pub const WORDS: usize = 8;

/// A set of integers below 512, one bit per possible member.
#[derive(Clone, Copy, PartialOrd, Ord, Hash)]
pub struct SmallBitSet {
    pub bits: [u64; 8],
}

impl PartialEq for SmallBitSet {
    /// Equal exactly when every word is equal.
    fn eq(&self, other: &Self) -> (r: bool) {
        let mut i: usize = 0;
        while i < WORDS
            invariant
                i <= WORDS,
                forall|j: int| 0 <= j < i ==> self.bits@[j] == other.bits@[j],
            decreases WORDS - i,
        {
            if self.bits[i] != other.bits[i] {
                return false;
            }
            i = i + 1;
        }
        assert(self.bits@ =~= other.bits@);
        true
    }
}

impl PartialEqSpecImpl for SmallBitSet {
    open spec fn obeys_eq_spec() -> bool {
        true
    }

    open spec fn eq_spec(&self, other: &Self) -> bool {
        self.bits@ == other.bits@
    }
}

impl Eq for SmallBitSet {

}

impl SmallBitSet {
    /// `i` is a member of the set.
    pub open spec fn has(&self, i: int) -> bool {
        limb_bit(self.bits@, i)
    }

    /// The members are exactly the elements of `v`, listed in increasing order.
    pub open spec fn lists_members(&self, v: Seq<usize>) -> bool {
        &&& forall|a: int, b: int| 0 <= a < b < v.len() ==> v[a] < v[b]
        &&& forall|j: int| 0 <= j < v.len() ==> self.has(#[trigger] v[j] as int)
        &&& forall|k: int| #[trigger] self.has(k) ==> exists|j: int| 0 <= j < v.len() && v[j] == k
    }

    /// The empty set.
    pub fn new() -> (s: Self)
        ensures
            forall|k: int| !#[trigger] s.has(k),
    {
        let s = SmallBitSet { bits: [0; WORDS] };
        proof {
            assert forall|k: int| !#[trigger] s.has(k) by {
                if 0 <= k < 512 {
                    lemma_zero_bit((k % 64) as u64);
                }
            }
        }
        s
    }

    /// The set `{0, 1, ..., n - 1}`.
    pub fn from_range(n: usize) -> (s: Self)
        requires
            n <= 64 * WORDS,
        ensures
            forall|k: int| #[trigger] s.has(k) == (0 <= k < n),
    {
        let mut s = Self::new();
        for i in 0..n
            invariant
                n <= 64 * WORDS,
                forall|k: int| #[trigger] s.has(k) == (0 <= k < i),
        {
            s.set(i);
        }
        s
    }

    /// Adds `i`.
    #[inline]
    pub fn set(&mut self, i: usize)
        requires
            i < 64 * WORDS,
        ensures
            forall|k: int| #[trigger] final(self).has(k) == (old(self).has(k) || k == i),
    {
        let ghost old_bits = self.bits@;
        let mask = 1u64 << ((i % 64) as u64);
        self.bits[i / 64] = self.bits[i / 64] | mask;
        proof {
            assert forall|k: int| #[trigger] self.has(k) == (old(self).has(k) || k == i) by {
                if 0 <= k < 512 && k / 64 == i / 64 {
                    lemma_word_ops_bit(old_bits[(i / 64) as int], mask, (k % 64) as u64);
                    lemma_single_bit((i % 64) as u64, (k % 64) as u64);
                }
            }
        }
    }

    /// Whether `i` is a member.
    #[inline]
    pub fn contains(&self, i: usize) -> (r: bool)
        requires
            i < 64 * WORDS,
        ensures
            r == self.has(i as int),
    {
        let w = self.bits[i / 64];
        let b = (i % 64) as u64;
        proof {
            lemma_word_misc(w, 0, b);
        }
        w & (1u64 << b) != 0
    }

    /// Whether the set has no member.
    pub fn is_empty(&self) -> (r: bool)
        ensures
            r == forall|k: int| !#[trigger] self.has(k),
    {
        let mut i: usize = 0;
        while i < WORDS
            invariant
                i <= WORDS,
                forall|j: int| 0 <= j < i ==> self.bits@[j] == 0u64,
            decreases WORDS - i,
        {
            if self.bits[i] != 0 {
                proof {
                    let w = self.bits@[i as int];
                    crate::bits::lemma_word_zero_iff(w);
                    let b = choose|b: u64| b < 64 && wbit(w, b);
                    let k = 64 * i + b;
                    assert(k / 64 == i && k % 64 == b);
                    assert(self.has(k));
                }
                return false;
            }
            i = i + 1;
        }
        proof {
            assert forall|k: int| !#[trigger] self.has(k) by {
                if 0 <= k < 512 {
                    lemma_zero_bit((k % 64) as u64);
                }
            }
        }
        true
    }

    /// The members in increasing order.
    pub fn iter(&self) -> (v: Vec<usize>)
        ensures
            self.lists_members(v@),
    {
        let mut out: Vec<usize> = Vec::new();
        for wi in 0..WORDS
            invariant
                forall|a: int, b: int| 0 <= a < b < out@.len() ==> out@[a] < out@[b],
                forall|j: int| 0 <= j < out@.len() ==> out@[j] < 64 * wi,
                forall|j: int| 0 <= j < out@.len() ==> self.has(#[trigger] out@[j] as int),
                forall|k: int| 0 <= k < 64 * wi && #[trigger] self.has(k) ==> exists|j: int| 0 <= j < out@.len() && out@[j] == k,
        {
            let base = wi * 64;
            let word = self.bits[wi];
            for bi in 0..64u64
                invariant
                    base == 64 * wi,
                    wi < WORDS,
                    word == self.bits@[wi as int],
                    forall|a: int, b: int| 0 <= a < b < out@.len() ==> out@[a] < out@[b],
                    forall|j: int| 0 <= j < out@.len() ==> out@[j] < base + bi,
                    forall|j: int| 0 <= j < out@.len() ==> self.has(#[trigger] out@[j] as int),
                    forall|k: int| 0 <= k < base + bi && #[trigger] self.has(k) ==> exists|j: int| 0 <= j < out@.len() && out@[j] == k,
            {
                let m = base + bi as usize;
                proof {
                    assert((m as int) / 64 == wi && (m as int) % 64 == bi);
                    lemma_word_misc(word, 0, bi);
                }
                let ghost prev = out@;
                if word & (1u64 << bi) != 0 {
                    out.push(m);
                    proof {
                        assert(out@[out@.len() - 1] == m);
                    }
                }
                proof {
                    assert forall|k: int| 0 <= k < base + bi + 1 && #[trigger] self.has(k) implies exists|j: int| 0 <= j < out@.len() && out@[j] == k by {
                        if k == m {
                            assert(out@[out@.len() - 1] == m);
                        } else {
                            assert(k < base + bi);
                            let j = choose|j: int| 0 <= j < prev.len() && prev[j] == k;
                            assert(out@[j] == k);
                        }
                    }
                }
            }
        }
        out
    }

    /// The members in increasing order.
    pub fn to_vec(&self) -> (v: Vec<usize>)
        ensures
            self.lists_members(v@),
    {
        self.iter()
    }
}

} // verus!
