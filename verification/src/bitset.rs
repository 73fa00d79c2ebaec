//! A growable-capacity set of small integers stored as a bit vector.
use vstd::prelude::*;
use crate::bits::{
    limb_bit, wbit, lemma_word_ops_bit, lemma_single_bit, lemma_zero_bit, lemma_word_zero_iff,
    lemma_word_misc, lemma_usize_div64, lemma_word_ext, lemma_limbs_ext, limbs_value, limbs_cap,
    lemma_limbs_value_cap, lemma_limbs_value_injective,
};

verus! {

broadcast use vstd::std_specs::bits::axiom_u64_trailing_zeros;

/// A set of integers below a capacity `l`, one bit per possible member.
#[derive(Debug, Hash)]
pub struct BitSet {
    l: usize,
    v: Vec<u64>,
}

/// `k` occurs in `v`.
pub open spec fn listed(v: Seq<usize>, k: int) -> bool {
    exists|j: int| 0 <= j < v.len() && v[j] == k
}

/// A set whose members are the numbers listed in `v` (as `from_vec` makes
/// it) holds `i` exactly when `v` lists it; after `i` is inserted into a set,
/// the set holds `i` and everything it held before.
pub proof fn law_bitset_members(v: Seq<usize>, b: BitSet, c: BitSet, i: usize)
    requires
        forall|k: int| #[trigger] b.has(k) == listed(v, k),
        forall|k: int| #[trigger] c.has(k) == (b.has(k) || k == i),
    ensures
        b.has(i as int) <==> v.contains(i),
        c.has(i as int),
        forall|k: int| b.has(k) ==> #[trigger] c.has(k),
{
    if v.contains(i) {
        let j = choose|j: int| 0 <= j < v.len() && v[j] == i;
        assert(listed(v, i as int));
    }
    if b.has(i as int) {
        let j = choose|j: int| 0 <= j < v.len() && v[j] == i;
        assert(v[j] == i);
    }
}

/// The FNV-1a fold of the words, starting from the offset basis.
pub open spec fn fnv_fold(ws: Seq<u64>) -> u64
    decreases ws.len(),
{
    if ws.len() == 0 {
        0xcbf29ce484222325u64
    } else {
        vstd::wrapping::u64_specs::wrapping_mul(fnv_fold(ws.drop_last()) ^ ws.last(), 0x100000001b3u64)
    }
}

/// The digest of the words: the fold with its high half mixed into its low half.
pub open spec fn fnv_digest(ws: Seq<u64>) -> u64 {
    fnv_fold(ws) ^ (fnv_fold(ws) >> 32u64)
}

impl BitSet {
    /// The capacity the set was made with.
    pub closed spec fn capacity(&self) -> nat {
        self.l as nat
    }

    /// The words holding the bits, least significant first.
    pub closed spec fn words(&self) -> Seq<u64> {
        self.v@
    }

    /// `i` is a member of the set.
    pub open spec fn has(&self, i: int) -> bool {
        limb_bit(self.words(), i)
    }

    /// The words are exactly enough for the capacity.
    pub closed spec fn wf(&self) -> bool {
        &&& self.l + 63 <= usize::MAX
        &&& self.v@.len() == (self.l + 63) / 64
    }

    /// The FNV digest of the words that hashing a set writes: equal sets of
    /// equal capacity give equal digests.
    pub fn hash_value(&self) -> (h: u64)
        ensures
            h == fnv_digest(self.words()),
    {
        let mut h: u64 = 0xcbf29ce484222325; // FNV offset basis
        let mut i: usize = 0;
        while i < self.v.len()
            invariant
                i <= self.v@.len(),
                h == fnv_fold(self.v@.take(i as int)),
            decreases self.v@.len() - i,
        {
            assert(self.v@.take(i + 1).drop_last() =~= self.v@.take(i as int));
            h = h ^ self.v[i];
            h = h.wrapping_mul(0x100000001b3); // FNV prime
            i = i + 1;
        }
        assert(self.v@.take(self.v@.len() as int) =~= self.v@);
        // Final mix
        h ^ (h >> 32)
    }

    /// Every member lies below `64` times the number of words.
    pub proof fn lemma_word_bound(&self)
        requires
            self.wf(),
        ensures
            self.capacity() <= 64 * self.words().len(),
            64 * self.words().len() <= usize::MAX,
    {
    }

    /// Whether `i` is a member.
    pub fn contains(&self, i: usize) -> (r: bool)
        requires
            self.wf(),
            i < self.capacity(),
        ensures
            r == self.has(i as int),
    {
        let i1 = i >> 6;  // i1 = i / 64
        let i2 = i & 63;
        proof {
            lemma_usize_div64(i);
        }
        let i2_mask = 1u64 << (i2 as u64);
        let r = self.v[i1] & i2_mask != 0;
        proof {
            let w = self.v@[i1 as int];
            let b = i2 as u64;
            lemma_word_misc(w, 0, b);
        }
        r
    }

    /// Adds `i`; returns whether it was a member before.
    pub fn insert(&mut self, i: usize) -> (r: bool)
        requires
            old(self).wf(),
            i < old(self).capacity(),
        ensures
            final(self).wf(),
            final(self).capacity() == old(self).capacity(),
            final(self).words().len() == old(self).words().len(),
            r == old(self).has(i as int),
            forall|k: int| #[trigger] final(self).has(k) == (old(self).has(k) || k == i),
    {
        let i1 = i >> 6;  // i1 = i / 64
        let i2 = i & 63;
        proof {
            lemma_usize_div64(i);
        }
        let i2_mask = 1u64 << (i2 as u64);

        let o = self.v[i1] & i2_mask != 0;
        let ghost old_v = self.v@;

        self.v[i1] = self.v[i1] | i2_mask;
        proof {
            let w = old_v[i1 as int];
            let b = i2 as u64;
            lemma_word_misc(w, 0, b);
            assert forall|k: int| #[trigger] self.has(k) == (old(self).has(k) || k == i) by {
                if 0 <= k < 64 * old_v.len() && k / 64 == i1 as int {
                    lemma_word_ops_bit(w, i2_mask, (k % 64) as u64);
                    lemma_single_bit(b, (k % 64) as u64);
                }
            }
        }
        o
    }

    /// The set of the given members, with capacity `l`.
    pub fn from_vec(v: &[usize], l: usize) -> (bs: Self)
        requires
            l + 63 <= usize::MAX,
            forall|j: int| 0 <= j < v@.len() ==> v@[j] < l,
        ensures
            bs.wf(),
            bs.capacity() == l,
            bs.words().len() == (l + 63) / 64,
            forall|k: int| #[trigger] bs.has(k) == listed(v@, k),
    {
        let wl = (l + 63) / 64;

        let mut bs = BitSet { l, v: vec_of_zeros(wl) };
        proof {
            assert forall|k: int| #[trigger] bs.has(k) == false by {
                if 0 <= k < 64 * wl {
                    lemma_zero_bit((k % 64) as u64);
                }
            }
        }

        for idx in 0..v.len()
            invariant
                bs.wf(),
                bs.l == l,
                forall|j: int| 0 <= j < v@.len() ==> v@[j] < l,
                forall|k: int| #[trigger] bs.has(k) == exists|j: int| 0 <= j < idx && #[trigger] v@[j] == k,
        {
            let i = v[idx];
            let ghost before = bs;
            bs.insert(i);
            proof {
                assert forall|k: int| #[trigger] bs.has(k) == exists|j: int| 0 <= j < idx + 1 && #[trigger] v@[j] == k by {
                    if exists|j: int| 0 <= j < idx + 1 && #[trigger] v@[j] == k {
                        let j = choose|j: int| 0 <= j < idx + 1 && #[trigger] v@[j] == k;
                        if j < idx {
                            assert(before.has(k));
                        }
                    }
                    if k == i {
                        assert(v@[idx as int] == k);
                    }
                }
            }
        }
        bs
    }

    /// The empty set with capacity `l`.
    pub fn with_capacity(l: usize) -> (bs: Self)
        requires
            l + 63 <= usize::MAX,
        ensures
            bs.wf(),
            bs.capacity() == l,
            bs.words().len() == (l + 63) / 64,
            forall|k: int| !#[trigger] bs.has(k),
    {
        let wl = (l + 63) / 64;

        let bs = BitSet { l, v: vec_of_zeros(wl) };
        proof {
            assert forall|k: int| !#[trigger] bs.has(k) by {
                if 0 <= k < 64 * wl {
                    lemma_zero_bit((k % 64) as u64);
                }
            }
        }
        bs
    }

    /// Adds every element of `v`.
    pub fn extend(&mut self, v: &[usize])
        requires
            old(self).wf(),
            forall|j: int| 0 <= j < v@.len() ==> v@[j] < 64 * old(self).words().len(),
        ensures
            final(self).wf(),
            final(self).capacity() == old(self).capacity(),
            final(self).words().len() == old(self).words().len(),
            forall|k: int| #[trigger] final(self).has(k) == (old(self).has(k) || listed(v@, k)),
    {
        for idx in 0..v.len()
            invariant
                self.wf(),
                self.l == old(self).l,
                self.v@.len() == old(self).v@.len(),
                forall|j: int| 0 <= j < v@.len() ==> v@[j] < 64 * old(self).words().len(),
                forall|k: int| #[trigger] self.has(k) == (old(self).has(k) || exists|j: int| 0 <= j < idx && #[trigger] v@[j] == k),
        {
            let i = v[idx];
            let ghost old_v = self.v@;
            let ghost before = *self;
            let i1 = i >> 6;
            let i2 = i & 63;
            proof {
                lemma_usize_div64(i);
            }
            let mask = 1u64 << (i2 as u64);
            self.v[i1] = self.v[i1] | mask;
            proof {
                let w = old_v[i1 as int];
                assert forall|k: int| #[trigger] self.has(k) == (old(self).has(k) || exists|j: int| 0 <= j < idx + 1 && #[trigger] v@[j] == k) by {
                    if 0 <= k < 64 * old_v.len() && k / 64 == i1 as int {
                        lemma_word_ops_bit(w, mask, (k % 64) as u64);
                        lemma_single_bit(i2 as u64, (k % 64) as u64);
                    }
                    assert(before.has(k) == limb_bit(old_v, k));
                    if exists|j: int| 0 <= j < idx + 1 && #[trigger] v@[j] == k {
                        let j = choose|j: int| 0 <= j < idx + 1 && #[trigger] v@[j] == k;
                        if j < idx {
                            assert(before.has(k));
                        }
                    }
                    if k == i {
                        assert(v@[idx as int] == k);
                    }
                }
            }
        }
    }

    /// Whether the set has no member.
    pub fn is_empty(&self) -> (r: bool)
        ensures
            r == forall|k: int| !#[trigger] self.has(k),
    {
        let mut i: usize = 0;
        while i < self.v.len()
            invariant
                i <= self.v@.len(),
                forall|j: int| 0 <= j < i ==> self.v@[j] == 0u64,
            decreases self.v@.len() - i,
        {
            if self.v[i] != 0 {
                proof {
                    let w = self.v@[i as int];
                    lemma_word_zero_iff(w);
                    let b = choose|b: u64| b < 64 && wbit(w, b);
                    let k = 64 * i + b;
                    assert(k / 64 == i && k % 64 == b);
                    assert(self.has(k));
                }
                return false;
            }
            i = i + 1;
        }
        proof {
            assert forall|k: int| !#[trigger] self.has(k) by {
                if 0 <= k < 64 * self.v@.len() {
                    lemma_zero_bit((k % 64) as u64);
                }
            }
        }
        true
    }

    /// Removes every member.
    pub fn clear(&mut self)
        requires
            old(self).wf(),
        ensures
            final(self).wf(),
            final(self).capacity() == old(self).capacity(),
            final(self).words().len() == old(self).words().len(),
            forall|k: int| !#[trigger] final(self).has(k),
    {
        let n = self.v.len();
        for i in 0..n
            invariant
                n == self.v@.len(),
                self.l == old(self).l,
                self.v@.len() == old(self).v@.len(),
                forall|j: int| 0 <= j < i ==> self.v@[j] == 0u64,
        {
            self.v.set(i, 0);
        }
        proof {
            assert forall|k: int| !#[trigger] self.has(k) by {
                if 0 <= k < 64 * self.v@.len() {
                    lemma_zero_bit((k % 64) as u64);
                }
            }
        }
    }

    /// Adds every member of `other` that lies within this set's words.
    pub fn or_inplace(&mut self, other: &BitSet)
        requires
            old(self).wf(),
        ensures
            final(self).wf(),
            final(self).capacity() == old(self).capacity(),
            final(self).words().len() == old(self).words().len(),
            forall|k: int| #[trigger] final(self).has(k) == (old(self).has(k) || (k < 64 * old(self).words().len() && other.has(k))),
    {
        let n = if self.v.len() < other.v.len() {
            self.v.len()
        } else {
            other.v.len()
        };
        for i in 0..n
            invariant
                n <= self.v@.len(),
                n <= other.v@.len(),
                self.l == old(self).l,
                self.v@.len() == old(self).v@.len(),
                forall|j: int| 0 <= j < i ==> #[trigger] self.v@[j] == old(self).v@[j] | other.v@[j],
                forall|j: int| i <= j < self.v@.len() ==> #[trigger] self.v@[j] == old(self).v@[j],
        {
            let w = self.v[i] | other.v[i];
            self.v.set(i, w);
        }
        proof {
            assert forall|k: int| #[trigger] self.has(k) == (old(self).has(k) || (k < 64 * old(self).words().len() && other.has(k))) by {
                if 0 <= k < 64 * self.v@.len() {
                    let i = k / 64;
                    if i < n {
                        lemma_word_ops_bit(old(self).v@[i], other.v@[i], (k % 64) as u64);
                    } else {
                        assert(self.v@[i] == old(self).v@[i]);
                        assert(i >= other.v@.len());
                    }
                }
            }
        }
    }

    /// An iterator over the members in increasing order.
    pub fn iter(&self) -> (it: BitSetIter<'_>)
        requires
            self.wf(),
        ensures
            it.wf(),
            it.set() == *self,
            forall|k: int| #[trigger] it.pending(k) == self.has(k),
    {
        let it = BitSetIter {
            bitset: self,
            word_index: 0,
            current_word: if self.v.len() > 0 {
                self.v[0]
            } else {
                0
            },
            base_index: 0,
        };
        proof {
            assert forall|k: int| #[trigger] it.pending(k) == self.has(k) by {
            }
        }
        it
    }
}

impl Clone for BitSet {
    /// The same set, with the same capacity.
    fn clone(&self) -> (r: Self)
        ensures
            r.capacity() == self.capacity(),
            r.words() == self.words(),
            self.wf() ==> r.wf(),
    {
        let v = self.v.clone();
        assert(v@ =~= self.v@);
        BitSet { l: self.l, v }
    }
}

impl PartialEq for BitSet {
    /// Same capacity and same members.
    fn eq(&self, other: &Self) -> (r: bool) {
        if self.l != other.l || self.v.len() != other.v.len() {
            return false;
        }
        let mut i: usize = 0;
        while i < self.v.len()
            invariant
                i <= self.v@.len(),
                self.v@.len() == other.v@.len(),
                forall|j: int| 0 <= j < i ==> self.v@[j] == other.v@[j],
            decreases self.v@.len() - i,
        {
            if self.v[i] != other.v[i] {
                return false;
            }
            i = i + 1;
        }
        assert(self.v@ =~= other.v@);
        true
    }
}

impl vstd::std_specs::cmp::PartialEqSpecImpl for BitSet {
    open spec fn obeys_eq_spec() -> bool {
        true
    }

    open spec fn eq_spec(&self, other: &Self) -> bool {
        self.capacity() == other.capacity() && self.words() == other.words()
    }
}

impl Eq for BitSet {
}

impl BitSet {
    /// Whether the two sets have no member in common.
    pub fn is_disjoint(&self, other: &BitSet) -> (r: bool)
        requires
            self.wf(),
            other.wf(),
        ensures
            r == forall|k: int| !(#[trigger] self.has(k) && other.has(k)),
    {
        let n = if self.v.len() < other.v.len() {
            self.v.len()
        } else {
            other.v.len()
        };
        let mut i: usize = 0;
        while i < n
            invariant
                n <= self.v@.len(),
                n <= other.v@.len(),
                n == self.v@.len() || n == other.v@.len(),
                i <= n,
                forall|k: int| 0 <= k < 64 * i ==> !(#[trigger] self.has(k) && other.has(k)),
            decreases n - i,
        {
            let w = self.v[i] & other.v[i];
            if w != 0 {
                proof {
                    lemma_word_zero_iff(w);
                    let b = choose|b: u64| b < 64 && wbit(w, b);
                    lemma_word_ops_bit(self.v@[i as int], other.v@[i as int], b);
                    let k = 64 * i + b;
                    assert(k / 64 == i && k % 64 == b);
                    assert(self.has(k) && other.has(k));
                }
                return false;
            }
            proof {
                assert forall|k: int| 0 <= k < 64 * (i + 1) implies !(#[trigger] self.has(k) && other.has(k)) by {
                    if k >= 64 * i {
                        let b = (k % 64) as u64;
                        assert(k / 64 == i);
                        lemma_word_ops_bit(self.v@[i as int], other.v@[i as int], b);
                        lemma_zero_bit(b);
                    }
                }
            }
            i = i + 1;
        }
        true
    }

    /// Two sets of the same capacity with the same members.
    pub fn same_members(&self, other: &BitSet) -> (r: bool)
        requires
            self.wf(),
            other.wf(),
            self.capacity() == other.capacity(),
        ensures
            r == (forall|k: int| #[trigger] self.has(k) == other.has(k)),
    {
        let mut i: usize = 0;
        while i < self.v.len()
            invariant
                self.wf(),
                other.wf(),
                self.l == other.l,
                i <= self.v@.len(),
                forall|j: int| 0 <= j < i ==> self.v@[j] == other.v@[j],
            decreases self.v@.len() - i,
        {
            if self.v[i] != other.v[i] {
                proof {
                    let x = self.v@[i as int];
                    let y = other.v@[i as int];
                    if forall|b: u64| b < 64 ==> #[trigger] wbit(x, b) == wbit(y, b) {
                        lemma_word_ext(x, y);
                    }
                    let b = choose|b: u64| b < 64 && #[trigger] wbit(x, b) != wbit(y, b);
                    let k = 64 * i + b;
                    assert(k / 64 == i && k % 64 == b);
                    assert(self.has(k) != other.has(k));
                }
                return false;
            }
            i = i + 1;
        }
        proof {
            assert(self.v@ =~= other.v@);
        }
        true
    }

    /// The members in increasing order.
    pub fn to_vec(&self) -> (r: Vec<usize>)
        requires
            self.wf(),
        ensures
            forall|i: int, j: int| 0 <= i < j < r@.len() ==> #[trigger] r@[i] < #[trigger] r@[j],
            forall|k: usize| #[trigger] self.has(k as int) <==> r@.contains(k),
    {
        proof {
            self.lemma_word_bound();
        }
        let bound = 64 * self.v.len();
        let mut it = self.iter();
        let mut out: Vec<usize> = Vec::new();
        let mut count: usize = 0;
        let mut done = false;
        while !done && count < bound
            invariant
                it.wf(),
                it.set() == *self,
                self.wf(),
                bound == 64 * self.words().len(),
                count == out@.len(),
                count <= bound,
                done ==> forall|k: int| !#[trigger] it.pending(k),
                forall|i: int, j: int| 0 <= i < j < out@.len() ==> #[trigger] out@[i] < #[trigger] out@[j],
                out@.len() > 0 ==> out@.last() >= count - 1,
                forall|k: int| #[trigger] it.pending(k) ==> out@.len() == 0 || k > out@.last(),
                forall|k: usize| #[trigger] self.has(k as int) <==> (it.pending(k as int) || out@.contains(k)),
            decreases bound - count + (if done {
                0int
            } else {
                1int
            }),
        {
            let ghost before = it;
            match it.next() {
                None => {
                    done = true;
                },
                Some(m) => {
                    let ghost prev = out@;
                    out.push(m);
                    proof {
                        assert forall|i: int, j: int| 0 <= i < j < out@.len() implies #[trigger] out@[i] < #[trigger] out@[j] by {
                            if j == out@.len() - 1 && i < prev.len() {
                                assert(before.pending(m as int));
                            }
                        }
                        assert forall|k: usize| #[trigger] self.has(k as int) <==> (it.pending(k as int) || out@.contains(k)) by {
                            crate::fa::lemma_push_contains(prev, m, k);
                        }
                    }
                    count = count + 1;
                },
            }
        }
        proof {
            assert forall|k: int| !#[trigger] it.pending(k) by {
                it.lemma_pending_bound(k);
            }
        }
        out
    }
}

/// `a` and `b` have the same members.
pub open spec fn same_set(a: BitSet, b: BitSet) -> bool {
    forall|k: int| #[trigger] a.has(k) == b.has(k)
}

/// Sets of one capacity with pairwise different members are no more than
/// the number of values their words can take.
pub proof fn lemma_distinct_sets_bound(s: Seq<BitSet>, l: usize)
    requires
        forall|i: int| 0 <= i < s.len() ==> (#[trigger] s[i]).wf() && s[i].capacity() == l,
        forall|i: int, j: int| 0 <= i < j < s.len() ==> !same_set(#[trigger] s[i], #[trigger] s[j]),
    ensures
        s.len() <= limbs_cap(((l + 63) / 64) as nat),
{
    broadcast use vstd::seq_lib::seq_to_set_is_finite;

    let cap = limbs_cap(((l + 63) / 64) as nat) as int;
    let vals = s.map_values(|b: BitSet| limbs_value(b.words()) as int);
    assert(vals.no_duplicates()) by {
        assert forall|i: int, j: int| 0 <= i < vals.len() && 0 <= j < vals.len() && i != j implies vals[i] != vals[j] by {
            if vals[i] == vals[j] {
                lemma_limbs_value_injective(s[i].words(), s[j].words());
                if i < j {
                    assert(same_set(s[i], s[j]));
                } else {
                    assert(same_set(s[j], s[i]));
                }
            }
        }
    }
    vals.unique_seq_to_set();
    assert forall|v: int| vals.to_set().contains(v) implies vstd::set_lib::set_int_range(0, cap).contains(v) by {
        let i = choose|i: int| 0 <= i < vals.len() && vals[i] == v;
        lemma_limbs_value_cap(s[i].words());
    }
    vstd::set_lib::lemma_int_range(0, cap);
    vstd::set_lib::lemma_len_subset(vals.to_set(), vstd::set_lib::set_int_range(0, cap));
}

/// A vector of `n` zero words.
fn vec_of_zeros(n: usize) -> (v: Vec<u64>)
    ensures
        v@.len() == n,
        forall|j: int| 0 <= j < n ==> v@[j] == 0u64,
{
    let mut v: Vec<u64> = Vec::new();
    for i in 0..n
        invariant
            v@.len() == i,
            forall|j: int| 0 <= j < i ==> v@[j] == 0u64,
    {
        v.push(0);
    }
    v
}

/// Walks the members of a `BitSet` in increasing order.
pub struct BitSetIter<'a> {
    bitset: &'a BitSet,
    word_index: usize,
    current_word: u64,
    base_index: usize,
}

impl<'a> BitSetIter<'a> {
    /// The set being walked.
    pub closed spec fn set(&self) -> BitSet {
        *self.bitset
    }

    /// `k` is a member that the iterator has not handed out yet.
    pub closed spec fn pending(&self, k: int) -> bool {
        let wi = self.word_index as int;
        let words = self.bitset.v@;
        0 <= k < 64 * words.len() && if k / 64 == wi {
            wbit(self.current_word, (k % 64) as u64)
        } else {
            k / 64 > wi && self.bitset.has(k)
        }
    }

    /// The iterator's position agrees with its set.
    pub closed spec fn wf(&self) -> bool {
        &&& self.bitset.wf()
        &&& self.word_index <= self.bitset.v@.len()
        &&& self.word_index < self.bitset.v@.len() ==> self.base_index == 64 * self.word_index
    }

    /// Only positions within the words can be pending.
    pub proof fn lemma_pending_bound(&self, k: int)
        requires
            self.wf(),
        ensures
            self.pending(k) ==> 0 <= k < 64 * self.set().words().len(),
    {
    }

    /// The next member in increasing order, or `None` when all were handed out.
    pub fn next(&mut self) -> (r: Option<usize>)
        requires
            old(self).wf(),
        ensures
            final(self).wf(),
            final(self).set() == old(self).set(),
            match r {
                None => forall|k: int| !#[trigger] old(self).pending(k) && !final(self).pending(k),
                Some(m) => {
                    &&& old(self).pending(m as int)
                    &&& forall|k: int| k < m ==> !#[trigger] old(self).pending(k)
                    &&& forall|k: int| #[trigger] final(self).pending(k) == (old(self).pending(k) && k != m)
                },
            },
    {
        proof {
            self.bitset.lemma_word_bound();
        }
        while self.word_index < self.bitset.v.len()
            invariant
                self.wf(),
                self.bitset == old(self).bitset,
                forall|k: int| k < 64 * self.word_index ==> !#[trigger] self.pending(k),
                forall|k: int| #[trigger] self.pending(k) == old(self).pending(k),
                64 * self.bitset.v@.len() <= usize::MAX,
            decreases self.bitset.v@.len() - self.word_index,
        {
            if self.current_word != 0 {
                let tz = self.current_word.trailing_zeros() as usize;
                let ghost before = *self;
                let w = self.current_word;
                let cleared = w & !(1u64 << (tz as u64));
                self.current_word = cleared;
                let m = self.base_index + tz;
                proof {
                    let wi = self.word_index as int;
                    assert(m / 64 == wi && m % 64 == tz);
                    assert((w >> (tz as u64)) & 1u64 == 1u64);
                    assert(before.pending(m as int));
                    assert forall|k: int| k < m implies !#[trigger] old(self).pending(k) by {
                        assert(before.pending(k) == old(self).pending(k));
                        if k >= 64 * wi {
                            assert(k / 64 == wi);
                            let b = (k % 64) as u64;
                            assert(b < tz);
                            assert((w >> b) & 1u64 == 0u64);
                        }
                    }
                    assert forall|k: int| #[trigger] self.pending(k) == (old(self).pending(k) && k != m) by {
                        assert(before.pending(k) == old(self).pending(k));
                        if 0 <= k < 64 * self.bitset.v@.len() && k / 64 == wi {
                            let b = (k % 64) as u64;
                            let t = tz as u64;
                            assert(wbit(w & !(1u64 << t), b) == (wbit(w, b) && b != t)) by {
                                lemma_word_ops_bit(w, !(1u64 << t), b);
                                lemma_word_ops_bit(1u64 << t, 0u64, b);
                                lemma_single_bit(t, b);
                            }
                        }
                    }
                }
                return Some(m);
            } else {
                let ghost before = *self;
                proof {
                    lemma_word_zero_iff(self.current_word);
                }
                self.word_index += 1;
                if self.word_index < self.bitset.v.len() {
                    self.current_word = self.bitset.v[self.word_index];
                    self.base_index = self.word_index * 64;
                }
                proof {
                    assert forall|k: int| k < 64 * self.word_index implies !#[trigger] self.pending(k) by {
                        if 0 <= k && k / 64 == before.word_index {
                            assert(!wbit(before.current_word, (k % 64) as u64));
                        }
                        assert(!before.pending(k));
                    }
                    assert forall|k: int| #[trigger] self.pending(k) == old(self).pending(k) by {
                        assert(before.pending(k) == old(self).pending(k));
                        if 0 <= k && k / 64 == before.word_index {
                            assert(!wbit(before.current_word, (k % 64) as u64));
                        }
                    }
                }
            }
        }
        proof {
            assert forall|k: int| !#[trigger] old(self).pending(k) by {
                assert(self.pending(k) == old(self).pending(k));
            }
        }
        None
    }
}

} // verus!
