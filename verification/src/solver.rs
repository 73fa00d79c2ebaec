//! Automata for the rows that a cellular automaton rule can produce: the de
//! Bruijn automaton of a rule, one step of a rule applied to an automaton, and
//! the solver state that holds the current automaton.
use vstd::prelude::*;
use crate::fa::{FA, Edge, Walk, parts_valid, positions, walk_tree, walk_views, expand, extend_walk, captures};
use crate::rules::{bits, rotated_bit};

verus! {

/// The neighbourhood read by the edge of the de Bruijn automaton that leaves
/// node `i` with letter `x`: the `k` bits of `i`, highest first, then `x`.
pub open spec fn debruijn_window(i: usize, k: nat, x: usize) -> Seq<usize> {
    Seq::new(k, |j: int| rotated_bit(i, k - 1 - j)).push(x)
}

/// Shifting a `k`-bit node left by one and adding a bit, kept to `k` bits.
pub proof fn lemma_shift_in(i: usize, x: usize, k: usize, c: usize, m: usize)
    requires
        k + 1 < usize::BITS,
        c == 1usize << k,
        m == (c - 1) as usize,
        i < c,
        x <= 1,
    ensures
        m & ((i << 1usize) | x) == (2 * i + x) % (c as int),
        c > 0,
{
    assert(m & ((i << 1usize) | x) == (2 * i + x) % (c as int) && c > 0) by (bit_vector)
        requires
            k + 1 < usize::BITS,
            c == 1usize << k,
            m == (c - 1) as usize,
            i < c,
            x <= 1,
    ;
}

/// Edge `j` of the de Bruijn automaton of `rule` on nodes of `k` bits: it leaves
/// node `j / 2` reading the cell `j % 2`, goes to node `j mod 2^k` and captures
/// a value that the rule gives for the neighbourhood read.
pub open spec fn debruijn_edge<F: Fn(Vec<usize>) -> usize>(rule: F, e: Edge, j: int, k: nat, nodes: int) -> bool {
    &&& e.0 == j / 2
    &&& e.1 < 2
    &&& e.2 == j % nodes
    &&& exists|w: Vec<usize>|
        #[trigger] rule.ensures((w,), e.1) && w@ == debruijn_window((j / 2) as usize, k, (j % 2) as usize)
}

/// The walks of `k` steps from the nodes of `q`, node after node.
pub open spec fn walks_from(t: Seq<Edge>, sigma: usize, q: Seq<usize>, k: nat) -> Seq<(Seq<usize>, Seq<usize>)>
    decreases q.len(),
{
    if q.len() == 0 {
        Seq::empty()
    } else {
        walks_from(t, sigma, q.drop_last(), k) + walk_tree(t, sigma, (Seq::empty(), seq![q.last()]), k)
    }
}

/// Walk `b` goes on from walk `a`: the nodes of `a` after its first are the
/// first nodes of `b`.
pub open spec fn walks_overlap(a: (Seq<usize>, Seq<usize>), b: (Seq<usize>, Seq<usize>), k: nat) -> bool {
    a.1.subrange(1, (k + 1) as int) == b.1.subrange(0, k as int)
}

/// Every walk in `expand(ps)` is one step longer than the walks of `ps`.
pub proof fn lemma_expand_lengths(t: Seq<Edge>, sigma: usize, ps: Seq<(Seq<usize>, Seq<usize>)>, a: nat, b: nat)
    requires
        forall|i: int| 0 <= i < ps.len() ==> (#[trigger] ps[i]).0.len() == a && ps[i].1.len() == b,
    ensures
        forall|i: int| 0 <= i < expand(t, sigma, ps).len() ==> (#[trigger] expand(t, sigma, ps)[i]).0.len() == a + 1
            && expand(t, sigma, ps)[i].1.len() == b + 1,
    decreases ps.len(),
{
    if ps.len() > 0 {
        lemma_expand_lengths(t, sigma, ps.drop_last(), a, b);
        let x = expand(t, sigma, ps.drop_last());
        let y = extend_walk(t, sigma, ps.last());
        assert(ps.last() == ps[ps.len() - 1]);
        assert forall|i: int| 0 <= i < (x + y).len() implies (#[trigger] (x + y)[i]).0.len() == a + 1 && (x + y)[i].1.len() == b + 1 by {
            if i >= x.len() {
                assert((x + y)[i] == y[i - x.len()]);
            } else {
                assert((x + y)[i] == x[i]);
            }
        }
    }
}

/// The walks of `k` steps from one node read `k` letters and visit `k + 1` nodes.
pub proof fn lemma_walk_tree_lengths(t: Seq<Edge>, sigma: usize, n: usize, k: nat)
    ensures
        forall|i: int| 0 <= i < walk_tree(t, sigma, (Seq::empty(), seq![n]), k).len() ==> (#[trigger] walk_tree(
            t,
            sigma,
            (Seq::empty(), seq![n]),
            k,
        )[i]).0.len() == k && walk_tree(t, sigma, (Seq::empty(), seq![n]), k)[i].1.len() == k + 1,
    decreases k,
{
    if k > 0 {
        lemma_walk_tree_lengths(t, sigma, n, (k - 1) as nat);
        lemma_expand_lengths(t, sigma, walk_tree(t, sigma, (Seq::empty(), seq![n]), (k - 1) as nat), (k - 1) as nat, k);
    }
}

/// The walks of `k` steps from the nodes of `q` read `k` letters and visit `k + 1` nodes.
pub proof fn lemma_walks_from_lengths(t: Seq<Edge>, sigma: usize, q: Seq<usize>, k: nat)
    ensures
        forall|i: int| 0 <= i < walks_from(t, sigma, q, k).len() ==> (#[trigger] walks_from(t, sigma, q, k)[i]).0.len() == k
            && walks_from(t, sigma, q, k)[i].1.len() == k + 1,
    decreases q.len(),
{
    if q.len() > 0 {
        lemma_walks_from_lengths(t, sigma, q.drop_last(), k);
        lemma_walk_tree_lengths(t, sigma, q.last(), k);
        let x = walks_from(t, sigma, q.drop_last(), k);
        let y = walk_tree(t, sigma, (Seq::empty(), seq![q.last()]), k);
        assert forall|i: int| 0 <= i < (x + y).len() implies (#[trigger] (x + y)[i]).0.len() == k && (x + y)[i].1.len() == k + 1 by {
            if i >= x.len() {
                assert((x + y)[i] == y[i - x.len()]);
            } else {
                assert((x + y)[i] == x[i]);
            }
        }
    }
}

/// Whether `a[1..k + 1]` equals `b[..k]`.
fn shifted_eq(a: &Vec<usize>, b: &Vec<usize>, k: usize) -> (r: bool)
    requires
        a@.len() == k + 1,
        b@.len() == k + 1,
    ensures
        r == (a@.subrange(1, (k + 1) as int) == b@.subrange(0, k as int)),
{
    let mut i: usize = 0;
    while i < k
        invariant
            a@.len() == k + 1,
            b@.len() == k + 1,
            i <= k,
            forall|j: int| 0 <= j < i ==> a@[j + 1] == b@[j],
        decreases k - i,
    {
        if a[i + 1] != b[i] {
            proof {
                assert(a@.subrange(1, k + 1)[i as int] != b@.subrange(0, k as int)[i as int]);
            }
            return false;
        }
        i = i + 1;
    }
    assert(a@.subrange(1, k + 1) =~= b@.subrange(0, k as int));
    true
}


/// `r` is the de Bruijn automaton of `rule` on `neighbors` cells: node `i`
/// stands for the last `neighbors - 1` cells read, as the bits of `i`; reading
/// the next cell `x` leads to node `(2 i + x) mod 2^(neighbors - 1)` and captures
/// what the rule makes of the whole neighbourhood. Node 0 starts and halts.
pub open spec fn is_debruijn<F: Fn(Vec<usize>) -> usize>(rule: F, neighbors: usize, r: FA) -> bool {
    let k = (neighbors - 1) as usize;
    let nodes = (1usize << k) as nat;
    &&& r.wf()
    &&& r.q@ == positions(nodes)
    &&& r.sigma == 2
    &&& r.q0 == 0
    &&& r.f@ == seq![0usize]
    &&& r.t@.len() == 2 * nodes
    &&& forall|j: int| 0 <= j < r.t@.len() ==> #[trigger] debruijn_edge(rule, r.t@[j], j, k as nat, nodes as int)
}

/// `r` with the walks `ws` is one step of `rule` on `fa`: its nodes are the
/// walks of `neighbors - 1` steps from each node of `fa` in turn; its edges
/// join exactly the walks where the second goes on from the first, once for
/// each such pair, ordered by the first walk and then the second, each
/// capturing what the rule makes of the letters of the first followed by the
/// last letter of the second; the first walk starts, and the walks that end
/// in a halting node halt, in order.
pub open spec fn is_step<F: Fn(Vec<usize>) -> usize>(fa: FA, neighbors: usize, rule: F, r: FA, ws: Seq<Walk>) -> bool {
    let k = (neighbors - 1) as nat;
    let v = walks_from(fa.t@, fa.sigma, fa.q@, k);
    &&& r.wf()
    &&& walk_views(ws) == v
    &&& r.q@ == positions(v.len())
    &&& r.sigma == 2
    &&& r.q0 == 0
    &&& forall|j: int| 0 <= j < r.t@.len() ==> {
        let e = #[trigger] r.t@[j];
        &&& e.0 < v.len() && e.2 < v.len()
        &&& walks_overlap(v[e.0 as int], v[e.2 as int], k)
        &&& exists|w: Vec<usize>| #[trigger] rule.ensures((w,), e.1) && w@ == v[e.0 as int].0.push(v[e.2 as int].0.last())
    }
    &&& forall|a: int, b: int|
        0 <= a < v.len() && 0 <= b < v.len() && #[trigger] walks_overlap(v[a], v[b], k) ==> exists|j: int|
            0 <= j < r.t@.len() && (#[trigger] r.t@[j]).0 == a && r.t@[j].2 == b
    &&& forall|i: int, j: int| 0 <= i < j < r.t@.len() ==> #[trigger] edge_before(r.t@[i], r.t@[j])
    &&& forall|i: int, j: int| 0 <= i < j < r.f@.len() ==> #[trigger] r.f@[i] < #[trigger] r.f@[j]
    &&& forall|a: usize| #[trigger] r.f@.contains(a) <==> a < v.len() && fa.f@.contains(v[a as int].1.last())
}

/// Edge `d` comes before edge `e`: by its start, then by its end.
pub open spec fn edge_before(d: Edge, e: Edge) -> bool {
    d.0 < e.0 || (d.0 == e.0 && d.2 < e.2)
}

/// `v` is a neighbourhood of `len` cells, each below `sigma`.
pub open spec fn cells_in(v: Seq<usize>, len: nat, sigma: nat) -> bool {
    &&& v.len() == len
    &&& forall|i: int| 0 <= i < v.len() ==> #[trigger] v[i] < sigma
}

/// `rule` can be applied to every neighbourhood of `len` cells, each below
/// `sigma`, and gives 0 or 1 there.
pub open spec fn rule_ok<F: Fn(Vec<usize>) -> usize>(rule: F, len: nat, sigma: nat) -> bool {
    &&& forall|v: Vec<usize>| cells_in(v@, len, sigma) ==> #[trigger] rule.requires((v,))
    &&& forall|v: Vec<usize>, o: usize| cells_in(v@, len, sigma) && #[trigger] rule.ensures((v,), o) ==> o < 2
}

/// The letters of the walks `ws` are below `sigma`.
pub open spec fn letters_below(ws: Seq<(Seq<usize>, Seq<usize>)>, sigma: usize) -> bool {
    forall|i: int, j: int| 0 <= i < ws.len() && 0 <= j < ws[i].0.len() ==> #[trigger] ws[i].0[j] < sigma
}

/// A step along the edges reads a letter below `sigma`.
proof fn lemma_extend_letters(t: Seq<Edge>, sigma: usize, p: (Seq<usize>, Seq<usize>))
    requires
        forall|j: int| 0 <= j < p.0.len() ==> #[trigger] p.0[j] < sigma,
    ensures
        letters_below(extend_walk(t, sigma, p), sigma),
{
    let ws = extend_walk(t, sigma, p);
    assert forall|i: int, j: int| 0 <= i < ws.len() && 0 <= j < ws[i].0.len() implies #[trigger] ws[i].0[j] < sigma by {
        let c = captures(t, p.1.last(), sigma as nat)[i];
        crate::fa::lemma_captures_edge(t, p.1.last(), sigma as nat, i);
        assert(ws[i].0 == p.0.push(c.0));
        if j < p.0.len() {
            assert(ws[i].0[j] == p.0[j]);
        }
    }
}

/// Walks put one after the other keep their letters below `sigma`.
proof fn lemma_concat_letters(a: Seq<(Seq<usize>, Seq<usize>)>, b: Seq<(Seq<usize>, Seq<usize>)>, sigma: usize)
    requires
        letters_below(a, sigma),
        letters_below(b, sigma),
    ensures
        letters_below(a + b, sigma),
{
    assert forall|i: int, j: int| 0 <= i < (a + b).len() && 0 <= j < (a + b)[i].0.len() implies #[trigger] (a
        + b)[i].0[j] < sigma by {
        if i < a.len() {
            assert((a + b)[i] == a[i]);
        } else {
            assert((a + b)[i] == b[i - a.len()]);
        }
    }
}

/// Extending walks with letters below `sigma` keeps them below `sigma`.
proof fn lemma_expand_letters(t: Seq<Edge>, sigma: usize, ps: Seq<(Seq<usize>, Seq<usize>)>)
    requires
        letters_below(ps, sigma),
    ensures
        letters_below(expand(t, sigma, ps), sigma),
    decreases ps.len(),
{
    if ps.len() > 0 {
        let pd = ps.drop_last();
        assert forall|i: int, j: int| 0 <= i < pd.len() && 0 <= j < pd[i].0.len() implies #[trigger] pd[i].0[j] < sigma by {
            assert(pd[i] == ps[i]);
        }
        lemma_expand_letters(t, sigma, pd);
        assert forall|j: int| 0 <= j < ps.last().0.len() implies #[trigger] ps.last().0[j] < sigma by {
            assert(ps[ps.len() - 1].0[j] < sigma);
        }
        lemma_extend_letters(t, sigma, ps.last());
        lemma_concat_letters(expand(t, sigma, pd), extend_walk(t, sigma, ps.last()), sigma);
    }
}

/// The walks from a node read letters below `sigma`.
proof fn lemma_walk_tree_letters(t: Seq<Edge>, sigma: usize, p: (Seq<usize>, Seq<usize>), k: nat)
    requires
        forall|j: int| 0 <= j < p.0.len() ==> #[trigger] p.0[j] < sigma,
    ensures
        letters_below(walk_tree(t, sigma, p, k), sigma),
    decreases k,
{
    if k == 0 {
        assert forall|i: int, j: int| 0 <= i < seq![p].len() && 0 <= j < seq![p][i].0.len() implies #[trigger] seq![
            p,
        ][i].0[j] < sigma by {
            assert(seq![p][i] == p);
        }
    } else {
        lemma_walk_tree_letters(t, sigma, p, (k - 1) as nat);
        lemma_expand_letters(t, sigma, walk_tree(t, sigma, p, (k - 1) as nat));
    }
}

/// The walks from the nodes of `q` read letters below `sigma`.
pub proof fn lemma_walks_from_letters(t: Seq<Edge>, sigma: usize, q: Seq<usize>, k: nat)
    ensures
        letters_below(walks_from(t, sigma, q, k), sigma),
    decreases q.len(),
{
    if q.len() > 0 {
        lemma_walks_from_letters(t, sigma, q.drop_last(), k);
        lemma_walk_tree_letters(t, sigma, (Seq::empty(), seq![q.last()]), k);
        lemma_concat_letters(
            walks_from(t, sigma, q.drop_last(), k),
            walk_tree(t, sigma, (Seq::empty(), seq![q.last()]), k),
            sigma,
        );
    }
}

/// The automaton of the rows reachable so far, with the rule and its neighbourhood size.
pub struct Solver<F: Fn(Vec<usize>) -> usize> {
    pub fa: FA,
    pub n: usize,
    pub rule: F,
}

impl<F: Fn(Vec<usize>) -> usize> Solver<F> {
    /// A solver that starts from the de Bruijn automaton of `rule` on `n` cells.
    pub fn from(n: usize, rule: F) -> (s: Self)
        requires
            1 <= n,
            n < usize::BITS,
            rule_ok(rule, n as nat, 2),
        ensures
            s.n == n,
            s.rule == rule,
            is_debruijn(rule, n, s.fa),
    {
        let start = FA::debruign(n, &rule);
        Solver { fa: start, n, rule }
    }

    /// One step of the rule on the current automaton.
    pub fn step(&mut self) -> (r: (FA, Vec<Walk>))
        requires
            old(self).fa.wf(),
            old(self).fa.q@.len() != 0,
            2 <= old(self).n,
            rule_ok(old(self).rule, old(self).n as nat, old(self).fa.sigma as nat),
            exists|a: int|
                0 <= a < walks_from(old(self).fa.t@, old(self).fa.sigma, old(self).fa.q@, (old(self).n - 1) as nat).len()
                    && old(self).fa.f@.contains(
                    (#[trigger] walks_from(old(self).fa.t@, old(self).fa.sigma, old(self).fa.q@, (old(self).n - 1) as nat)[a]).1.last(),
                ),
        ensures
            *final(self) == *old(self),
            is_step(old(self).fa, old(self).n, old(self).rule, r.0, r.1@),
    {
        self.fa.step(self.n, &self.rule)
    }

    /// The automaton with every edge into the start led instead to a new
    /// halting node, numbered by the count of nodes.
    pub fn without_null_loop(&self) -> (r: FA)
        requires
            self.fa.wf(),
        ensures
            r.wf(),
            r.q@ == self.fa.q@.push(self.fa.q@.len() as usize),
            r.sigma == self.fa.sigma,
            r.t@ == self.fa.t@.map_values(|e: Edge| if e.2 == self.fa.q0 {
                (e.0, e.1, self.fa.q@.len() as usize)
            } else {
                e
            }),
            r.q0 == self.fa.q0,
            r.f@ == self.fa.f@.push(self.fa.q@.len() as usize),
    {
        let fa = &self.fa;
        let next = fa.q.len();
        let ghost redirect = |e: Edge| if e.2 == fa.q0 {
            (e.0, e.1, next)
        } else {
            e
        };
        let mut new_q: Vec<usize> = Vec::new();
        let mut i: usize = 0;
        while i < fa.q.len()
            invariant
                i <= fa.q@.len(),
                new_q@ == fa.q@.take(i as int),
            decreases fa.q@.len() - i,
        {
            new_q.push(fa.q[i]);
            assert(fa.q@.take(i + 1) =~= fa.q@.take(i as int).push(fa.q@[i as int]));
            i = i + 1;
        }
        assert(fa.q@.take(fa.q@.len() as int) =~= fa.q@);
        new_q.push(next);
        let mut new_t: Vec<Edge> = Vec::new();
        let mut k: usize = 0;
        while k < fa.t.len()
            invariant
                k <= fa.t@.len(),
                next == fa.q@.len(),
                new_t@ == fa.t@.take(k as int).map_values(|e: Edge| if e.2 == fa.q0 {
                    (e.0, e.1, next)
                } else {
                    e
                }),
            decreases fa.t@.len() - k,
        {
            let (n1, x, n2) = fa.t[k];
            if n2 == fa.q0 {
                new_t.push((n1, x, next));
            } else {
                new_t.push((n1, x, n2));
            }
            assert(fa.t@.take(k + 1).map_values(|e: Edge| if e.2 == fa.q0 {
                (e.0, e.1, next)
            } else {
                e
            }) =~= fa.t@.take(k as int).map_values(|e: Edge| if e.2 == fa.q0 {
                (e.0, e.1, next)
            } else {
                e
            }).push(if fa.t@[k as int].2 == fa.q0 {
                (fa.t@[k as int].0, fa.t@[k as int].1, next)
            } else {
                fa.t@[k as int]
            }));
            k = k + 1;
        }
        assert(fa.t@.take(fa.t@.len() as int) =~= fa.t@);
        let mut new_f: Vec<usize> = Vec::new();
        let mut i: usize = 0;
        while i < fa.f.len()
            invariant
                i <= fa.f@.len(),
                new_f@ == fa.f@.take(i as int),
            decreases fa.f@.len() - i,
        {
            new_f.push(fa.f[i]);
            assert(fa.f@.take(i + 1) =~= fa.f@.take(i as int).push(fa.f@[i as int]));
            i = i + 1;
        }
        assert(fa.f@.take(fa.f@.len() as int) =~= fa.f@);
        new_f.push(next);
        proof {
            assert forall|n: usize| fa.q@.contains(n) implies #[trigger] new_q@.contains(n) by {
                crate::fa::lemma_push_contains(fa.q@, next, n);
            }
            assert(new_q@.contains(next)) by {
                crate::fa::lemma_push_contains(fa.q@, next, next);
            }
            assert(new_q@.contains(fa.q0));
            assert forall|j: int| 0 <= j < new_f@.len() implies new_q@.contains(#[trigger] new_f@[j]) by {
                if j < fa.f@.len() {
                    assert(new_f@[j] == fa.f@[j]);
                    assert(fa.q@.contains(fa.f@[j]));
                }
            }
            assert forall|j: int| 0 <= j < new_t@.len() implies new_q@.contains((#[trigger] new_t@[j]).0)
                && new_q@.contains(new_t@[j].2) && new_t@[j].1 < fa.sigma by {
                assert(fa.q@.contains(fa.t@[j].0) && fa.q@.contains(fa.t@[j].2));
            }
        }
        FA::from(new_q, fa.sigma, new_t, fa.q0, new_f)
    }
}

impl FA {
    /// The de Bruijn automaton of a rule on `neighbors` cells: node `i` stands for
    /// the last `neighbors - 1` cells read, as the bits of `i`; reading the next
    /// cell `x` leads to node `(2 i + x) mod 2^(neighbors - 1)` and captures what
    /// the rule makes of the whole neighbourhood. Node 0 starts and halts.
    pub fn debruign<F: Fn(Vec<usize>) -> usize>(neighbors: usize, rule: &F) -> (r: FA)
        requires
            1 <= neighbors,
            neighbors < usize::BITS,
            rule_ok(*rule, neighbors as nat, 2),
        ensures
            is_debruijn(*rule, neighbors, r),
    {
        let k = neighbors - 1;
        let count: usize = 1usize << k;
        proof {
            assert(count > 0) by (bit_vector)
                requires
                    k + 1 < usize::BITS,
                    count == 1usize << k,
            ;
        }
        let mask: usize = count - 1;
        let mut new_q: Vec<usize> = Vec::new();
        let mut i: usize = 0;
        while i < count
            invariant
                i <= count,
                new_q@ == positions(i as nat),
            decreases count - i,
        {
            new_q.push(i);
            assert(new_q@ =~= positions((i + 1) as nat));
            i = i + 1;
        }
        let mut new_t: Vec<Edge> = Vec::new();
        let mut i: usize = 0;
        while i < count
            invariant
                k + 1 == neighbors,
                neighbors < usize::BITS,
                count == 1usize << k,
                count > 0,
                mask == count - 1,
                i <= count,
                rule_ok(*rule, neighbors as nat, 2),
                new_t@.len() == 2 * i,
                forall|j: int| 0 <= j < new_t@.len() ==> #[trigger] debruijn_edge(*rule, new_t@[j], j, k as nat, count as int),
            decreases count - i,
        {
            let mut x: usize = 0;
            while x < 2
                invariant
                    k + 1 == neighbors,
                    neighbors < usize::BITS,
                    count == 1usize << k,
                    count > 0,
                    mask == count - 1,
                    i < count,
                    x <= 2,
                    rule_ok(*rule, neighbors as nat, 2),
                    new_t@.len() == 2 * i + x,
                    forall|j: int| 0 <= j < new_t@.len() ==> #[trigger] debruijn_edge(*rule, new_t@[j], j, k as nat, count as int),
                decreases 2 - x,
            {
                let mut window = bits(i, k);
                window.push(x & 1);
                let ghost wv = window;
                proof {
                    assert(x & 1 == x) by (bit_vector)
                        requires
                            x < 2,
                    ;
                    assert(window@ =~= debruijn_window(i, k as nat, x));
                    assert forall|j: int| 0 <= j < window@.len() implies #[trigger] window@[j] < 2 by {
                        if j < k {
                            let s = ((k - 1 - j) % (usize::BITS as int)) as usize;
                            assert(((i >> s) & 1) < 2) by (bit_vector);
                        }
                    }
                    assert(cells_in(window@, neighbors as nat, 2));
                }
                let o = rule(window);
                proof {
                    lemma_shift_in(i, x, k, count, mask);
                }
                let target = mask & ((i << 1) | x);
                let ghost prev = new_t@;
                new_t.push((i, o, target));
                proof {
                    assert forall|j: int| 0 <= j < new_t@.len() implies #[trigger] debruijn_edge(*rule, new_t@[j], j, k as nat, count as int) by {
                        if j < prev.len() {
                            assert(new_t@[j] == prev[j]);
                            assert(debruijn_edge(*rule, prev[j], j, k as nat, count as int));
                        } else {
                            assert(j == 2 * i + x);
                            assert(j / 2 == i && j % 2 == x);
                            assert(new_t@[j] == (i, o, target));
                            assert(target == (2 * i + x) % (count as int));
                            assert(rule.ensures((wv,), o));
                            assert(o < 2);
                            assert(wv@ == debruijn_window(i, k as nat, x));
                            assert(((j / 2) as usize) == i && ((j % 2) as usize) == x);
                        }
                    }
                }
                x = x + 1;
            }
            i = i + 1;
        }
        let mut new_f: Vec<usize> = Vec::new();
        new_f.push(0);
        proof {
            assert(new_q@.contains(0usize)) by {
                assert(new_q@[0] == 0);
            }
            assert forall|j: int| 0 <= j < new_f@.len() implies new_q@.contains(#[trigger] new_f@[j]) by {
                assert(new_q@[0] == 0);
            }
            assert forall|j: int| 0 <= j < new_t@.len() implies new_q@.contains((#[trigger] new_t@[j]).0)
                && new_q@.contains(new_t@[j].2) && new_t@[j].1 < 2 by {
                let e = new_t@[j];
                assert(debruijn_edge(*rule, e, j, k as nat, count as int));
                assert(new_q@[e.0 as int] == e.0);
                assert(new_q@[e.2 as int] == e.2);
            }
            assert(new_f@ =~= seq![0usize]);
        }
        FA::from(new_q, 2, new_t, 0, new_f)
    }

    /// One step of `rule` on the rows this automaton allows: the nodes are the
    /// walks of `neighbors - 1` steps, from each node in turn; an edge joins two
    /// walks where the second goes on from the first, and captures what the rule
    /// makes of the letters of the first followed by the last letter of the
    /// second. The first walk starts; the walks that end in a halting node halt.
    /// Returns the automaton together with the walk of each node.
    pub fn step<F: Fn(Vec<usize>) -> usize>(&self, neighbors: usize, rule: &F) -> (r: (FA, Vec<Walk>))
        requires
            self.wf(),
            self.q@.len() != 0,
            2 <= neighbors,
            rule_ok(*rule, neighbors as nat, self.sigma as nat),
            exists|a: int|
                0 <= a < walks_from(self.t@, self.sigma, self.q@, (neighbors - 1) as nat).len() && self.f@.contains(
                    (#[trigger] walks_from(self.t@, self.sigma, self.q@, (neighbors - 1) as nat)[a]).1.last(),
                ),
        ensures
            is_step(*self, neighbors, *rule, r.0, r.1@),
    {
        let k = neighbors - 1;
        let ghost tq = self.t@;
        let mut new_q: Vec<Walk> = Vec::new();
        let mut i: usize = 0;
        while i < self.q.len()
            invariant
                self.wf(),
                k + 1 == neighbors,
                1 <= k,
                i <= self.q@.len(),
                walk_views(new_q@) == walks_from(self.t@, self.sigma, self.q@.take(i as int), k as nat),
            decreases self.q@.len() - i,
        {
            assert(self.q@.contains(self.q@[i as int]));
            let et = self.edge_tree_of_node(self.q[i], k);
            let ghost before = new_q@;
            let mut c: usize = 0;
            let mut et_mut = et;
            let ghost etv = walk_views(et_mut@);
            let mut taken: Vec<Walk> = Vec::new();
            while c < et_mut.len()
                invariant
                    c <= et_mut@.len(),
                    walk_views(et_mut@) == etv,
                    walk_views(new_q@) == walk_views(before) + etv.take(c as int),
                decreases et_mut@.len() - c,
            {
                let w = (et_mut[c].0.clone(), et_mut[c].1.clone());
                proof {
                    assert(w.0@ =~= et_mut@[c as int].0@);
                    assert(w.1@ =~= et_mut@[c as int].1@);
                }
                let ghost prev = new_q@;
                new_q.push(w);
                assert(walk_views(new_q@) =~= walk_views(prev).push((w.0@, w.1@)));
                assert(etv.take(c + 1) =~= etv.take(c as int).push(etv[c as int]));
                c = c + 1;
            }
            proof {
                assert(etv.take(etv.len() as int) =~= etv);
                let qi1 = self.q@.take(i + 1);
                assert(qi1.drop_last() =~= self.q@.take(i as int));
                assert(qi1.last() == self.q@[i as int]);
            }
            i = i + 1;
        }
        assert(self.q@.take(self.q@.len() as int) =~= self.q@);
        let ghost v = walk_views(new_q@);
        proof {
            lemma_walks_from_lengths(self.t@, self.sigma, self.q@, k as nat);
            lemma_walks_from_letters(self.t@, self.sigma, self.q@, k as nat);
        }

        let mut new_t: Vec<Edge> = Vec::new();
        let mut a: usize = 0;
        while a < new_q.len()
            invariant
                k + 1 == neighbors,
                1 <= k,
                walk_views(new_q@) == v,
                forall|i: int| 0 <= i < v.len() ==> (#[trigger] v[i]).0.len() == k && v[i].1.len() == k + 1,
                a <= new_q@.len(),
                rule_ok(*rule, neighbors as nat, self.sigma as nat),
                letters_below(v, self.sigma),
                forall|j: int| 0 <= j < new_t@.len() ==> {
                    let e = #[trigger] new_t@[j];
                    &&& e.0 < v.len() && e.2 < v.len() && e.1 < 2
                    &&& walks_overlap(v[e.0 as int], v[e.2 as int], k as nat)
                    &&& exists|w: Vec<usize>| #[trigger] rule.ensures((w,), e.1) && w@ == v[e.0 as int].0.push(v[e.2 as int].0.last())
                },
                forall|x: int, y: int|
                    0 <= x < a && 0 <= y < v.len() && #[trigger] walks_overlap(v[x], v[y], k as nat) ==> exists|j: int|
                        0 <= j < new_t@.len() && (#[trigger] new_t@[j]).0 == x && new_t@[j].2 == y,
                forall|i: int, j: int| 0 <= i < j < new_t@.len() ==> #[trigger] edge_before(new_t@[i], new_t@[j]),
                forall|j: int| 0 <= j < new_t@.len() ==> (#[trigger] new_t@[j]).0 < a,
            decreases new_q@.len() - a,
        {
            let mut b: usize = 0;
            while b < new_q.len()
                invariant
                    k + 1 == neighbors,
                    1 <= k,
                    walk_views(new_q@) == v,
                    forall|i: int| 0 <= i < v.len() ==> (#[trigger] v[i]).0.len() == k && v[i].1.len() == k + 1,
                    a < new_q@.len(),
                    b <= new_q@.len(),
                    rule_ok(*rule, neighbors as nat, self.sigma as nat),
                    letters_below(v, self.sigma),
                    forall|j: int| 0 <= j < new_t@.len() ==> {
                        let e = #[trigger] new_t@[j];
                        &&& e.0 < v.len() && e.2 < v.len() && e.1 < 2
                        &&& walks_overlap(v[e.0 as int], v[e.2 as int], k as nat)
                        &&& exists|w: Vec<usize>| #[trigger] rule.ensures((w,), e.1) && w@ == v[e.0 as int].0.push(v[e.2 as int].0.last())
                    },
                    forall|x: int, y: int|
                        0 <= x < a && 0 <= y < v.len() && #[trigger] walks_overlap(v[x], v[y], k as nat) ==> exists|j: int|
                            0 <= j < new_t@.len() && (#[trigger] new_t@[j]).0 == x && new_t@[j].2 == y,
                    forall|y: int|
                        0 <= y < b && #[trigger] walks_overlap(v[a as int], v[y], k as nat) ==> exists|j: int|
                            0 <= j < new_t@.len() && (#[trigger] new_t@[j]).0 == a && new_t@[j].2 == y,
                    forall|i: int, j: int| 0 <= i < j < new_t@.len() ==> #[trigger] edge_before(new_t@[i], new_t@[j]),
                    forall|j: int| 0 <= j < new_t@.len() ==> (#[trigger] new_t@[j]).0 < a || (new_t@[j].0 == a
                        && new_t@[j].2 < b),
                decreases new_q@.len() - b,
            {
                assert(v[a as int] == (new_q@[a as int].0@, new_q@[a as int].1@));
                assert(v[b as int] == (new_q@[b as int].0@, new_q@[b as int].1@));
                if shifted_eq(&new_q[a].1, &new_q[b].1, k) {
                    let mut xs = new_q[a].0.clone();
                    assert(xs@ =~= new_q@[a as int].0@);
                    xs.push(new_q[b].0[k - 1]);
                    let ghost wv = xs;
                    proof {
                        assert(v[b as int].0.last() == new_q@[b as int].0@[k - 1]);
                        assert(wv@ == v[a as int].0.push(v[b as int].0.last()));
                        assert forall|i: int| 0 <= i < wv@.len() implies #[trigger] wv@[i] < self.sigma by {
                            if i < k {
                                assert(wv@[i] == v[a as int].0[i]);
                            } else {
                                assert(wv@[i] == v[b as int].0[k - 1]);
                            }
                        }
                        assert(cells_in(wv@, neighbors as nat, self.sigma as nat));
                    }
                    let o = rule(xs);
                    let ghost prev = new_t@;
                    new_t.push((a, o, b));
                    proof {
                        assert forall|j: int| 0 <= j < new_t@.len() implies {
                            let e = #[trigger] new_t@[j];
                            &&& e.0 < v.len() && e.2 < v.len() && e.1 < 2
                            &&& walks_overlap(v[e.0 as int], v[e.2 as int], k as nat)
                            &&& exists|w: Vec<usize>| #[trigger] rule.ensures((w,), e.1) && w@ == v[e.0 as int].0.push(v[e.2 as int].0.last())
                        } by {
                            if j < prev.len() {
                                assert(new_t@[j] == prev[j]);
                            } else {
                                assert(rule.ensures((wv,), o));
                            }
                        }
                        assert forall|x: int, y: int|
                            0 <= x < a && 0 <= y < v.len() && #[trigger] walks_overlap(v[x], v[y], k as nat) implies exists|j: int|
                                0 <= j < new_t@.len() && (#[trigger] new_t@[j]).0 == x && new_t@[j].2 == y by {
                            let j = choose|j: int| 0 <= j < prev.len() && (#[trigger] prev[j]).0 == x && prev[j].2 == y;
                            assert(new_t@[j] == prev[j]);
                        }
                        assert forall|y: int|
                            0 <= y < b + 1 && #[trigger] walks_overlap(v[a as int], v[y], k as nat) implies exists|j: int|
                                0 <= j < new_t@.len() && (#[trigger] new_t@[j]).0 == a && new_t@[j].2 == y by {
                            if y < b {
                                let j = choose|j: int| 0 <= j < prev.len() && (#[trigger] prev[j]).0 == a && prev[j].2 == y;
                                assert(new_t@[j] == prev[j]);
                            } else {
                                assert(new_t@[prev.len() as int].0 == a);
                            }
                        }
                        assert forall|i: int, j: int| 0 <= i < j < new_t@.len() implies #[trigger] edge_before(
                            new_t@[i],
                            new_t@[j],
                        ) by {
                            assert(new_t@[i] == prev[i]);
                            if j < prev.len() {
                                assert(new_t@[j] == prev[j]);
                            }
                        }
                        assert forall|j: int| 0 <= j < new_t@.len() implies (#[trigger] new_t@[j]).0 < a || (
                        new_t@[j].0 == a && new_t@[j].2 < b + 1) by {
                            if j < prev.len() {
                                assert(new_t@[j] == prev[j]);
                            }
                        }
                    }
                }
                b = b + 1;
            }
            a = a + 1;
        }

        let mut new_f: Vec<usize> = Vec::new();
        let mut a: usize = 0;
        while a < new_q.len()
            invariant
                k + 1 == neighbors,
                walk_views(new_q@) == v,
                forall|i: int| 0 <= i < v.len() ==> (#[trigger] v[i]).0.len() == k && v[i].1.len() == k + 1,
                a <= new_q@.len(),
                forall|i: int, j: int| 0 <= i < j < new_f@.len() ==> #[trigger] new_f@[i] < #[trigger] new_f@[j],
                forall|i: int| 0 <= i < new_f@.len() ==> #[trigger] new_f@[i] < a,
                forall|x: usize| #[trigger] new_f@.contains(x) <==> x < a && self.f@.contains(v[x as int].1.last()),
            decreases new_q@.len() - a,
        {
            assert(v[a as int] == (new_q@[a as int].0@, new_q@[a as int].1@));
            let last = new_q[a].1[k];
            let ghost prev = new_f@;
            if crate::fa::contains(&self.f, last) {
                new_f.push(a);
            }
            proof {
                assert(v[a as int].1.last() == last);
                assert forall|x: usize| #[trigger] new_f@.contains(x) <==> x < a + 1 && self.f@.contains(v[x as int].1.last()) by {
                    crate::fa::lemma_push_contains(prev, a, x);
                }
                assert forall|i: int, j: int| 0 <= i < j < new_f@.len() implies #[trigger] new_f@[i] < #[trigger] new_f@[j] by {
                    if j == prev.len() {
                        assert(new_f@[i] == prev[i]);
                    } else {
                        assert(new_f@[i] == prev[i] && new_f@[j] == prev[j]);
                    }
                }
                assert forall|i: int| 0 <= i < new_f@.len() implies #[trigger] new_f@[i] < a + 1 by {
                    if i < prev.len() {
                        assert(new_f@[i] == prev[i]);
                    }
                }
            }
            a = a + 1;
        }

        let mut new_nodes: Vec<usize> = Vec::new();
        let mut i: usize = 0;
        while i < new_q.len()
            invariant
                i <= new_q@.len(),
                new_nodes@ == positions(i as nat),
            decreases new_q@.len() - i,
        {
            new_nodes.push(i);
            assert(new_nodes@ =~= positions((i + 1) as nat));
            i = i + 1;
        }
        proof {
            let w = choose|a: int|
                0 <= a < walks_from(self.t@, self.sigma, self.q@, k as nat).len() && self.f@.contains(
                    (#[trigger] walks_from(self.t@, self.sigma, self.q@, k as nat)[a]).1.last(),
                );
            assert(new_f@.contains(w as usize));
            assert(new_nodes@.contains(0usize)) by {
                assert(new_nodes@[0] == 0);
            }
            assert forall|j: int| 0 <= j < new_f@.len() implies new_nodes@.contains(#[trigger] new_f@[j]) by {
                assert(new_f@.contains(new_f@[j]));
                assert(new_nodes@[new_f@[j] as int] == new_f@[j]);
            }
            assert forall|j: int| 0 <= j < new_t@.len() implies new_nodes@.contains((#[trigger] new_t@[j]).0)
                && new_nodes@.contains(new_t@[j].2) && new_t@[j].1 < 2 by {
                assert(new_nodes@[new_t@[j].0 as int] == new_t@[j].0);
                assert(new_nodes@[new_t@[j].2 as int] == new_t@[j].2);
            }
        }
        let fa = FA::from(new_nodes, 2, new_t, 0, new_f);
        (fa, new_q)
    }

}

} // verus!
