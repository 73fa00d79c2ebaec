//! Cutting an automaton down to the nodes near its start.
use vstd::prelude::*;
use std::collections::HashMap;
use crate::fa::{FA, Edge, captures};
use crate::minimization::{has_edge, is_walk, edges_within, nodes_within, lemma_walk_push, lemma_edges_within, lemma_nodes_within};

verus! {

broadcast use vstd::std_specs::hash::group_hash_axioms;

/// How many steps from the start a node may be and still be kept.
pub const MAX_LEN: u32 = 5;

/// Some walk of at most `k` steps leads from `a` to `n`.
pub open spec fn near(t: Seq<Edge>, a: usize, n: usize, k: nat) -> bool {
    exists|ns: Seq<usize>| #[trigger] is_walk(t, ns) && ns[0] == a && ns.last() == n && ns.len() <= k + 1
}

/// The distances of the nodes of `q`, added up position by position.
pub open spec fn dist_sum(d: Map<usize, u32>, q: Seq<usize>) -> nat
    decreases q.len(),
{
    if q.len() == 0 {
        0
    } else {
        dist_sum(d, q.drop_last()) + d[q.last()] as nat
    }
}

/// Lowering the distance of a node of `q` lowers the sum.
proof fn lemma_dist_sum_lower(d: Map<usize, u32>, q: Seq<usize>, k: usize, v: u32)
    requires
        v < d[k],
    ensures
        q.contains(k) ==> dist_sum(d.insert(k, v), q) < dist_sum(d, q),
        !q.contains(k) ==> dist_sum(d.insert(k, v), q) == dist_sum(d, q),
    decreases q.len(),
{
    if q.len() > 0 {
        lemma_dist_sum_lower(d, q.drop_last(), k, v);
        assert(q =~= q.drop_last().push(q.last()));
        crate::fa::lemma_push_contains(q.drop_last(), q.last(), k);
    }
}

/// Along a walk from the start, the distances grow by at most one a step,
/// so a node `i` steps along has distance at most `i`.
proof fn lemma_walk_dist(t: Seq<Edge>, q: Seq<usize>, d: Map<usize, u32>, ns: Seq<usize>, i: int)
    requires
        is_walk(t, ns),
        0 <= i < ns.len(),
        d[ns[0]] == 0,
        q.contains(ns[0]),
        forall|j: int| 0 <= j < t.len() ==> q.contains((#[trigger] t[j]).0) && q.contains(t[j].2),
        forall|a: usize, b: usize| #[trigger] q.contains(a) && #[trigger] has_edge(t, a, b) ==> d[b] <= d[a] + 1,
    ensures
        d[ns[i]] <= i,
        q.contains(ns[i]),
    decreases i,
{
    if i > 0 {
        lemma_walk_dist(t, q, d, ns, i - 1);
        let k = i - 1;
        assert(has_edge(t, ns[k], ns[k + 1]));
        let j = choose|j: int| 0 <= j < t.len() && (#[trigger] t[j]).0 == ns[k] && t[j].2 == ns[k + 1];
        assert(q.contains(t[j].2));
    }
}

impl FA {
    /// The automaton cut down to the nodes at most five steps from the start;
    /// edges and halting nodes go with them. Some halting node must be that
    /// near.
    pub fn remove_after_five_nodes(&self) -> (r: FA)
        requires
            self.wf(),
            exists|i: int| 0 <= i < self.f@.len() && near(self.t@, self.q0, #[trigger] self.f@[i], MAX_LEN as nat),
        ensures
            r.wf(),
            r.sigma == self.sigma,
            r.q0 == self.q0,
            r.q@ == nodes_within(self.q@, |n: usize| near(self.t@, self.q0, n, MAX_LEN as nat)),
            r.t@ == edges_within(self.t@, |n: usize| near(self.t@, self.q0, n, MAX_LEN as nat)),
            r.f@ == nodes_within(self.f@, |n: usize| near(self.t@, self.q0, n, MAX_LEN as nat)),
    {
        let ghost keep = |n: usize| near(self.t@, self.q0, n, MAX_LEN as nat);
        let mut d: HashMap<usize, u32> = HashMap::new();
        let mut i: usize = 0;
        while i < self.q.len()
            invariant
                self.wf(),
                i <= self.q@.len(),
                forall|n: usize| #[trigger] d@.contains_key(n) <==> self.q@.take(i as int).contains(n),
                forall|n: usize| #[trigger] d@.contains_key(n) ==> d@[n] == MAX_LEN + 1,
            decreases self.q@.len() - i,
        {
            d.insert(self.q[i], MAX_LEN + 1);
            proof {
                assert(self.q@.take(i + 1) =~= self.q@.take(i as int).push(self.q@[i as int]));
                assert forall|n: usize| #[trigger] d@.contains_key(n) <==> self.q@.take(i + 1).contains(n) by {
                    crate::fa::lemma_push_contains(self.q@.take(i as int), self.q@[i as int], n);
                }
            }
            i = i + 1;
        }
        assert(self.q@.take(self.q@.len() as int) =~= self.q@);
        d.insert(self.q0, 0);
        proof {
            let w = seq![self.q0];
            assert(is_walk(self.t@, w));
            assert(w[0] == self.q0 && w.last() == self.q0);
            assert(near(self.t@, self.q0, self.q0, 0));
        }
        let mut changed = true;
        while changed
            invariant
                self.wf(),
                forall|n: usize| #[trigger] d@.contains_key(n) <==> self.q@.contains(n),
                forall|n: usize| #[trigger] d@.contains_key(n) ==> d@[n] <= MAX_LEN + 1,
                d@[self.q0] == 0,
                forall|n: usize| #[trigger] d@.contains_key(n) && d@[n] <= MAX_LEN ==> near(self.t@, self.q0, n, d@[n] as nat),
                !changed ==> forall|a: usize, b: usize| #[trigger] self.q@.contains(a) && #[trigger] has_edge(self.t@, a, b) ==> d@[b] <= d@[a] + 1,
            decreases dist_sum(d@, self.q@) + (if changed { 1int } else { 0int }),
        {
            changed = false;
            let ghost d0 = d@;
            let mut i: usize = 0;
            while i < self.q.len()
                invariant
                    self.wf(),
                    i <= self.q@.len(),
                    forall|n: usize| #[trigger] d@.contains_key(n) <==> self.q@.contains(n),
                    forall|n: usize| #[trigger] d@.contains_key(n) ==> d@[n] <= MAX_LEN + 1,
                    d@[self.q0] == 0,
                    forall|n: usize| #[trigger] d@.contains_key(n) && d@[n] <= MAX_LEN ==> near(self.t@, self.q0, n, d@[n] as nat),
                    changed ==> dist_sum(d@, self.q@) < dist_sum(d0, self.q@),
                    !changed ==> d@ == d0,
                    !changed ==> forall|a: usize, b: usize| #[trigger] self.q@.take(i as int).contains(a) && #[trigger] has_edge(self.t@, a, b) ==> d@[b] <= d@[a] + 1,
                decreases self.q@.len() - i,
            {
                let n1 = self.q[i];
                assert(self.q@.contains(n1));
                let dist = *d.get(&n1).unwrap();
                assert(d@.contains_key(n1));
                let nbrs = self.edges_of_node(n1);
                let ghost dpass = d@;
                let mut j: usize = 0;
                while j < nbrs.len()
                    invariant
                        self.wf(),
                        self.q@.contains(n1),
                        nbrs@ == captures(self.t@, n1, self.sigma as nat).map_values(|c: (usize, usize)| c.1),
                        j <= nbrs@.len(),
                        dist == d@[n1],
                        dist <= MAX_LEN + 1,
                        forall|n: usize| #[trigger] d@.contains_key(n) <==> self.q@.contains(n),
                        forall|n: usize| #[trigger] d@.contains_key(n) ==> d@[n] <= MAX_LEN + 1,
                        d@[self.q0] == 0,
                        forall|n: usize| #[trigger] d@.contains_key(n) && d@[n] <= MAX_LEN ==> near(self.t@, self.q0, n, d@[n] as nat),
                        changed ==> dist_sum(d@, self.q@) < dist_sum(d0, self.q@),
                        !changed ==> d@ == d0,
                        !changed ==> forall|a: usize, b: usize| #[trigger] self.q@.take(i as int).contains(a) && #[trigger] has_edge(self.t@, a, b) ==> d@[b] <= d@[a] + 1,
                        !changed ==> forall|k: int| 0 <= k < j ==> d@[#[trigger] nbrs@[k]] <= dist + 1,
                    decreases nbrs@.len() - j,
                {
                    let n2 = nbrs[j];
                    proof {
                        let caps = captures(self.t@, n1, self.sigma as nat);
                        crate::fa::lemma_captures_edge(self.t@, n1, self.sigma as nat, j as int);
                        let e = choose|e: int| 0 <= e < self.t@.len() && #[trigger] self.t@[e] == (n1, caps[j as int].0, caps[j as int].1);
                        assert(self.q@.contains(self.t@[e].2));
                        assert(has_edge(self.t@, n1, n2));
                    }
                    let cur = *d.get(&n2).unwrap();
                    if dist + 1 < cur {
                        let ghost before = d@;
                        d.insert(n2, dist + 1);
                        proof {
                            lemma_dist_sum_lower(before, self.q@, n2, (dist + 1) as u32);
                            assert(before[n1] <= MAX_LEN);
                            assert(before.contains_key(n1));
                            let k: nat = before[n1] as nat;
                            assert(near(self.t@, self.q0, n1, k));
                            let ns = choose|ns: Seq<usize>| #[trigger] is_walk(self.t@, ns) && ns[0] == self.q0 && ns.last() == n1
                                && ns.len() <= k + 1;
                            lemma_walk_push(self.t@, ns, n2);
                            assert(ns.push(n2)[0] == self.q0);
                            assert(near(self.t@, self.q0, n2, (dist + 1) as nat));
                            assert(n2 != n1);
                        }
                        changed = true;
                    }
                    j = j + 1;
                }
                proof {
                    if !changed {
                        assert forall|a: usize, b: usize| #[trigger] self.q@.take(i + 1).contains(a) && #[trigger] has_edge(self.t@, a, b) implies d@[b]
                            <= d@[a] + 1 by {
                            crate::fa::lemma_push_contains(self.q@.take(i as int), n1, a);
                            assert(self.q@.take(i + 1) =~= self.q@.take(i as int).push(n1));
                            if a == n1 && !self.q@.take(i as int).contains(a) {
                                let e = choose|e: int| 0 <= e < self.t@.len() && (#[trigger] self.t@[e]).0 == a && self.t@[e].2 == b;
                                crate::fa::lemma_edge_in_captures(self.t@, e, self.sigma as nat);
                                let caps = captures(self.t@, n1, self.sigma as nat);
                                let k = choose|k: int| 0 <= k < caps.len() && caps[k] == (self.t@[e].1, self.t@[e].2);
                                assert(nbrs@[k] == b);
                            }
                        }
                    }
                }
                i = i + 1;
            }
            proof {
                if !changed {
                    assert(self.q@.take(self.q@.len() as int) =~= self.q@);
                }
            }
        }
        proof {
            assert forall|n: usize| self.q@.contains(n) implies (#[trigger] keep(n) <==> d@[n] <= MAX_LEN) by {
                assert(d@.contains_key(n));
                if d@[n] <= MAX_LEN {
                    let k: nat = d@[n] as nat;
                    assert(near(self.t@, self.q0, n, k));
                    let ns = choose|ns: Seq<usize>| #[trigger] is_walk(self.t@, ns) && ns[0] == self.q0 && ns.last() == n
                        && ns.len() <= k + 1;
                    assert(near(self.t@, self.q0, n, MAX_LEN as nat));
                }
                if keep(n) {
                    let ns = choose|ns: Seq<usize>| #[trigger] is_walk(self.t@, ns) && ns[0] == self.q0 && ns.last() == n
                        && ns.len() <= (MAX_LEN as nat) + 1;
                    lemma_walk_dist(self.t@, self.q@, d@, ns, ns.len() - 1);
                }
            }
        }
        let mut new_q: Vec<usize> = Vec::new();
        let mut k: usize = 0;
        while k < self.q.len()
            invariant
                k <= self.q@.len(),
                forall|n: usize| #[trigger] d@.contains_key(n) <==> self.q@.contains(n),
                forall|n: usize| self.q@.contains(n) ==> (#[trigger] keep(n) <==> d@[n] <= MAX_LEN),
                new_q@ == nodes_within(self.q@.take(k as int), keep),
            decreases self.q@.len() - k,
        {
            let n = self.q[k];
            assert(self.q@.take(k + 1).drop_last() =~= self.q@.take(k as int));
            assert(self.q@.contains(n));
            if *d.get(&n).unwrap() <= MAX_LEN {
                new_q.push(n);
            }
            k = k + 1;
        }
        assert(self.q@.take(self.q@.len() as int) =~= self.q@);
        let mut new_t: Vec<Edge> = Vec::new();
        let mut k: usize = 0;
        while k < self.t.len()
            invariant
                self.wf(),
                k <= self.t@.len(),
                forall|n: usize| #[trigger] d@.contains_key(n) <==> self.q@.contains(n),
                forall|n: usize| self.q@.contains(n) ==> (#[trigger] keep(n) <==> d@[n] <= MAX_LEN),
                new_t@ == edges_within(self.t@.take(k as int), keep),
            decreases self.t@.len() - k,
        {
            let e = self.t[k];
            assert(self.t@.take(k + 1).drop_last() =~= self.t@.take(k as int));
            assert(self.q@.contains(self.t@[k as int].0) && self.q@.contains(self.t@[k as int].2));
            if *d.get(&e.0).unwrap() <= MAX_LEN && *d.get(&e.2).unwrap() <= MAX_LEN {
                new_t.push(e);
            }
            k = k + 1;
        }
        assert(self.t@.take(self.t@.len() as int) =~= self.t@);
        let mut new_f: Vec<usize> = Vec::new();
        let mut k: usize = 0;
        while k < self.f.len()
            invariant
                self.wf(),
                k <= self.f@.len(),
                forall|n: usize| #[trigger] d@.contains_key(n) <==> self.q@.contains(n),
                forall|n: usize| self.q@.contains(n) ==> (#[trigger] keep(n) <==> d@[n] <= MAX_LEN),
                new_f@ == nodes_within(self.f@.take(k as int), keep),
            decreases self.f@.len() - k,
        {
            let n = self.f[k];
            assert(self.f@.take(k + 1).drop_last() =~= self.f@.take(k as int));
            assert(self.q@.contains(self.f@[k as int]));
            if *d.get(&n).unwrap() <= MAX_LEN {
                new_f.push(n);
            }
            k = k + 1;
        }
        assert(self.f@.take(self.f@.len() as int) =~= self.f@);
        proof {
            lemma_nodes_within(self.q@, keep);
            lemma_edges_within(self.t@, keep);
            lemma_nodes_within(self.f@, keep);
            assert(keep(self.q0));
            assert(new_q@.contains(self.q0));
            let i = choose|i: int| 0 <= i < self.f@.len() && near(self.t@, self.q0, #[trigger] self.f@[i], MAX_LEN as nat);
            assert(self.f@.contains(self.f@[i]));
            assert(new_f@.contains(self.f@[i]));
            assert forall|i: int| 0 <= i < new_f@.len() implies new_q@.contains(#[trigger] new_f@[i]) by {
                assert(new_f@.contains(new_f@[i]));
            }
            assert forall|i: int| 0 <= i < new_t@.len() implies new_q@.contains((#[trigger] new_t@[i]).0)
                && new_q@.contains(new_t@[i].2) && new_t@[i].1 < self.sigma by {
                assert(new_t@.contains(new_t@[i]));
                let j = choose|j: int| 0 <= j < self.t@.len() && self.t@[j] == new_t@[i];
            }
        }
        FA::from(new_q, self.sigma, new_t, self.q0, new_f)
    }
}

} // verus!
