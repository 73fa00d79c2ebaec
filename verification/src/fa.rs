//! Finite automata over the alphabet `0..sigma`, with nodes named by integers.
//!
//! An automaton keeps its edges as a list and, for each node and letter, the
//! list of the nodes that follow it: the targets of the matching edges, in the
//! order the edges are listed, each once.
use vstd::prelude::*;
use std::collections::HashMap;

verus! {

broadcast use vstd::std_specs::hash::group_hash_axioms;

/// An edge: from node, letter, to node.
pub type Edge = (usize, usize, usize);

/// A path together with what it captures: the letters read and the nodes visited.
pub type Walk = (Vec<usize>, Vec<usize>);

/// The targets of the edges of `t` that leave `n` reading `x`, first occurrence first.
pub open spec fn targets(t: Seq<Edge>, n: usize, x: usize) -> Seq<usize>
    decreases t.len(),
{
    if t.len() == 0 {
        Seq::empty()
    } else {
        let p = targets(t.drop_last(), n, x);
        let e = t.last();
        if e.0 == n && e.1 == x && !p.contains(e.2) {
            p.push(e.2)
        } else {
            p
        }
    }
}

/// The successors of `n` letter by letter, for the letters below `k`, each
/// paired with the letter read.
pub open spec fn captures(t: Seq<Edge>, n: usize, k: nat) -> Seq<(usize, usize)>
    decreases k,
{
    if k == 0 {
        Seq::empty()
    } else {
        let x = (k - 1) as usize;
        captures(t, n, (k - 1) as nat) + targets(t, n, x).map_values(|m: usize| (x, m))
    }
}

/// The nodes visited and letters read by one more step from the end of walk `p`,
/// for every way of taking that step, in the order of `captures`.
pub open spec fn extend_walk(t: Seq<Edge>, sigma: usize, p: (Seq<usize>, Seq<usize>)) -> Seq<(Seq<usize>, Seq<usize>)> {
    captures(t, p.1.last(), sigma as nat).map_values(|c: (usize, usize)| (p.0.push(c.0), p.1.push(c.1)))
}

/// Every walk of `ps` extended by one step, walk after walk.
pub open spec fn expand(t: Seq<Edge>, sigma: usize, ps: Seq<(Seq<usize>, Seq<usize>)>) -> Seq<(Seq<usize>, Seq<usize>)>
    decreases ps.len(),
{
    if ps.len() == 0 {
        Seq::empty()
    } else {
        expand(t, sigma, ps.drop_last()) + extend_walk(t, sigma, ps.last())
    }
}

/// All extensions of walk `p` by `k` steps.
pub open spec fn walk_tree(t: Seq<Edge>, sigma: usize, p: (Seq<usize>, Seq<usize>), k: nat) -> Seq<(Seq<usize>, Seq<usize>)>
    decreases k,
{
    if k == 0 {
        seq![p]
    } else {
        expand(t, sigma, walk_tree(t, sigma, p, (k - 1) as nat))
    }
}

/// The walks of `v` as pairs of sequences.
pub open spec fn walk_views(v: Seq<Walk>) -> Seq<(Seq<usize>, Seq<usize>)> {
    v.map_values(|w: Walk| (w.0@, w.1@))
}

/// Every element of `targets(t, n, x)` is the end of an edge of `t` from `n` reading `x`.
pub proof fn lemma_targets_edge(t: Seq<Edge>, n: usize, x: usize, i: int)
    requires
        0 <= i < targets(t, n, x).len(),
    ensures
        exists|j: int| 0 <= j < t.len() && #[trigger] t[j] == (n, x, targets(t, n, x)[i]),
    decreases t.len(),
{
    let p = targets(t.drop_last(), n, x);
    if i < p.len() {
        lemma_targets_edge(t.drop_last(), n, x, i);
        let j = choose|j: int| 0 <= j < t.drop_last().len() && #[trigger] t.drop_last()[j] == (n, x, p[i]);
        assert(t[j] == t.drop_last()[j]);
    } else {
        assert(t[t.len() - 1] == (n, x, targets(t, n, x)[i]));
    }
}

/// Every element of `captures(t, n, k)` is an edge of `t` from `n`, with a letter below `k`.
pub proof fn lemma_captures_edge(t: Seq<Edge>, n: usize, k: nat, i: int)
    requires
        0 <= i < captures(t, n, k).len(),
    ensures
        captures(t, n, k)[i].0 < k,
        exists|j: int| 0 <= j < t.len() && #[trigger] t[j] == (n, captures(t, n, k)[i].0, captures(t, n, k)[i].1),
    decreases k,
{
    let x = (k - 1) as usize;
    let prev = captures(t, n, (k - 1) as nat);
    if i < prev.len() {
        lemma_captures_edge(t, n, (k - 1) as nat, i);
    } else {
        lemma_targets_edge(t, n, x, i - prev.len());
    }
}

/// The last position of `n` in `q`; -1 when it does not occur.
pub open spec fn last_index(q: Seq<usize>, n: usize) -> int
    decreases q.len(),
{
    if q.len() == 0 {
        -1
    } else if q.last() == n {
        q.len() - 1
    } else {
        last_index(q.drop_last(), n)
    }
}

/// The positions `0..n` as a sequence.
pub open spec fn positions(n: nat) -> Seq<usize> {
    Seq::new(n, |i: int| i as usize)
}

/// A node's last position in `q`, as a renaming of nodes.
pub open spec fn pos_in(q: Seq<usize>) -> spec_fn(usize) -> usize {
    |n: usize| last_index(q, n) as usize
}

/// An edge with both ends renamed by `g`.
pub open spec fn rename_edge(g: spec_fn(usize) -> usize, e: Edge) -> Edge {
    (g(e.0), e.1, g(e.2))
}

/// A node that occurs in `q` has its last position there.
pub proof fn lemma_last_index(q: Seq<usize>, n: usize)
    ensures
        q.contains(n) ==> 0 <= last_index(q, n) < q.len() && q[last_index(q, n)] == n,
        !q.contains(n) ==> last_index(q, n) == -1,
        q.no_duplicates() ==> forall|i: int| 0 <= i < q.len() ==> #[trigger] last_index(q, q[i]) == i,
    decreases q.len(),
{
    if q.len() > 0 {
        let p = q.drop_last();
        lemma_last_index(p, n);
        if q.last() != n {
            if q.contains(n) {
                let j = choose|j: int| 0 <= j < q.len() && #[trigger] q[j] == n;
                assert(p[j] == n);
            }
            if p.contains(n) {
                let j = choose|j: int| 0 <= j < p.len() && #[trigger] p[j] == n;
                assert(q[j] == n);
            }
        }
        if q.no_duplicates() {
            assert(p.no_duplicates());
            assert forall|i: int| 0 <= i < q.len() implies #[trigger] last_index(q, q[i]) == i by {
                if i < q.len() - 1 {
                    assert(q[i] != q.last());
                    lemma_last_index(p, q[i]);
                    assert(p[i] == q[i]);
                }
            }
        }
    }
}

/// Renaming the nodes by a map that is one to one on the nodes in use renames
/// the successor lists the same way.
pub proof fn lemma_targets_rename(t: Seq<Edge>, q: Seq<usize>, g: spec_fn(usize) -> usize, n: usize, x: usize)
    requires
        q.contains(n),
        forall|i: int| 0 <= i < t.len() ==> q.contains((#[trigger] t[i]).0) && q.contains(t[i].2),
        forall|a: usize, b: usize| q.contains(a) && q.contains(b) && #[trigger] g(a) == #[trigger] g(b) ==> a == b,
    ensures
        targets(t.map_values(|e: Edge| rename_edge(g, e)), g(n), x) == targets(t, n, x).map_values(g),
    decreases t.len(),
{
    let tm = t.map_values(|e: Edge| rename_edge(g, e));
    if t.len() > 0 {
        let tp = t.drop_last();
        assert(tm.drop_last() =~= tp.map_values(|e: Edge| rename_edge(g, e)));
        lemma_targets_rename(tp, q, g, n, x);
        let p = targets(tp, n, x);
        let e = t.last();
        assert(tm.last() == rename_edge(g, e));
        assert(q.contains(e.0) && q.contains(e.2));
        assert(p.map_values(g).contains(g(e.2)) == p.contains(e.2)) by {
            if p.map_values(g).contains(g(e.2)) {
                let j = choose|j: int| 0 <= j < p.len() && #[trigger] p.map_values(g)[j] == g(e.2);
                lemma_targets_edge(tp, n, x, j);
                let k = choose|k: int| 0 <= k < tp.len() && #[trigger] tp[k] == (n, x, p[j]);
                assert(t[k] == tp[k]);
                assert(p[j] == e.2);
            }
            if p.contains(e.2) {
                let j = choose|j: int| 0 <= j < p.len() && #[trigger] p[j] == e.2;
                assert(p.map_values(g)[j] == g(e.2));
            }
        }
        if e.0 == n && e.1 == x && !p.contains(e.2) {
            assert(p.push(e.2).map_values(g) =~= p.map_values(g).push(g(e.2)));
        }
    } else {
        assert(targets(t, n, x).map_values(g) =~= Seq::<usize>::empty());
    }
}

/// The end of every edge from `n` reading `x` is among `targets(t, n, x)`.
pub proof fn lemma_edge_in_targets(t: Seq<Edge>, j: int)
    requires
        0 <= j < t.len(),
    ensures
        targets(t, t[j].0, t[j].1).contains(t[j].2),
    decreases t.len(),
{
    let e = t[j];
    let p = targets(t.drop_last(), e.0, e.1);
    if j < t.len() - 1 {
        lemma_edge_in_targets(t.drop_last(), j);
        assert(t.drop_last()[j] == e);
    }
    if p.contains(e.2) {
        let i = choose|i: int| 0 <= i < p.len() && p[i] == e.2;
        lemma_push_contains(p, t.last().2, e.2);
    } else {
        assert(j == t.len() - 1);
        lemma_push_contains(p, e.2, e.2);
    }
}

/// Every edge from `n` with a letter below `k` is among `captures(t, n, k)`.
pub proof fn lemma_edge_in_captures(t: Seq<Edge>, j: int, k: nat)
    requires
        0 <= j < t.len(),
        t[j].1 < k,
    ensures
        captures(t, t[j].0, k).contains((t[j].1, t[j].2)),
    decreases k,
{
    let e = t[j];
    let x = (k - 1) as usize;
    let prev = captures(t, e.0, (k - 1) as nat);
    let last = targets(t, e.0, x).map_values(|m: usize| (x, m));
    if e.1 == x {
        lemma_edge_in_targets(t, j);
        let i = choose|i: int| 0 <= i < targets(t, e.0, x).len() && targets(t, e.0, x)[i] == e.2;
        assert((prev + last)[prev.len() + i] == (e.1, e.2));
    } else {
        lemma_edge_in_captures(t, j, (k - 1) as nat);
        let i = choose|i: int| 0 <= i < prev.len() && prev[i] == (e.1, e.2);
        assert((prev + last)[i] == (e.1, e.2));
    }
}

/// A finite automaton: nodes `q`, alphabet `0..sigma`, edges `t`, start `q0`,
/// halting nodes `f`, and for each node the followers for each letter.
#[derive(Clone, Debug, PartialEq, Eq)]
pub struct FA {
    /// Nodes
    pub q: Vec<usize>,
    /// Alphabet size
    pub sigma: usize,
    /// Edges of the form (n1, captured, n2)
    pub t: Vec<Edge>,
    /// Starting state
    pub q0: usize,
    /// Halting states
    pub f: Vec<usize>,
    /// For each node, for each letter, the nodes that follow it capturing that letter.
    pub precomputed_successors: HashMap<usize, Vec<Vec<usize>>>,
}

/// The parts of an automaton are consistent: the start, the halting nodes and
/// the ends of every edge are nodes, every letter is below `sigma`, and some
/// node halts.
pub open spec fn parts_valid(q: Seq<usize>, sigma: usize, t: Seq<Edge>, q0: usize, f: Seq<usize>) -> bool {
    &&& q.contains(q0)
    &&& forall|i: int| 0 <= i < f.len() ==> q.contains(#[trigger] f[i])
    &&& forall|i: int|
        0 <= i < t.len() ==> q.contains((#[trigger] t[i]).0) && q.contains(t[i].2) && t[i].1 < sigma
    &&& f.len() != 0
}

/// `m` holds, for every node of `q` and nothing else, the lists `targets(t, n, x)`
/// for each letter `x` below `sigma`.
pub open spec fn successors_match(m: Map<usize, Vec<Vec<usize>>>, q: Seq<usize>, sigma: usize, t: Seq<Edge>) -> bool {
    &&& forall|n: usize| #[trigger] m.contains_key(n) <==> q.contains(n)
    &&& forall|n: usize|
        #[trigger] q.contains(n) ==> m[n]@.len() == sigma && forall|x: int|
            0 <= x < sigma ==> (#[trigger] m[n]@[x])@ == targets(t, n, x as usize)
}

impl FA {
    /// The automaton is consistent and its successor lists are those of its edges.
    pub open spec fn wf(&self) -> bool {
        &&& parts_valid(self.q@, self.sigma, self.t@, self.q0, self.f@)
        &&& successors_match(self.precomputed_successors@, self.q@, self.sigma, self.t@)
    }

    /// The followers of `n` reading `x`.
    pub open spec fn succ(&self, n: usize, x: usize) -> Seq<usize> {
        targets(self.t@, n, x)
    }

    /// Builds an automaton from its parts; the parts must be consistent.
    pub fn from(q: Vec<usize>, sigma: usize, t: Vec<Edge>, q0: usize, f: Vec<usize>) -> (r: FA)
        requires
            parts_valid(q@, sigma, t@, q0, f@),
        ensures
            r.q@ == q@,
            r.sigma == sigma,
            r.t@ == t@,
            r.q0 == q0,
            r.f@ == f@,
            r.wf(),
    {
        let mut precomputed_successors: HashMap<usize, Vec<Vec<usize>>> = HashMap::new();
        let mut i: usize = 0;
        while i < q.len()
            invariant
                i <= q.len(),
                forall|n: usize| #[trigger]
                    precomputed_successors@.contains_key(n) <==> q@.take(i as int).contains(n),
                forall|n: usize| #[trigger]
                    precomputed_successors@.contains_key(n) ==> precomputed_successors@[n]@.len() == sigma
                        && forall|x: int| 0 <= x < sigma ==> (#[trigger] precomputed_successors@[n]@[x])@
                            == Seq::<usize>::empty(),
            decreases q.len() - i,
        {
            let mut empties: Vec<Vec<usize>> = Vec::new();
            let mut x: usize = 0;
            while x < sigma
                invariant
                    x <= sigma,
                    empties@.len() == x,
                    forall|y: int| 0 <= y < x ==> (#[trigger] empties@[y])@ == Seq::<usize>::empty(),
                decreases sigma - x,
            {
                empties.push(Vec::new());
                x = x + 1;
            }
            let ghost before = precomputed_successors@;
            precomputed_successors.insert(q[i], empties);
            proof {
                assert(q@.take(i + 1) =~= q@.take(i as int).push(q@[i as int]));
                assert forall|n: usize| #[trigger]
                    precomputed_successors@.contains_key(n) <==> q@.take(i + 1).contains(n) by {
                    lemma_push_contains(q@.take(i as int), q@[i as int], n);
                }
            }
            i = i + 1;
        }
        assert(q@.take(q.len() as int) =~= q@);
        assert forall|n: usize, x: usize| #[trigger] targets(t@.take(0), n, x) == Seq::<usize>::empty() by {
            assert(t@.take(0).len() == 0);
        }
        assert forall|n: usize| #[trigger] q@.contains(n) implies precomputed_successors@.contains_key(n)
            && precomputed_successors@[n]@.len() == sigma by {}

        let mut k: usize = 0;
        while k < t.len()
            invariant
                k <= t.len(),
                parts_valid(q@, sigma, t@, q0, f@),
                forall|n: usize| #[trigger] precomputed_successors@.contains_key(n) <==> q@.contains(n),
                forall|n: usize| #[trigger]
                    q@.contains(n) ==> precomputed_successors@[n]@.len() == sigma && forall|x: int|
                        0 <= x < sigma ==> (#[trigger] precomputed_successors@[n]@[x])@ == targets(
                            t@.take(k as int),
                            n,
                            x as usize,
                        ),
            decreases t.len() - k,
        {
            let (n1, x, n2) = t[k];
            assert(q@.contains(t@[k as int].0) && t@[k as int].1 < sigma);
            let mut row = precomputed_successors.remove(&n1).unwrap();
            let mut cell = row[x].clone();
            assert(cell@ =~= row@[x as int]@);
            let present = contains(&cell, n2);
            if !present {
                cell.push(n2);
            }
            let ghost old_row = row@;
            row.set(x, cell);
            precomputed_successors.insert(n1, row);
            proof {
                let tk = t@.take(k as int);
                let tk1 = t@.take(k + 1);
                assert(tk1.drop_last() =~= tk);
                assert(tk1.last() == t@[k as int]);
                assert forall|n: usize| #[trigger]
                    q@.contains(n) implies precomputed_successors@[n]@.len() == sigma && forall|y: int|
                        0 <= y < sigma ==> (#[trigger] precomputed_successors@[n]@[y])@ == targets(
                            tk1,
                            n,
                            y as usize,
                        ) by {
                    assert forall|y: int| 0 <= y < sigma implies (#[trigger] precomputed_successors@[n]@[y])@
                        == targets(tk1, n, y as usize) by {
                        if n == n1 && y == x {
                        } else if n == n1 {
                            assert(precomputed_successors@[n]@[y] == old_row[y]);
                        }
                    }
                }
            }
            k = k + 1;
        }
        assert(t@.take(t.len() as int) =~= t@);
        FA { q, sigma, t, q0, f, precomputed_successors }
    }

    /// Builds an automaton directly from its parts, successor lists included.
    pub fn from_raw(
        q: Vec<usize>,
        sigma: usize,
        t: Vec<Edge>,
        q0: usize,
        f: Vec<usize>,
        precomputed_successors: HashMap<usize, Vec<Vec<usize>>>,
    ) -> (r: FA)
        requires
            parts_valid(q@, sigma, t@, q0, f@),
        ensures
            r.q@ == q@,
            r.sigma == sigma,
            r.t@ == t@,
            r.q0 == q0,
            r.f@ == f@,
            r.precomputed_successors@ == precomputed_successors@,
    {
        FA { q, sigma, t, q0, f, precomputed_successors }
    }

    /// The nodes that follow `n1` capturing `s`.
    pub fn edges_of_node_with_state(&self, n1: usize, s: usize) -> (r: &Vec<usize>)
        requires
            self.wf(),
            self.q@.contains(n1),
            s < self.sigma,
        ensures
            r@ == self.succ(n1, s),
    {
        let row = self.precomputed_successors.get(&n1).unwrap();
        &row[s]
    }

    /// All the nodes that follow `n1`, letter by letter.
    pub fn edges_of_node(&self, n1: usize) -> (r: Vec<usize>)
        requires
            self.wf(),
            self.q@.contains(n1),
        ensures
            r@ == captures(self.t@, n1, self.sigma as nat).map_values(|c: (usize, usize)| c.1),
    {
        let mut out: Vec<usize> = Vec::new();
        let mut s: usize = 0;
        while s < self.sigma
            invariant
                self.wf(),
                self.q@.contains(n1),
                s <= self.sigma,
                out@ == captures(self.t@, n1, s as nat).map_values(|c: (usize, usize)| c.1),
            decreases self.sigma - s,
        {
            let succ = self.edges_of_node_with_state(n1, s);
            let ghost before = out@;
            let mut j: usize = 0;
            while j < succ.len()
                invariant
                    j <= succ.len(),
                    out@ == before + succ@.take(j as int),
                decreases succ.len() - j,
            {
                out.push(succ[j]);
                assert(succ@.take(j + 1) =~= succ@.take(j as int).push(succ@[j as int]));
                j = j + 1;
            }
            assert(succ@.take(succ.len() as int) =~= succ@);
            assert(captures(self.t@, n1, (s + 1) as nat) == captures(self.t@, n1, s as nat) + targets(
                self.t@,
                n1,
                s,
            ).map_values(|m: usize| (s, m)));
            assert(out@ =~= captures(self.t@, n1, (s + 1) as nat).map_values(|c: (usize, usize)| c.1));
            s = s + 1;
        }
        out
    }

    /// All the nodes that follow `n1`, each with the letter it is reached by.
    pub fn edges_of_node_capturing(&self, n1: usize) -> (r: Vec<(usize, usize)>)
        requires
            self.wf(),
            self.q@.contains(n1),
        ensures
            r@ == captures(self.t@, n1, self.sigma as nat),
    {
        let mut out: Vec<(usize, usize)> = Vec::new();
        let mut s: usize = 0;
        while s < self.sigma
            invariant
                self.wf(),
                self.q@.contains(n1),
                s <= self.sigma,
                out@ == captures(self.t@, n1, s as nat),
            decreases self.sigma - s,
        {
            let succ = self.edges_of_node_with_state(n1, s);
            let ghost before = out@;
            let mut j: usize = 0;
            while j < succ.len()
                invariant
                    j <= succ.len(),
                    out@ == before + succ@.take(j as int).map_values(|m: usize| (s, m)),
                decreases succ.len() - j,
            {
                out.push((s, succ[j]));
                assert(succ@.take(j + 1).map_values(|m: usize| (s, m)) =~= succ@.take(j as int).map_values(
                    |m: usize| (s, m),
                ).push((s, succ@[j as int])));
                j = j + 1;
            }
            assert(succ@.take(succ.len() as int) =~= succ@);
            assert(out@ =~= captures(self.t@, n1, (s + 1) as nat));
            s = s + 1;
        }
        out
    }

    /// Every path of `iters` more steps from the end of `node`, with what it
    /// captures; the paths come in the order of the choices made at each step.
    pub fn edge_tree(&self, node: Walk, iters: usize) -> (r: Vec<Walk>)
        requires
            self.wf(),
            1 <= iters,
            node.1@.len() > 0,
            self.q@.contains(node.1@.last()),
        ensures
            walk_views(r@) == walk_tree(self.t@, self.sigma, (node.0@, node.1@), iters as nat),
    {
        let ghost p0 = (node.0@, node.1@);
        let mut level: Vec<Walk> = Vec::new();
        level.push(node);
        assert(walk_views(level@) =~= seq![p0]);
        let mut k: usize = 0;
        while k < iters
            invariant
                self.wf(),
                k <= iters,
                walk_views(level@) == walk_tree(self.t@, self.sigma, p0, k as nat),
                forall|i: int|
                    0 <= i < level@.len() ==> (#[trigger] level@[i]).1@.len() > 0 && self.q@.contains(
                        level@[i].1@.last(),
                    ),
            decreases iters - k,
        {
            let mut next: Vec<Walk> = Vec::new();
            let mut j: usize = 0;
            assert(walk_views(level@).take(0) =~= Seq::<(Seq<usize>, Seq<usize>)>::empty());
            assert(walk_views(next@) =~= Seq::<(Seq<usize>, Seq<usize>)>::empty());
            while j < level.len()
                invariant
                    self.wf(),
                    j <= level.len(),
                    walk_views(next@) == expand(self.t@, self.sigma, walk_views(level@).take(j as int)),
                    forall|i: int|
                        0 <= i < level@.len() ==> (#[trigger] level@[i]).1@.len() > 0 && self.q@.contains(
                            level@[i].1@.last(),
                        ),
                    forall|i: int|
                        0 <= i < next@.len() ==> (#[trigger] next@[i]).1@.len() > 0 && self.q@.contains(
                            next@[i].1@.last(),
                        ),
                decreases level.len() - j,
            {
                let w = &level[j];
                assert(level@[j as int].1@.len() > 0);
                let last = w.1[w.1.len() - 1];
                let caps = self.edges_of_node_capturing(last);
                let ghost before = next@;
                let ghost pj = walk_views(level@)[j as int];
                assert(pj == (w.0@, w.1@));
                let mut c: usize = 0;
                while c < caps.len()
                    invariant
                        self.wf(),
                        c <= caps.len(),
                        caps@ == captures(self.t@, last, self.sigma as nat),
                        pj == (w.0@, w.1@),
                        w.1@.len() > 0,
                        last == w.1@.last(),
                        walk_views(next@) == walk_views(before) + extend_walk(self.t@, self.sigma, pj).take(
                            c as int,
                        ),
                        forall|i: int|
                            0 <= i < next@.len() ==> (#[trigger] next@[i]).1@.len() > 0 && self.q@.contains(
                                next@[i].1@.last(),
                            ),
                    decreases caps.len() - c,
                {
                    let (x, n2) = caps[c];
                    proof {
                        lemma_captures_edge(self.t@, last, self.sigma as nat, c as int);
                        let e = choose|e: int| 0 <= e < self.t@.len() && #[trigger] self.t@[e] == (last, x, n2);
                        assert(self.q@.contains(self.t@[e].2));
                    }
                    let mut new_ns = w.1.clone();
                    assert(new_ns@ =~= w.1@);
                    new_ns.push(n2);
                    let mut new_xs = w.0.clone();
                    assert(new_xs@ =~= w.0@);
                    new_xs.push(x);
                    let ghost prev = next@;
                    next.push((new_xs, new_ns));
                    proof {
                        assert(walk_views(next@) =~= walk_views(prev).push((w.0@.push(x), w.1@.push(n2))));
                        assert(extend_walk(self.t@, self.sigma, pj).take(c + 1) =~= extend_walk(
                            self.t@,
                            self.sigma,
                            pj,
                        ).take(c as int).push((w.0@.push(x), w.1@.push(n2))));
                        assert(next@[next@.len() - 1].1@ == w.1@.push(n2));
                    }
                    c = c + 1;
                }
                proof {
                    assert(extend_walk(self.t@, self.sigma, pj).take(caps.len() as int) =~= extend_walk(
                        self.t@,
                        self.sigma,
                        pj,
                    ));
                    let vj1 = walk_views(level@).take(j + 1);
                    assert(vj1.drop_last() =~= walk_views(level@).take(j as int));
                    assert(vj1.last() == pj);
                }
                j = j + 1;
            }
            assert(walk_views(level@).take(level.len() as int) =~= walk_views(level@));
            level = next;
            k = k + 1;
        }
        level
    }

    /// Every path of `iters` steps from `node`, with what it captures.
    pub fn edge_tree_of_node(&self, node: usize, iters: usize) -> (r: Vec<Walk>)
        requires
            self.wf(),
            1 <= iters,
            self.q@.contains(node),
        ensures
            walk_views(r@) == walk_tree(self.t@, self.sigma, (Seq::empty(), seq![node]), iters as nat),
    {
        let xs: Vec<usize> = Vec::with_capacity(iters - 1);
        let mut ns: Vec<usize> = Vec::with_capacity(iters);
        ns.push(node);
        assert(xs@ =~= Seq::<usize>::empty());
        assert(ns@ =~= seq![node]);
        self.edge_tree((xs, ns), iters)
    }

    /// The same automaton with each node renamed to its position in `q` (its
    /// last position, for a node listed twice).
    pub fn to_usize_fa(&self) -> (r: FA)
        requires
            self.wf(),
        ensures
            r.q@ == positions(self.q@.len()),
            r.sigma == self.sigma,
            r.t@ == self.t@.map_values(|e: Edge| rename_edge(pos_in(self.q@), e)),
            r.q0 == last_index(self.q@, self.q0),
            r.f@ == self.f@.map_values(pos_in(self.q@)),
            forall|k: usize| #[trigger] r.precomputed_successors@.contains_key(k) <==> exists|n: usize|
                self.q@.contains(n) && k == last_index(self.q@, n),
            forall|n: usize| #[trigger]
                self.q@.contains(n) ==> r.precomputed_successors@[last_index(self.q@, n) as usize]@.len()
                    == self.sigma && forall|x: int|
                    0 <= x < self.sigma ==> (#[trigger] r.precomputed_successors@[last_index(
                        self.q@,
                        n,
                    ) as usize]@[x])@ == self.succ(n, x as usize).map_values(pos_in(self.q@)),
            self.q@.no_duplicates() ==> r.wf(),
    {
        let mut map: HashMap<usize, usize> = HashMap::new();
        let mut i: usize = 0;
        while i < self.q.len()
            invariant
                i <= self.q.len(),
                forall|n: usize| #[trigger] map@.contains_key(n) <==> self.q@.take(i as int).contains(n),
                forall|n: usize| #[trigger] map@.contains_key(n) ==> map@[n] == last_index(self.q@.take(i as int), n),
            decreases self.q.len() - i,
        {
            map.insert(self.q[i], i);
            proof {
                let qi = self.q@.take(i as int);
                let qi1 = self.q@.take(i + 1);
                assert(qi1 =~= qi.push(self.q@[i as int]));
                assert(qi1.drop_last() =~= qi);
                assert forall|n: usize| #[trigger] map@.contains_key(n) <==> qi1.contains(n) by {
                    lemma_push_contains(qi, self.q@[i as int], n);
                }
            }
            i = i + 1;
        }
        assert(self.q@.take(self.q.len() as int) =~= self.q@);
        proof {
            assert forall|n: usize| #[trigger] self.q@.contains(n) implies map@.contains_key(n) && map@[n] == pos_in(self.q@)(n)
                && 0 <= last_index(self.q@, n) < self.q@.len() by {
                lemma_last_index(self.q@, n);
                assert(self.q@.take(self.q.len() as int).contains(n));
                assert(map@.contains_key(n));
                assert(map@[n] == last_index(self.q@, n));
            }
        }

        let mut new_q: Vec<usize> = Vec::new();
        let mut i: usize = 0;
        while i < self.q.len()
            invariant
                i <= self.q.len(),
                new_q@ == positions(i as nat),
            decreases self.q.len() - i,
        {
            new_q.push(i);
            assert(new_q@ =~= positions((i + 1) as nat));
            i = i + 1;
        }

        let mut new_t: Vec<Edge> = Vec::new();
        let mut k: usize = 0;
        while k < self.t.len()
            invariant
                self.wf(),
                k <= self.t.len(),
                forall|n: usize| #[trigger] self.q@.contains(n) ==> map@.contains_key(n) && map@[n] == pos_in(self.q@)(n),
                new_t@ == self.t@.take(k as int).map_values(|e: Edge| rename_edge(pos_in(self.q@), e)),
            decreases self.t.len() - k,
        {
            let (n1, x, n2) = self.t[k];
            assert(self.q@.contains(self.t@[k as int].0) && self.q@.contains(self.t@[k as int].2));
            let a = *map.get(&n1).unwrap();
            let b = *map.get(&n2).unwrap();
            new_t.push((a, x, b));
            assert(self.t@.take(k + 1).map_values(|e: Edge| rename_edge(pos_in(self.q@), e)) =~= self.t@.take(
                k as int,
            ).map_values(|e: Edge| rename_edge(pos_in(self.q@), e)).push(rename_edge(pos_in(self.q@), self.t@[k as int])));
            k = k + 1;
        }
        assert(self.t@.take(self.t.len() as int) =~= self.t@);

        let new_q0 = *map.get(&self.q0).unwrap();

        let mut new_f: Vec<usize> = Vec::new();
        let mut k: usize = 0;
        while k < self.f.len()
            invariant
                self.wf(),
                k <= self.f.len(),
                forall|n: usize| #[trigger] self.q@.contains(n) ==> map@.contains_key(n) && map@[n] == pos_in(self.q@)(n),
                new_f@ == self.f@.take(k as int).map_values(pos_in(self.q@)),
            decreases self.f.len() - k,
        {
            assert(self.q@.contains(self.f@[k as int]));
            let a = *map.get(&self.f[k]).unwrap();
            new_f.push(a);
            assert(self.f@.take(k + 1).map_values(pos_in(self.q@)) =~= self.f@.take(k as int).map_values(pos_in(self.q@)).push(
                pos_in(self.q@)(self.f@[k as int]),
            ));
            k = k + 1;
        }
        assert(self.f@.take(self.f.len() as int) =~= self.f@);

        let mut new_ps: HashMap<usize, Vec<Vec<usize>>> = HashMap::new();
        let mut i: usize = 0;
        while i < self.q.len()
            invariant
                self.wf(),
                i <= self.q.len(),
                forall|n: usize| #[trigger] self.q@.contains(n) ==> map@.contains_key(n) && map@[n] == pos_in(self.q@)(n)
                    && 0 <= last_index(self.q@, n) < self.q@.len(),
                forall|k: usize| #[trigger] new_ps@.contains_key(k) <==> exists|j: int|
                    0 <= j < i && k == pos_in(self.q@)(self.q@[j]),
                forall|j: int|
                    0 <= j < i ==> (#[trigger] new_ps@[pos_in(self.q@)(self.q@[j])])@.len() == self.sigma && forall|x: int|
                        0 <= x < self.sigma ==> (#[trigger] new_ps@[pos_in(self.q@)(self.q@[j])]@[x])@ == self.succ(
                            self.q@[j],
                            x as usize,
                        ).map_values(pos_in(self.q@)),
            decreases self.q.len() - i,
        {
            let n = self.q[i];
            assert(self.q@.contains(n));
            let mut row: Vec<Vec<usize>> = Vec::new();
            let mut x: usize = 0;
            while x < self.sigma
                invariant
                    self.wf(),
                    self.q@.contains(n),
                    x <= self.sigma,
                    forall|n: usize| #[trigger] self.q@.contains(n) ==> map@.contains_key(n) && map@[n] == pos_in(self.q@)(n),
                    row@.len() == x,
                    forall|y: int| 0 <= y < x ==> (#[trigger] row@[y])@ == self.succ(n, y as usize).map_values(pos_in(self.q@)),
                decreases self.sigma - x,
            {
                let succ = self.edges_of_node_with_state(n, x);
                let mut cell: Vec<usize> = Vec::new();
                let mut j: usize = 0;
                while j < succ.len()
                    invariant
                        self.wf(),
                        self.q@.contains(n),
                        x < self.sigma,
                        succ@ == self.succ(n, x),
                        forall|n: usize| #[trigger] self.q@.contains(n) ==> map@.contains_key(n) && map@[n] == pos_in(self.q@)(n),
                        j <= succ.len(),
                        cell@ == succ@.take(j as int).map_values(pos_in(self.q@)),
                    decreases succ.len() - j,
                {
                    proof {
                        lemma_targets_edge(self.t@, n, x, j as int);
                        let e = choose|e: int| 0 <= e < self.t@.len() && #[trigger] self.t@[e] == (n, x, succ@[j as int]);
                        assert(self.q@.contains(self.t@[e].2));
                    }
                    let m = *map.get(&succ[j]).unwrap();
                    cell.push(m);
                    assert(succ@.take(j + 1).map_values(pos_in(self.q@)) =~= succ@.take(j as int).map_values(pos_in(self.q@)).push(
                        pos_in(self.q@)(succ@[j as int]),
                    ));
                    j = j + 1;
                }
                assert(succ@.take(succ.len() as int) =~= succ@);
                row.push(cell);
                x = x + 1;
            }
            let key = *map.get(&n).unwrap();
            new_ps.insert(key, row);
            proof {
                assert forall|k: usize| #[trigger] new_ps@.contains_key(k) <==> exists|j: int|
                    0 <= j < i + 1 && k == pos_in(self.q@)(self.q@[j]) by {
                    if k == key {
                        assert(k == pos_in(self.q@)(self.q@[i as int]));
                    }
                }
                assert forall|j: int| 0 <= j < i + 1 implies (#[trigger] new_ps@[pos_in(self.q@)(self.q@[j])])@.len() == self.sigma
                    && forall|x: int|
                        0 <= x < self.sigma ==> (#[trigger] new_ps@[pos_in(self.q@)(self.q@[j])]@[x])@ == self.succ(
                            self.q@[j],
                            x as usize,
                        ).map_values(pos_in(self.q@)) by {
                    if pos_in(self.q@)(self.q@[j]) == key {
                        lemma_last_index(self.q@, n);
                        lemma_last_index(self.q@, self.q@[j]);
                        assert(self.q@.contains(self.q@[j]));
                        assert(key == pos_in(self.q@)(n));
                        assert(pos_in(self.q@)(self.q@[j]) as int == last_index(self.q@, self.q@[j]));
                        assert(pos_in(self.q@)(n) as int == last_index(self.q@, n));
                        assert(last_index(self.q@, self.q@[j]) == last_index(self.q@, n));
                        assert(self.q@[j] == n);
                    }
                }
            }
            i = i + 1;
        }
        proof {
            assert forall|k: usize| #[trigger] new_ps@.contains_key(k) <==> exists|n: usize|
                self.q@.contains(n) && k == last_index(self.q@, n) by {
                if new_ps@.contains_key(k) {
                    let j = choose|j: int| 0 <= j < self.q@.len() && k == pos_in(self.q@)(self.q@[j]);
                    assert(self.q@.contains(self.q@[j]));
                }
                if exists|n: usize| self.q@.contains(n) && k == last_index(self.q@, n) {
                    let n = choose|n: usize| self.q@.contains(n) && k == last_index(self.q@, n);
                    let j = choose|j: int| 0 <= j < self.q@.len() && #[trigger] self.q@[j] == n;
                    assert(k == pos_in(self.q@)(self.q@[j]));
                }
            }
            assert forall|n: usize| #[trigger] self.q@.contains(n) implies new_ps@[pos_in(self.q@)(n)]@.len() == self.sigma
                && forall|x: int| 0 <= x < self.sigma ==> (#[trigger] new_ps@[pos_in(self.q@)(n)]@[x])@ == self.succ(
                    n,
                    x as usize,
                ).map_values(pos_in(self.q@)) by {
                let j = choose|j: int| 0 <= j < self.q@.len() && #[trigger] self.q@[j] == n;
            }
            assert(parts_valid(new_q@, self.sigma, new_t@, new_q0, new_f@)) by {
                assert(new_q@.contains(new_q0)) by {
                    assert(new_q@[new_q0 as int] == new_q0);
                }
                assert forall|i: int| 0 <= i < new_f@.len() implies new_q@.contains(#[trigger] new_f@[i]) by {
                    assert(self.q@.contains(self.f@[i]));
                    assert(new_q@[new_f@[i] as int] == new_f@[i]);
                }
                assert forall|i: int| 0 <= i < new_t@.len() implies new_q@.contains((#[trigger] new_t@[i]).0)
                    && new_q@.contains(new_t@[i].2) && new_t@[i].1 < self.sigma by {
                    assert(self.q@.contains(self.t@[i].0) && self.q@.contains(self.t@[i].2));
                    assert(new_q@[new_t@[i].0 as int] == new_t@[i].0);
                    assert(new_q@[new_t@[i].2 as int] == new_t@[i].2);
                }
            }
            if self.q@.no_duplicates() {
                lemma_last_index(self.q@, self.q0);
                assert forall|a: usize, b: usize| self.q@.contains(a) && self.q@.contains(b) && #[trigger] pos_in(self.q@)(a)
                    == #[trigger] pos_in(self.q@)(b) implies a == b by {
                    lemma_last_index(self.q@, a);
                    lemma_last_index(self.q@, b);
                }
                assert forall|i: int| 0 <= i < self.t@.len() implies self.q@.contains((#[trigger] self.t@[i]).0)
                    && self.q@.contains(self.t@[i].2) by {}
                assert forall|k: usize| #[trigger] new_ps@.contains_key(k) <==> new_q@.contains(k) by {
                    if new_q@.contains(k) {
                        let j = choose|j: int| 0 <= j < new_q@.len() && #[trigger] new_q@[j] == k;
                        lemma_last_index(self.q@, self.q@[j]);
                        assert(self.q@.contains(self.q@[j]));
                        assert(k == pos_in(self.q@)(self.q@[j]));
                    }
                    if new_ps@.contains_key(k) {
                        let n = choose|n: usize| self.q@.contains(n) && k == last_index(self.q@, n);
                        lemma_last_index(self.q@, n);
                        assert(new_q@[k as int] == k);
                    }
                }
                assert forall|k: usize| #[trigger] new_q@.contains(k) implies new_ps@[k]@.len() == self.sigma
                    && forall|x: int| 0 <= x < self.sigma ==> (#[trigger] new_ps@[k]@[x])@ == targets(
                        new_t@,
                        k,
                        x as usize,
                    ) by {
                    let j = choose|j: int| 0 <= j < new_q@.len() && #[trigger] new_q@[j] == k;
                    let n = self.q@[j];
                    assert(self.q@.contains(n));
                    lemma_last_index(self.q@, n);
                    assert(pos_in(self.q@)(n) == k);
                    assert forall|x: int| 0 <= x < self.sigma implies (#[trigger] new_ps@[k]@[x])@ == targets(
                        new_t@,
                        k,
                        x as usize,
                    ) by {
                        lemma_targets_rename(self.t@, self.q@, pos_in(self.q@), n, x as usize);
                    }
                }
            }
        }
        FA::from_raw(new_q, self.sigma, new_t, new_q0, new_f, new_ps)
    }
}

/// `s.push(a)` contains `n` exactly when `s` does or `n == a`.
pub proof fn lemma_push_contains(s: Seq<usize>, a: usize, n: usize)
    ensures
        s.push(a).contains(n) == (s.contains(n) || n == a),
{
    if s.contains(n) {
        let j = choose|j: int| 0 <= j < s.len() && #[trigger] s[j] == n;
        assert(s.push(a)[j] == n);
    }
    if n == a {
        assert(s.push(a)[s.len() as int] == n);
    }
    if s.push(a).contains(n) && n != a {
        let j = choose|j: int| 0 <= j < s.len() + 1 && #[trigger] s.push(a)[j] == n;
        assert(s[j] == n);
    }
}

/// Whether `x` occurs in `v`.
pub fn contains(v: &Vec<usize>, x: usize) -> (r: bool)
    ensures
        r == v@.contains(x),
{
    let mut i: usize = 0;
    while i < v.len()
        invariant
            i <= v.len(),
            forall|j: int| 0 <= j < i ==> v@[j] != x,
        decreases v.len() - i,
    {
        if v[i] == x {
            return true;
        }
        i = i + 1;
    }
    false
}

} // verus!
