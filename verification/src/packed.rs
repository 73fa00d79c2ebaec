//! Walks whose letters are packed into the bits of a byte, the most recent
//! letter lowest, and the step of a two-letter rule built on them.
use vstd::prelude::*;
use crate::fa::{FA, Edge, captures, lemma_captures_edge, parts_valid, positions};
use crate::bits::{popcount, u64_count_ones};
use crate::net::vec_eq;

verus! {

/// A walk with its letters packed into a byte, and the nodes it visits.
pub type PackedWalk = (u8, Vec<usize>);

/// The letters `xs` with letter `x` appended: shifted up by one bit, with `x`
/// put into the lowest bit.
pub open spec fn pack(xs: u8, x: usize) -> u8 {
    (xs << 1u8) | (x as u8)
}

/// The walks of `v` as pairs of letters and nodes.
pub open spec fn packed_views(v: Seq<PackedWalk>) -> Seq<(u8, Seq<usize>)> {
    v.map_values(|w: PackedWalk| (w.0, w.1@))
}

/// The walks one step longer than `p`, in the order of `captures`.
pub open spec fn packed_children(t: Seq<Edge>, sigma: usize, p: (u8, Seq<usize>)) -> Seq<(u8, Seq<usize>)> {
    captures(t, p.1.last(), sigma as nat).map_values(|c: (usize, usize)| (pack(p.0, c.0), p.1.push(c.1)))
}

/// The extensions of `p` by `i + 1` steps, in the order in which a search
/// that keeps its pending walks on a stack finds them: the last step's
/// choices in order, the earlier steps' choices last first.
pub open spec fn packed_tree(t: Seq<Edge>, sigma: usize, p: (u8, Seq<usize>), i: nat) -> Seq<(u8, Seq<usize>)>
    decreases i, 0nat, 0nat,
{
    if i == 0 {
        packed_children(t, sigma, p)
    } else {
        packed_forest(t, sigma, packed_children(t, sigma, p), (i - 1) as nat)
    }
}

/// The extensions by `i + 1` steps of each walk of `ps`, the last walk first.
pub open spec fn packed_forest(t: Seq<Edge>, sigma: usize, ps: Seq<(u8, Seq<usize>)>, i: nat) -> Seq<(u8, Seq<usize>)>
    decreases i, 1nat, ps.len(),
{
    if ps.len() == 0 {
        Seq::empty()
    } else {
        packed_tree(t, sigma, ps.last(), i) + packed_forest(t, sigma, ps.drop_last(), i)
    }
}

/// Every walk of `v` has a last node, and that node is a node of `q`.
pub open spec fn ends_in(v: Seq<PackedWalk>, q: Seq<usize>) -> bool {
    forall|k: int| 0 <= k < v.len() ==> (#[trigger] v[k]).1@.len() > 0 && q.contains(v[k].1@.last())
}

impl FA {
    /// The walks one step longer than `p`.
    fn packed_children_of(&self, p: &PackedWalk) -> (r: Vec<PackedWalk>)
        requires
            self.wf(),
            p.1@.len() > 0,
            self.q@.contains(p.1@.last()),
        ensures
            packed_views(r@) == packed_children(self.t@, self.sigma, (p.0, p.1@)),
            ends_in(r@, self.q@),
    {
        let last = p.1[p.1.len() - 1];
        let caps = self.edges_of_node_capturing(last);
        let ghost pv = (p.0, p.1@);
        let mut children: Vec<PackedWalk> = Vec::new();
        let mut c: usize = 0;
        while c < caps.len()
            invariant
                self.wf(),
                pv == (p.0, p.1@),
                p.1@.len() > 0,
                last == p.1@.last(),
                caps@ == captures(self.t@, last, self.sigma as nat),
                c <= caps.len(),
                packed_views(children@) == packed_children(self.t@, self.sigma, pv).take(c as int),
                ends_in(children@, self.q@),
            decreases caps.len() - c,
        {
            let (x, n2) = caps[c];
            proof {
                lemma_captures_edge(self.t@, last, self.sigma as nat, c as int);
                let e = choose|e: int| 0 <= e < self.t@.len() && #[trigger] self.t@[e] == (last, x, n2);
                assert(self.q@.contains(self.t@[e].2));
            }
            let mut ns = p.1.clone();
            assert(ns@ =~= p.1@);
            ns.push(n2);
            let xs = (p.0 << 1) | (x as u8);
            let ghost before = children@;
            children.push((xs, ns));
            proof {
                assert(packed_views(children@) =~= packed_views(before).push((pack(p.0, x), p.1@.push(n2))));
                assert(packed_children(self.t@, self.sigma, pv).take(c + 1) =~= packed_children(
                    self.t@,
                    self.sigma,
                    pv,
                ).take(c as int).push((pack(p.0, x), p.1@.push(n2))));
                assert forall|k: int| 0 <= k < children@.len() implies (#[trigger] children@[k]).1@.len() > 0
                    && self.q@.contains(children@[k].1@.last()) by {
                    if k < before.len() {
                        assert(children@[k] == before[k]);
                    }
                }
            }
            c = c + 1;
        }
        assert(packed_children(self.t@, self.sigma, pv).take(caps.len() as int) =~= packed_children(
            self.t@,
            self.sigma,
            pv,
        ));
        children
    }

    /// The extensions of `p` by `i + 1` steps, in the order of `packed_tree`.
    fn packed_walks(&self, p: PackedWalk, i: usize) -> (r: Vec<PackedWalk>)
        requires
            self.wf(),
            p.1@.len() > 0,
            self.q@.contains(p.1@.last()),
        ensures
            packed_views(r@) == packed_tree(self.t@, self.sigma, (p.0, p.1@), i as nat),
            ends_in(r@, self.q@),
        decreases i,
    {
        let mut children = self.packed_children_of(&p);
        if i == 0 {
            return children;
        }
        let ghost all = packed_views(children@);
        let mut out: Vec<PackedWalk> = Vec::new();
        assert(packed_views(out@) =~= Seq::<(u8, Seq<usize>)>::empty());
        while children.len() > 0
            invariant
                self.wf(),
                i > 0,
                packed_views(out@) + packed_forest(self.t@, self.sigma, packed_views(children@), (i - 1) as nat)
                    == packed_forest(self.t@, self.sigma, all, (i - 1) as nat),
                ends_in(children@, self.q@),
                ends_in(out@, self.q@),
            decreases children@.len(),
        {
            let ghost cv = packed_views(children@);
            let ghost ov = packed_views(out@);
            let ghost cold = children@;
            let c = children.pop().unwrap();
            assert(packed_views(children@) =~= cv.drop_last());
            assert(cv.last() == (c.0, c.1@));
            assert(c.1@.len() > 0 && self.q@.contains(c.1@.last())) by {
                assert(cold[cold.len() - 1] == c);
            }
            let mut sub = self.packed_walks(c, i - 1);
            let ghost sv = packed_views(sub@);
            let ghost ob = out@;
            let ghost sb = sub@;
            out.append(&mut sub);
            proof {
                assert(packed_views(out@) =~= ov + sv);
                assert(ov + sv + packed_forest(self.t@, self.sigma, cv.drop_last(), (i - 1) as nat) =~= ov + (sv
                    + packed_forest(self.t@, self.sigma, cv.drop_last(), (i - 1) as nat)));
                assert forall|k: int| 0 <= k < out@.len() implies (#[trigger] out@[k]).1@.len() > 0 && self.q@.contains(
                    out@[k].1@.last(),
                ) by {
                    if k < ob.len() {
                        assert(out@[k] == ob[k]);
                    } else {
                        assert(out@[k] == sb[k - ob.len()]);
                    }
                }
            }
        }
        assert(packed_views(children@) =~= Seq::<(u8, Seq<usize>)>::empty());
        assert(packed_views(out@) + Seq::<(u8, Seq<usize>)>::empty() =~= packed_views(out@));
        out
    }

    /// Every path of `iters` more steps from the end of `edge`, with its letters
    /// packed onto those of `edge`, in the order a search that keeps its pending
    /// paths on a stack finds them (see `packed_tree`).
    pub fn edge_tree_bin(&self, edge: PackedWalk, iters: usize) -> (r: Vec<PackedWalk>)
        requires
            self.wf(),
            1 <= iters,
            edge.1@.len() > 0,
            self.q@.contains(edge.1@.last()),
        ensures
            packed_views(r@) == packed_tree(self.t@, self.sigma, (edge.0, edge.1@), (iters - 1) as nat),
            ends_in(r@, self.q@),
    {
        self.packed_walks(edge, iters - 1)
    }
}

/// The packed letters of the walks of `k + 1` steps from each node of `q` in
/// turn, starting from no letters; each node's walks in the order of
/// `packed_tree`.
pub open spec fn packed_words(t: Seq<Edge>, sigma: usize, q: Seq<usize>, k: nat) -> Seq<u8>
    decreases q.len(),
{
    if q.len() == 0 {
        Seq::empty()
    } else {
        packed_words(t, sigma, q.drop_last(), k) + packed_tree(t, sigma, (0u8, seq![q.last()]), k).map_values(
            |w: (u8, Seq<usize>)| w.0,
        )
    }
}

/// How many times `w` occurs in `s`.
pub open spec fn occurrences(s: Seq<u8>, w: u8) -> nat
    decreases s.len(),
{
    if s.len() == 0 {
        0
    } else {
        occurrences(s.drop_last(), w) + if s.last() == w {
            1nat
        } else {
            0nat
        }
    }
}

/// The lowest `neighbors - 1` bits set.
pub open spec fn step_mask(neighbors: usize) -> u8 {
    ((1u8 << ((neighbors - 1) as u8)) - 1) as u8
}

/// The edges planned from node `n1`: reading 0, then reading 1, the letters of
/// `n1` with that letter appended lead to their bits under `mask`, once for
/// each time those bits are among the nodes `words`. Each edge is given as its
/// start, the letters the rule reads, and its end.
pub open spec fn node_plan(words: Seq<u8>, mask: u8, n1: u8) -> Seq<(u8, u8, u8)> {
    let a: u8 = n1 << 1u8;
    let b: u8 = ((n1 << 1u8) + 1) as u8;
    Seq::new(occurrences(words, mask & a), |j: int| (n1, a, mask & a)) + Seq::new(
        occurrences(words, mask & b),
        |j: int| (n1, b, mask & b),
    )
}

/// The edges planned from each node of `upto` in turn.
pub open spec fn step_plan(words: Seq<u8>, mask: u8, upto: Seq<u8>) -> Seq<(u8, u8, u8)>
    decreases upto.len(),
{
    if upto.len() == 0 {
        Seq::empty()
    } else {
        step_plan(words, mask, upto.drop_last()) + node_plan(words, mask, upto.last())
    }
}

/// `r` is the step of `rule` on the words of two letters read along `fa`:
/// its nodes are the packed letters `words` of the walks of `neighbors - 1`
/// steps from each node in turn (see `packed_words`); its edges follow
/// `step_plan`, each capturing what the rule makes of its letters; the first
/// word starts and is the only halting node.
pub open spec fn is_packed_step<F: Fn(u8) -> usize>(fa: FA, neighbors: usize, rule: F, r: FA) -> bool {
    let words = packed_words(fa.t@, fa.sigma, fa.q@, (neighbors - 2) as nat);
    let plan = step_plan(words, step_mask(neighbors), words);
    &&& r.wf()
    &&& r.q@ == words.map_values(|w: u8| w as usize)
    &&& r.sigma == 2
    &&& r.q0 == words[0] as usize
    &&& r.f@ == seq![words[0] as usize]
    &&& r.t@.len() == plan.len()
    &&& forall|j: int|
        0 <= j < plan.len() ==> (#[trigger] r.t@[j]).0 == plan[j].0 as usize && r.t@[j].2 == plan[j].2 as usize
            && rule.ensures((plan[j].1,), r.t@[j].1)
}

/// Appends `count` copies of the edge `(n1, o, w)`.
fn push_copies(t: &mut Vec<Edge>, n1: u8, o: usize, w: u8, count: usize)
    ensures
        final(t)@ == old(t)@ + Seq::new(count as nat, |j: int| (n1 as usize, o, w as usize)),
{
    let ghost start = t@;
    let mut c: usize = 0;
    while c < count
        invariant
            c <= count,
            t@ == start + Seq::new(c as nat, |j: int| (n1 as usize, o, w as usize)),
        decreases count - c,
    {
        t.push((n1 as usize, o, w as usize));
        assert(t@ =~= start + Seq::new((c + 1) as nat, |j: int| (n1 as usize, o, w as usize)));
        c = c + 1;
    }
}

impl FA {
    /// One step of `rule` on the rows of two letters this automaton allows,
    /// with the words of the last `neighbors - 1` letters as nodes, packed into
    /// bytes (see `is_packed_step`).
    pub fn usize_dfa_step<F: Fn(u8) -> usize>(&self, neighbors: usize, rule: &F) -> (r: FA)
        requires
            self.wf(),
            self.sigma == 2,
            2 <= neighbors <= 7,
            forall|x: u8| #[trigger] rule.requires((x,)),
            forall|x: u8, o: usize| #[trigger] rule.ensures((x,), o) ==> o < 2,
            packed_words(self.t@, self.sigma, self.q@, (neighbors - 2) as nat).len() > 0,
        ensures
            is_packed_step(*self, neighbors, *rule, r),
    {
        let k = neighbors - 1;
        let ghost d = (neighbors - 2) as nat;
        let mut new_q: Vec<u8> = Vec::new();
        let mut i: usize = 0;
        assert(self.q@.take(0) =~= Seq::<usize>::empty());
        while i < self.q.len()
            invariant
                self.wf(),
                k == neighbors - 1,
                d == neighbors - 2,
                1 <= k,
                i <= self.q@.len(),
                new_q@ == packed_words(self.t@, self.sigma, self.q@.take(i as int), d),
            decreases self.q@.len() - i,
        {
            let mut ns: Vec<usize> = Vec::new();
            ns.push(self.q[i]);
            assert(ns@ =~= seq![self.q@[i as int]]);
            assert(self.q@.contains(self.q@[i as int]));
            let et = self.edge_tree_bin((0u8, ns), k);
            let ghost before = new_q@;
            let ghost ws = packed_views(et@).map_values(|w: (u8, Seq<usize>)| w.0);
            let mut j: usize = 0;
            while j < et.len()
                invariant
                    j <= et@.len(),
                    ws == packed_views(et@).map_values(|w: (u8, Seq<usize>)| w.0),
                    new_q@ == before + ws.take(j as int),
                decreases et@.len() - j,
            {
                new_q.push(et[j].0);
                assert(ws.take(j + 1) =~= ws.take(j as int).push(et@[j as int].0));
                j = j + 1;
            }
            proof {
                assert(ws.take(et@.len() as int) =~= ws);
                let q1 = self.q@.take(i + 1);
                assert(q1.drop_last() =~= self.q@.take(i as int));
                assert(q1.last() == self.q@[i as int]);
            }
            i = i + 1;
        }
        assert(self.q@.take(self.q@.len() as int) =~= self.q@);
        let ghost words = new_q@;

        let mut qmap: Vec<Vec<usize>> = Vec::new();
        let mut w: usize = 0;
        while w < 256
            invariant
                w <= 256,
                qmap@.len() == w,
                forall|v: int| 0 <= v < w ==> (#[trigger] qmap@[v])@.len() == 0,
            decreases 256 - w,
        {
            qmap.push(Vec::new());
            w = w + 1;
        }
        let mut i: usize = 0;
        while i < new_q.len()
            invariant
                words == new_q@,
                i <= words.len(),
                qmap@.len() == 256,
                forall|v: u8| (#[trigger] qmap@[v as int])@.len() == occurrences(words.take(i as int), v),
            decreases words.len() - i,
        {
            let v = new_q[i];
            let mut entry = qmap[v as usize].clone();
            assert(entry@ =~= qmap@[v as int]@);
            entry.push(i);
            let ghost old_map = qmap@;
            qmap.set(v as usize, entry);
            proof {
                let wi = words.take(i + 1);
                assert(wi.drop_last() =~= words.take(i as int));
                assert(wi.last() == v);
                assert forall|u: u8| (#[trigger] qmap@[u as int])@.len() == occurrences(wi, u) by {
                    if u != v {
                        assert(qmap@[u as int] == old_map[u as int]);
                    }
                }
            }
            i = i + 1;
        }
        assert(words.take(words.len() as int) =~= words);

        let shift: u8 = (neighbors - 1) as u8;
        assert((1u8 << shift) >= 1u8) by (bit_vector)
            requires
                1 <= shift <= 6,
        ;
        let qmask: u8 = (1u8 << shift) - 1;
        assert(qmask == step_mask(neighbors));
        let mut new_t: Vec<Edge> = Vec::new();
        let mut i: usize = 0;
        assert(words.take(0) =~= Seq::<u8>::empty());
        while i < new_q.len()
            invariant
                words == new_q@,
                i <= words.len(),
                qmap@.len() == 256,
                forall|v: u8| (#[trigger] qmap@[v as int])@.len() == occurrences(words, v),
                qmask == step_mask(neighbors),
                forall|x: u8| #[trigger] rule.requires((x,)),
                forall|x: u8, o: usize| #[trigger] rule.ensures((x,), o) ==> o < 2,
                new_t@.len() == step_plan(words, qmask, words.take(i as int)).len(),
                forall|j: int|
                    0 <= j < new_t@.len() ==> {
                        let pl = step_plan(words, qmask, words.take(i as int));
                        &&& (#[trigger] new_t@[j]).0 == pl[j].0 as usize
                        &&& new_t@[j].2 == pl[j].2 as usize
                        &&& rule.ensures((pl[j].1,), new_t@[j].1)
                        &&& words.contains(pl[j].0)
                        &&& words.contains(pl[j].2)
                        &&& new_t@[j].1 < 2
                    },
            decreases words.len() - i,
        {
            let n1 = new_q[i];
            let ghost before = new_t@;
            let ghost plan0 = step_plan(words, qmask, words.take(i as int));
            let xs: u8 = n1 << 1;
            let xs_o = rule(xs);
            let ca = qmap[(qmask & xs) as usize].len();
            push_copies(&mut new_t, n1, xs_o, qmask & xs, ca);
            let ghost mid = new_t@;
            assert((n1 << 1u8) <= 254u8) by (bit_vector);
            let xs: u8 = (n1 << 1) + 1;
            let xs_o2 = rule(xs);
            let cb = qmap[(qmask & xs) as usize].len();
            push_copies(&mut new_t, n1, xs_o2, qmask & xs, cb);
            proof {
                let wi = words.take(i + 1);
                assert(wi.drop_last() =~= words.take(i as int));
                assert(wi.last() == n1);
                let plan1 = step_plan(words, qmask, wi);
                let np = node_plan(words, qmask, n1);
                assert(plan1 == plan0 + np);
                assert(words.contains(n1)) by {
                    assert(words[i as int] == n1);
                }
                let a: u8 = n1 << 1u8;
                let b: u8 = ((n1 << 1u8) + 1) as u8;
                assert(ca == occurrences(words, qmask & a));
                assert(cb == occurrences(words, qmask & b));
                assert forall|j: int| 0 <= j < new_t@.len() implies {
                    &&& (#[trigger] new_t@[j]).0 == plan1[j].0 as usize
                    &&& new_t@[j].2 == plan1[j].2 as usize
                    &&& rule.ensures((plan1[j].1,), new_t@[j].1)
                    &&& words.contains(plan1[j].0)
                    &&& words.contains(plan1[j].2)
                    &&& new_t@[j].1 < 2
                } by {
                    if j < before.len() {
                        assert(new_t@[j] == before[j]);
                        assert(plan1[j] == plan0[j]);
                    } else {
                        let m = j - before.len();
                        assert(plan1[j] == np[m]);
                        if m < ca {
                            assert(new_t@[j] == mid[j]);
                            assert(np[m] == (n1, a, qmask & a));
                            assert(occurrences(words, qmask & a) > 0);
                            lemma_occurs(words, qmask & a);
                        } else {
                            assert(np[m] == (n1, b, qmask & b));
                            assert(occurrences(words, qmask & b) > 0);
                            lemma_occurs(words, qmask & b);
                        }
                    }
                }
            }
            i = i + 1;
        }
        let ghost plan = step_plan(words, qmask, words);
        proof {
            assert(words.take(i as int) =~= words);
            assert forall|j: int| 0 <= j < new_t@.len() implies {
                &&& (#[trigger] new_t@[j]).0 == plan[j].0 as usize
                &&& new_t@[j].2 == plan[j].2 as usize
                &&& rule.ensures((plan[j].1,), new_t@[j].1)
                &&& words.contains(plan[j].0)
                &&& words.contains(plan[j].2)
                &&& new_t@[j].1 < 2
            } by {}
        }

        let mut qv: Vec<usize> = Vec::new();
        let mut i: usize = 0;
        while i < new_q.len()
            invariant
                words == new_q@,
                i <= words.len(),
                qv@ == words.take(i as int).map_values(|w: u8| w as usize),
            decreases words.len() - i,
        {
            qv.push(new_q[i] as usize);
            assert(words.take(i + 1).map_values(|w: u8| w as usize) =~= words.take(i as int).map_values(
                |w: u8| w as usize,
            ).push(new_q@[i as int] as usize));
            i = i + 1;
        }
        assert(words.take(words.len() as int) =~= words);
        let q0 = new_q[0] as usize;
        let mut f: Vec<usize> = Vec::new();
        f.push(q0);
        proof {
            assert(qv@.contains(q0)) by {
                assert(qv@[0] == q0);
            }
            assert forall|w: u8| words.contains(w) implies qv@.contains(w as usize) by {
                let j = choose|j: int| 0 <= j < words.len() && words[j] == w;
                assert(qv@[j] == w as usize);
            }
            assert forall|j: int| 0 <= j < new_t@.len() implies qv@.contains((#[trigger] new_t@[j]).0)
                && qv@.contains(new_t@[j].2) && new_t@[j].1 < 2 by {
                assert(new_t@[j].0 == plan[j].0 as usize);
                assert(words.contains(plan[j].0));
                assert(words.contains(plan[j].2));
            }
            assert(f@ =~= seq![q0]);
        }
        FA::from(qv, 2, new_t, q0, f)
    }
}

/// A word that occurs is among the words.
proof fn lemma_occurs(s: Seq<u8>, w: u8)
    requires
        occurrences(s, w) > 0,
    ensures
        s.contains(w),
    decreases s.len(),
{
    if s.last() == w {
        assert(s[s.len() - 1] == w);
    } else {
        lemma_occurs(s.drop_last(), w);
        let j = choose|j: int| 0 <= j < s.drop_last().len() && s.drop_last()[j] == w;
        assert(s[j] == w);
    }
}

/// The walks of `k + 1` steps, with their packed letters, from each node of
/// `q` in turn, starting from no letters; each node's walks in the order of
/// `packed_tree`.
pub open spec fn packed_list(t: Seq<Edge>, sigma: usize, q: Seq<usize>, k: nat) -> Seq<(u8, Seq<usize>)>
    decreases q.len(),
{
    if q.len() == 0 {
        Seq::empty()
    } else {
        packed_list(t, sigma, q.drop_last(), k) + packed_tree(t, sigma, (0u8, seq![q.last()]), k)
    }
}

/// Code 20 on the five cells held in the low bits of `full`: 1 when two or
/// four of them are alive.
pub open spec fn code20_of(full: u64) -> usize {
    if popcount(full) == 2 || popcount(full) == 4 {
        1
    } else {
        0
    }
}

/// An edge between two walks with their packed letters, and what it captures.
pub type LabelEdge = ((u8, Seq<usize>), usize, (u8, Seq<usize>));

/// The edge planned for the letters `xs`, the letter `x` and the walk
/// `labels[j]`: it leaves `xs` with the walk of `labels[j]`, captures Code 20
/// of the five letters `2 xs + x`, and leads to the last four of those letters
/// with the walk of `labels[j]` after its first node, followed by `j`.
pub open spec fn step2_edge(labels: Seq<(u8, Seq<usize>)>, xs: nat, x: nat, j: int) -> LabelEdge {
    let full = 2 * xs + x;
    ((xs as u8, labels[j].1), code20_of(full as u64), ((full % 16) as u8, labels[j].1.drop_first().push(j as usize)))
}

/// The edges planned for the letters `xs` and the letter `x`: one for each of
/// the first `m` walks whose letters are the last four of `2 xs + x`.
pub open spec fn step2_row(labels: Seq<(u8, Seq<usize>)>, xs: nat, x: nat, m: nat) -> Seq<LabelEdge>
    decreases m,
{
    if m == 0 {
        Seq::empty()
    } else {
        let p = step2_row(labels, xs, x, (m - 1) as nat);
        if labels[m - 1].0 == ((2 * xs + x) % 16) as u8 {
            p.push(step2_edge(labels, xs, x, m - 1))
        } else {
            p
        }
    }
}

/// The edges planned for the letters below `n`, each with letter 0 and then 1.
pub open spec fn step2_plan(labels: Seq<(u8, Seq<usize>)>, n: nat) -> Seq<LabelEdge>
    decreases n,
{
    if n == 0 {
        Seq::empty()
    } else {
        let xs = (n - 1) as nat;
        step2_plan(labels, xs) + step2_row(labels, xs, 0, labels.len()) + step2_row(labels, xs, 1, labels.len())
    }
}

/// The first position of `w` in `s`; -1 when it does not occur.
pub open spec fn first_pos(s: Seq<(u8, Seq<usize>)>, w: (u8, Seq<usize>)) -> int
    decreases s.len(),
{
    if s.len() == 0 {
        -1
    } else if s[0] == w {
        0
    } else {
        let p = first_pos(s.drop_first(), w);
        if p < 0 {
            -1
        } else {
            p + 1
        }
    }
}

/// A planned edge between positions: each end is the first position of its walk.
pub open spec fn index_edge(labels: Seq<(u8, Seq<usize>)>, e: LabelEdge) -> Edge {
    (first_pos(labels, e.0) as usize, e.1, first_pos(labels, e.2) as usize)
}

/// Both ends of every planned edge are among the walks.
pub open spec fn step2_ends_known(labels: Seq<(u8, Seq<usize>)>) -> bool {
    forall|xs: nat, x: nat, j: int|
        xs < 16 && x < 2 && 0 <= j < labels.len() && labels[j].0 == ((2 * xs + x) % 16) as u8 ==> labels.contains(
            (#[trigger] step2_edge(labels, xs, x, j)).0,
        ) && labels.contains(step2_edge(labels, xs, x, j).2)
}

/// The first occurrence of `w` is found where it is.
proof fn lemma_first_pos(s: Seq<(u8, Seq<usize>)>, w: (u8, Seq<usize>), i: int)
    requires
        0 <= i < s.len(),
        s[i] == w,
        forall|k: int| 0 <= k < i ==> s[k] != w,
    ensures
        first_pos(s, w) == i,
    decreases i,
{
    if i > 0 {
        assert(s[0] != w);
        assert forall|k: int| 0 <= k < i - 1 implies s.drop_first()[k] != w by {
            assert(s.drop_first()[k] == s[k + 1]);
        }
        lemma_first_pos(s.drop_first(), w, i - 1);
    }
}

/// The first position of the walk `w` among `labels`, which holds it.
fn first_pos_of(labels: &Vec<PackedWalk>, w: &PackedWalk) -> (r: usize)
    requires
        packed_views(labels@).contains((w.0, w.1@)),
    ensures
        r == first_pos(packed_views(labels@), (w.0, w.1@)),
        r < labels@.len(),
{
    let ghost s = packed_views(labels@);
    let ghost wv = (w.0, w.1@);
    let mut i: usize = 0;
    while i < labels.len()
        invariant
            s == packed_views(labels@),
            wv == (w.0, w.1@),
            s.contains(wv),
            i <= labels@.len(),
            forall|k: int| 0 <= k < i ==> s[k] != wv,
        decreases labels@.len() - i,
    {
        if labels[i].0 == w.0 && vec_eq(&labels[i].1, &w.1) {
            assert(s[i as int] == wv);
            proof {
                lemma_first_pos(s, wv, i as int);
            }
            return i;
        }
        assert(s[i as int] != wv);
        i = i + 1;
    }
    proof {
        let k = choose|k: int| 0 <= k < s.len() && s[k] == wv;
        assert(s[k] != wv);
    }
    0
}

impl FA {
    /// The step of Code 20 on the rows of two letters this automaton allows,
    /// with the walks of four steps from each node in turn, and their packed
    /// letters, as nodes (see `step2_plan`). Returns the automaton, whose node
    /// `i` stands for walk `i` (a walk listed twice is taken at its first
    /// position), together with the walks. A planned edge leaves a walk under
    /// other letters and leads to a walk that ends in a position among the
    /// walks rather than in a node, and `step2_ends_known` asks that both ends
    /// be listed walks. That asks every position to end some listed walk while
    /// the first walk's nodes also occur under a second letter word, which
    /// needs more distinct walk ends than there are positions: no automaton
    /// whose walk list fits in memory meets the `requires`, so this function
    /// cannot be called on any real input, and building the automaton from
    /// these edges fails on every one.
    pub fn usize_dfa_step_2(&self) -> (r: (FA, Vec<PackedWalk>))
        requires
            self.wf(),
            self.sigma == 2,
            packed_list(self.t@, self.sigma, self.q@, 3).len() > 0,
            step2_ends_known(packed_list(self.t@, self.sigma, self.q@, 3)),
        ensures
            ({
                let labels = packed_list(self.t@, self.sigma, self.q@, 3);
                &&& packed_views(r.1@) == labels
                &&& r.0.wf()
                &&& r.0.q@ == positions(labels.len())
                &&& r.0.sigma == 2
                &&& r.0.q0 == 0
                &&& r.0.f@ == seq![0usize]
                &&& r.0.t@ == step2_plan(labels, 16).map_values(|e: LabelEdge| index_edge(labels, e))
            }),
    {
        let mut new_q: Vec<PackedWalk> = Vec::new();
        let mut i: usize = 0;
        assert(self.q@.take(0) =~= Seq::<usize>::empty());
        assert(packed_views(new_q@) =~= Seq::<(u8, Seq<usize>)>::empty());
        while i < self.q.len()
            invariant
                self.wf(),
                i <= self.q@.len(),
                packed_views(new_q@) == packed_list(self.t@, self.sigma, self.q@.take(i as int), 3),
                ends_in(new_q@, self.q@),
            decreases self.q@.len() - i,
        {
            let mut ns: Vec<usize> = Vec::new();
            ns.push(self.q[i]);
            assert(ns@ =~= seq![self.q@[i as int]]);
            assert(self.q@.contains(self.q@[i as int]));
            let et = self.edge_tree_bin((0u8, ns), 4);
            let ghost before = new_q@;
            let ghost ev = packed_views(et@);
            let mut j: usize = 0;
            while j < et.len()
                invariant
                    j <= et@.len(),
                    ev == packed_views(et@),
                    packed_views(new_q@) == packed_views(before) + ev.take(j as int),
                    ends_in(new_q@, self.q@),
                    ends_in(et@, self.q@),
                decreases et@.len() - j,
            {
                let w = (et[j].0, et[j].1.clone());
                assert(w.1@ =~= et@[j as int].1@);
                let ghost prev = new_q@;
                new_q.push(w);
                proof {
                    assert(packed_views(new_q@) =~= packed_views(prev).push((w.0, w.1@)));
                    assert(ev.take(j + 1) =~= ev.take(j as int).push(ev[j as int]));
                    assert forall|k: int| 0 <= k < new_q@.len() implies (#[trigger] new_q@[k]).1@.len() > 0
                        && self.q@.contains(new_q@[k].1@.last()) by {
                        if k < prev.len() {
                            assert(new_q@[k] == prev[k]);
                        } else {
                            assert(et@[j as int].1@.len() > 0);
                        }
                    }
                }
                j = j + 1;
            }
            proof {
                assert(ev.take(et@.len() as int) =~= ev);
                let q1 = self.q@.take(i + 1);
                assert(q1.drop_last() =~= self.q@.take(i as int));
                assert(q1.last() == self.q@[i as int]);
            }
            i = i + 1;
        }
        assert(self.q@.take(self.q@.len() as int) =~= self.q@);
        let ghost labels = packed_views(new_q@);
        let n = new_q.len();

        let mut new_t: Vec<Edge> = Vec::new();
        let ghost mut planned: Seq<LabelEdge> = Seq::empty();
        let mut xs: u64 = 0;
        while xs < 16
            invariant
                labels == packed_views(new_q@),
                labels == packed_list(self.t@, self.sigma, self.q@, 3),
                n == labels.len(),
                n > 0,
                step2_ends_known(labels),
                ends_in(new_q@, self.q@),
                xs <= 16,
                planned == step2_plan(labels, xs as nat),
                new_t@ == planned.map_values(|e: LabelEdge| index_edge(labels, e)),
                forall|k: int| 0 <= k < new_t@.len() ==> (#[trigger] new_t@[k]).0 < n && new_t@[k].2 < n && new_t@[k].1 < 2,
            decreases 16 - xs,
        {
            let ghost base = planned;
            let mut x: u64 = 0;
            while x < 2
                invariant
                    labels == packed_views(new_q@),
                    n == labels.len(),
                    step2_ends_known(labels),
                    ends_in(new_q@, self.q@),
                    xs < 16,
                    x <= 2,
                    base == step2_plan(labels, xs as nat),
                    planned == base + (if x == 0 {
                        Seq::<LabelEdge>::empty()
                    } else if x == 1 {
                        step2_row(labels, xs as nat, 0, n as nat)
                    } else {
                        step2_row(labels, xs as nat, 0, n as nat) + step2_row(labels, xs as nat, 1, n as nat)
                    }),
                    new_t@ == planned.map_values(|e: LabelEdge| index_edge(labels, e)),
                    forall|k: int| 0 <= k < new_t@.len() ==> (#[trigger] new_t@[k]).0 < n && new_t@[k].2 < n && new_t@[k].1 < 2,
                decreases 2 - x,
            {
                let full: u64 = 2 * xs + x;
                let c = u64_count_ones(full);
                let out: usize = if c == 2 || c == 4 {
                    1
                } else {
                    0
                };
                let next: u8 = (full % 16) as u8;
                let ghost start = planned;
                let mut j: usize = 0;
                while j < n
                    invariant
                        labels == packed_views(new_q@),
                        n == labels.len(),
                        step2_ends_known(labels),
                        ends_in(new_q@, self.q@),
                        xs < 16,
                        x < 2,
                        full == 2 * xs + x,
                        out == code20_of(full),
                        next == ((2 * xs + x) % 16) as u8,
                        j <= n,
                        planned == start + step2_row(labels, xs as nat, x as nat, j as nat),
                        new_t@ == planned.map_values(|e: LabelEdge| index_edge(labels, e)),
                        forall|k: int| 0 <= k < new_t@.len() ==> (#[trigger] new_t@[k]).0 < n && new_t@[k].2 < n && new_t@[k].1 < 2,
                    decreases n - j,
                {
                    if new_q[j].0 == next {
                        let ns = &new_q[j].1;
                        assert(ns@.len() > 0) by {
                            assert(new_q@[j as int].1@.len() > 0);
                        }
                        let src = (xs as u8, ns.clone());
                        assert(src.1@ =~= ns@);
                        let mut dst_ns: Vec<usize> = Vec::new();
                        let mut k: usize = 1;
                        while k < ns.len()
                            invariant
                                1 <= k <= ns@.len(),
                                dst_ns@ == ns@.subrange(1, k as int),
                            decreases ns@.len() - k,
                        {
                            dst_ns.push(ns[k]);
                            assert(ns@.subrange(1, k + 1) =~= ns@.subrange(1, k as int).push(ns@[k as int]));
                            k = k + 1;
                        }
                        dst_ns.push(j);
                        let dst = (next, dst_ns);
                        let ghost e = step2_edge(labels, xs as nat, x as nat, j as int);
                        proof {
                            assert(labels[j as int] == (new_q@[j as int].0, ns@));
                            assert(dst.1@ =~= ns@.drop_first().push(j as usize));
                            assert(e.0 == (src.0, src.1@));
                            assert(e.2 == (dst.0, dst.1@));
                            assert(labels.contains(e.0) && labels.contains(e.2));
                        }
                        let a = first_pos_of(&new_q, &src);
                        let b = first_pos_of(&new_q, &dst);
                        new_t.push((a, out, b));
                        proof {
                            let p0 = planned;
                            planned = planned.push(e);
                            assert(step2_row(labels, xs as nat, x as nat, (j + 1) as nat) == step2_row(
                                labels,
                                xs as nat,
                                x as nat,
                                j as nat,
                            ).push(e));
                            assert(planned =~= start + step2_row(labels, xs as nat, x as nat, (j + 1) as nat));
                            assert(e.1 == out);
                            assert(index_edge(labels, e) == (a, out, b));
                            assert(new_t@ =~= planned.map_values(|e: LabelEdge| index_edge(labels, e)));
                        }
                    } else {
                        proof {
                            assert(step2_row(labels, xs as nat, x as nat, (j + 1) as nat) == step2_row(
                                labels,
                                xs as nat,
                                x as nat,
                                j as nat,
                            ));
                        }
                    }
                    j = j + 1;
                }
                proof {
                    if x == 1 {
                        assert(planned =~= base + (step2_row(labels, xs as nat, 0, n as nat) + step2_row(
                            labels,
                            xs as nat,
                            1,
                            n as nat,
                        )));
                    } else {
                        assert(planned =~= base + step2_row(labels, xs as nat, 0, n as nat));
                    }
                }
                x = x + 1;
            }
            proof {
                assert(planned =~= step2_plan(labels, (xs + 1) as nat));
            }
            xs = xs + 1;
        }

        let mut new_nodes: Vec<usize> = Vec::new();
        let mut i: usize = 0;
        while i < n
            invariant
                i <= n,
                new_nodes@ == positions(i as nat),
            decreases n - i,
        {
            new_nodes.push(i);
            assert(new_nodes@ =~= positions((i + 1) as nat));
            i = i + 1;
        }
        let mut f: Vec<usize> = Vec::new();
        f.push(0);
        proof {
            assert(new_nodes@.contains(0usize)) by {
                assert(new_nodes@[0] == 0);
            }
            assert(f@ =~= seq![0usize]);
            assert forall|k: int| 0 <= k < new_t@.len() implies new_nodes@.contains((#[trigger] new_t@[k]).0)
                && new_nodes@.contains(new_t@[k].2) && new_t@[k].1 < 2 by {
                assert(new_nodes@[new_t@[k].0 as int] == new_t@[k].0);
                assert(new_nodes@[new_t@[k].2 as int] == new_t@[k].2);
            }
            assert(parts_valid(new_nodes@, 2, new_t@, 0, f@));
        }
        let fa = FA::from(new_nodes, 2, new_t, 0, f);
        (fa, new_q)
    }
}

} // verus!
