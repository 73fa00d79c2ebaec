//! Networks: automata over the letters `0..K` whose nodes are numbered from 0,
//! each node listing its followers for each letter.
use vstd::prelude::*;
use std::collections::{HashMap, HashSet};
use crate::bitset::{BitSet, same_set, lemma_distinct_sets_bound};
use crate::bits::{limbs_cap, lemma_limbs_cap_pos};
use crate::dfa::find_set;
use crate::fa::last_index;
use vstd::arithmetic::power::pow;
use crate::sorting::{strictly_sorted, sort_dedup};

verus! {

broadcast use vstd::std_specs::hash::group_hash_axioms;

/// The number of letters.
pub const K: usize = 2;

/// A network: for each node, for each letter, the nodes it leads to.
#[derive(Clone, Debug)]
pub struct Net {
    pub r: Vec<[Vec<usize>; K]>,
}

/// The followers of node `s` reading `a`.
pub open spec fn succ(r: Seq<[Vec<usize>; K]>, s: int, a: int) -> Seq<usize> {
    r[s]@[a]@
}

/// Every follower is a node.
pub open spec fn net_wf(r: Seq<[Vec<usize>; K]>) -> bool {
    forall|s: int, a: int, i: int|
        0 <= s < r.len() && 0 <= a < K && 0 <= i < succ(r, s, a).len() ==> #[trigger] succ(r, s, a)[i] < r.len()
}

/// The edges `(from, letter, to)` of the nodes before `s`, node by node, letter
/// by letter, in the order they are listed.
pub open spec fn edges_before(r: Seq<[Vec<usize>; K]>, s: nat) -> Seq<(usize, usize, usize)>
    decreases s,
{
    if s == 0 {
        Seq::empty()
    } else {
        let p = (s - 1) as int;
        edges_before(r, (s - 1) as nat) + succ(r, p, 0).map_values(|t: usize| (p as usize, 0usize, t)) + succ(
            r,
            p,
            1,
        ).map_values(|t: usize| (p as usize, 1usize, t))
    }
}

/// The starts of the edges of `e` that read `a` and end in `t`, in order.
pub open spec fn sources(e: Seq<(usize, usize, usize)>, t: usize, a: usize) -> Seq<usize>
    decreases e.len(),
{
    if e.len() == 0 {
        Seq::empty()
    } else {
        let p = sources(e.drop_last(), t, a);
        if e.last().1 == a && e.last().2 == t {
            p.push(e.last().0)
        } else {
            p
        }
    }
}

/// Some member of `b` leads to `m` reading `a`.
pub open spec fn post_net(r: Seq<[Vec<usize>; K]>, b: BitSet, a: int, m: usize) -> bool {
    exists|s: usize| #[trigger] b.has(s as int) && s < r.len() && succ(r, s as int, a).contains(m)
}

/// `dfa` with the sets `labels` of its nodes and the accepting nodes `acc` is
/// the subset construction of `r` from the nodes `start` with the accepting
/// nodes `accept`: node 0 is the set of the start nodes; the sets are different;
/// each node has, for each letter, no follower when its members lead nowhere and
/// otherwise the one node whose set is where they lead; every node after the
/// first is the follower of an earlier one; a node accepts when its set meets
/// `accept`.
pub open spec fn determinized(
    r: Seq<[Vec<usize>; K]>,
    start: Seq<usize>,
    accept: Set<usize>,
    labels: Seq<BitSet>,
    dfa: Seq<[Vec<usize>; K]>,
    acc: Set<usize>,
) -> bool {
    &&& labels.len() == dfa.len()
    &&& labels.len() > 0
    &&& forall|i: int| 0 <= i < labels.len() ==> (#[trigger] labels[i]).wf() && labels[i].capacity() == r.len()
    &&& forall|k: usize| #[trigger] labels[0].has(k as int) <==> start.contains(k)
    &&& forall|i: int, j: int| 0 <= i < j < labels.len() ==> !same_set(#[trigger] labels[i], #[trigger] labels[j])
    &&& forall|i: int, a: int|
        0 <= i < dfa.len() && 0 <= a < K ==> #[trigger] det_entry(r, labels, succ(dfa, i, a), i, a)
    &&& forall|j: int| 0 < j < dfa.len() ==> #[trigger] det_entered(dfa, j)
    &&& forall|i: usize| #[trigger] acc.contains(i) <==> i < labels.len() && exists|k: usize|
        #[trigger] labels[i as int].has(k as int) && accept.contains(k)
}

/// The followers of node `i` reading `a` in the subset construction: none when
/// the members of its set lead nowhere, else the node whose set is where they lead.
pub open spec fn det_entry(r: Seq<[Vec<usize>; K]>, labels: Seq<BitSet>, out: Seq<usize>, i: int, a: int) -> bool {
    &&& out.len() <= 1
    &&& (out.len() == 0 <==> forall|m: usize| !#[trigger] post_net(r, labels[i], a, m))
    &&& out.len() == 1 ==> out[0] < labels.len() && forall|m: usize|
        #[trigger] labels[out[0] as int].has(m as int) <==> post_net(r, labels[i], a, m)
}

/// Node `j` is the follower of an earlier node.
pub open spec fn det_entered(dfa: Seq<[Vec<usize>; K]>, j: int) -> bool {
    exists|i: int, a: int| 0 <= i < j && 0 <= a < K && #[trigger] succ(dfa, i, a) == seq![j as usize]
}

/// The edges of node `s` reading `a`, as `(s, a, t)`.
pub open spec fn row_edges(r: Seq<[Vec<usize>; K]>, s: usize, a: int) -> Seq<(usize, usize, usize)> {
    succ(r, s as int, a).map_values(|t: usize| (s, a as usize, t))
}

/// The edges listed before those of node `s` reading letter `a`: those of the
/// earlier nodes (`base`), then those of node `s` for the letters before `a`.
pub open spec fn letters_done(r: Seq<[Vec<usize>; K]>, base: Seq<(usize, usize, usize)>, s: usize, a: int) -> Seq<(usize, usize, usize)> {
    if a <= 0 {
        base
    } else if a == 1 {
        base + row_edges(r, s, 0)
    } else {
        base + row_edges(r, s, 0) + row_edges(r, s, 1)
    }
}

/// The edges listed before edge `j` of node `s` reading `a`.
pub open spec fn row_prefix(r: Seq<[Vec<usize>; K]>, base: Seq<(usize, usize, usize)>, s: usize, a: int, j: int) -> Seq<(usize, usize, usize)> {
    letters_done(r, base, s, a) + row_edges(r, s, a).take(j)
}

/// One more edge of node `s` reading `a` adds `s` to the sources of its end.
pub proof fn lemma_row_prefix_step(r: Seq<[Vec<usize>; K]>, base: Seq<(usize, usize, usize)>, s: usize, a: int, j: int)
    requires
        0 <= a < K,
        0 <= j < succ(r, s as int, a).len(),
    ensures
        forall|t: usize, b: usize| #[trigger] sources(row_prefix(r, base, s, a, j + 1), t, b) == if b == a && t == succ(
            r,
            s as int,
            a,
        )[j] {
            sources(row_prefix(r, base, s, a, j), t, b).push(s)
        } else {
            sources(row_prefix(r, base, s, a, j), t, b)
        },
{
    let p = row_prefix(r, base, s, a, j);
    let q = row_prefix(r, base, s, a, j + 1);
    let e = (s, a as usize, succ(r, s as int, a)[j]);
    assert(row_edges(r, s, a).take(j + 1) =~= row_edges(r, s, a).take(j).push(e));
    assert(q =~= p.push(e));
    assert forall|t: usize, b: usize| #[trigger] sources(q, t, b) == if b == a && t == succ(r, s as int, a)[j] {
        sources(p, t, b).push(s)
    } else {
        sources(p, t, b)
    } by {
        assert(q.drop_last() =~= p);
        assert(q.last() == e);
    }
}

/// The edges of node `s` reading `a` done: the next letter starts.
pub proof fn lemma_row_prefix_next(r: Seq<[Vec<usize>; K]>, base: Seq<(usize, usize, usize)>, s: usize, a: int)
    requires
        0 <= a < K,
    ensures
        row_prefix(r, base, s, a, succ(r, s as int, a).len() as int) == letters_done(r, base, s, a + 1),
        row_prefix(r, base, s, a, 0) == letters_done(r, base, s, a),
{
    assert(row_edges(r, s, a).take(succ(r, s as int, a).len() as int) =~= row_edges(r, s, a));
    assert(row_edges(r, s, a).take(0) =~= Seq::<(usize, usize, usize)>::empty());
    assert(row_prefix(r, base, s, a, 0) =~= letters_done(r, base, s, a));
    if a == 0 {
        assert(row_prefix(r, base, s, a, succ(r, s as int, a).len() as int) =~= letters_done(r, base, s, a + 1));
    } else {
        assert(row_prefix(r, base, s, a, succ(r, s as int, a).len() as int) =~= letters_done(r, base, s, a + 1));
    }
}

/// Both letters of node `s` done: the edges of the nodes up to `s`.
pub proof fn lemma_row_done(r: Seq<[Vec<usize>; K]>, base: Seq<(usize, usize, usize)>, s: usize)
    requires
        base == edges_before(r, s as nat),
    ensures
        letters_done(r, base, s, 2) == edges_before(r, (s + 1) as nat),
        letters_done(r, base, s, 0) == base,
{
    assert(row_edges(r, s, 0) =~= succ(r, s as int, 0).map_values(|t: usize| (s, 0usize, t)));
    assert(row_edges(r, s, 1) =~= succ(r, s as int, 1).map_values(|t: usize| (s, 1usize, t)));
}

/// `o` is `r` with every edge turned round: node `t` of `o` lists, for each
/// letter, the starts of the edges of `r` that end in `t`, in the order of the
/// edges.
pub open spec fn reverses(r: Seq<[Vec<usize>; K]>, o: Seq<[Vec<usize>; K]>) -> bool {
    &&& o.len() == r.len()
    &&& forall|t: int, a: int|
        0 <= t < o.len() && 0 <= a < K ==> #[trigger] succ(o, t, a) == sources(
            edges_before(r, r.len() as nat),
            t as usize,
            a as usize,
        )
}

/// The sources of two runs of edges one after the other.
pub proof fn lemma_sources_concat(e1: Seq<(usize, usize, usize)>, e2: Seq<(usize, usize, usize)>, t: usize, a: usize)
    ensures
        sources(e1 + e2, t, a) == sources(e1, t, a) + sources(e2, t, a),
    decreases e2.len(),
{
    if e2.len() == 0 {
        assert(e1 + e2 =~= e1);
        assert(sources(e1, t, a) + sources(e2, t, a) =~= sources(e1, t, a));
    } else {
        lemma_sources_concat(e1, e2.drop_last(), t, a);
        assert((e1 + e2).drop_last() =~= e1 + e2.drop_last());
        assert((e1 + e2).last() == e2.last());
        let p = sources(e1, t, a);
        let q = sources(e2.drop_last(), t, a);
        if e2.last().1 == a && e2.last().2 == t {
            assert((p + q).push(e2.last().0) =~= p + q.push(e2.last().0));
        }
    }
}

/// The sources among the edges `e` of one node `p` for one letter `b`, whose
/// ends are `s`.
pub proof fn lemma_sources_row(e: Seq<(usize, usize, usize)>, s: Seq<usize>, p: usize, b: usize, t: usize, a: usize, x: usize)
    requires
        e.len() == s.len(),
        forall|i: int| 0 <= i < s.len() ==> #[trigger] e[i] == (p, b, s[i]),
    ensures
        sources(e, t, a).contains(x) <==> x == p && a == b && s.contains(t),
    decreases s.len(),
{
    if s.len() == 0 {
        assert(sources(e, t, a) =~= Seq::<usize>::empty());
    } else {
        lemma_sources_row(e.drop_last(), s.drop_last(), p, b, t, a, x);
        assert(e.last() == (p, b, s.last()));
        assert(s =~= s.drop_last().push(s.last()));
        crate::fa::lemma_push_contains(s.drop_last(), s.last(), t);
        let q = sources(e.drop_last(), t, a);
        if b == a && s.last() == t {
            crate::fa::lemma_push_contains(q, p, x);
        }
    }
}

/// An edge `x -a-> t` is listed among the first `m` nodes exactly when
/// `x < m` and `t` follows `x` reading `a`.
pub proof fn lemma_sources_edges(r: Seq<[Vec<usize>; K]>, m: nat, t: usize, a: usize, x: usize)
    requires
        m <= r.len(),
        r.len() <= usize::MAX,
        a < K,
    ensures
        sources(edges_before(r, m), t, a).contains(x) <==> x < m && succ(r, x as int, a as int).contains(t),
    decreases m,
{
    if m == 0 {
        assert(sources(edges_before(r, m), t, a) =~= Seq::<usize>::empty());
    } else {
        let p = (m - 1) as int;
        let e0 = edges_before(r, (m - 1) as nat);
        let e1 = succ(r, p, 0).map_values(|u: usize| (p as usize, 0usize, u));
        let e2 = succ(r, p, 1).map_values(|u: usize| (p as usize, 1usize, u));
        assert(edges_before(r, m) == e0 + e1 + e2);
        lemma_sources_concat(e0 + e1, e2, t, a);
        lemma_sources_concat(e0, e1, t, a);
        lemma_sources_edges(r, (m - 1) as nat, t, a, x);
        lemma_sources_row(e1, succ(r, p, 0), p as usize, 0, t, a, x);
        lemma_sources_row(e2, succ(r, p, 1), p as usize, 1, t, a, x);
        let s0 = sources(e0, t, a);
        let s1 = sources(e1, t, a);
        let s2 = sources(e2, t, a);
        assert((s0 + s1 + s2).contains(x) <==> s0.contains(x) || s1.contains(x) || s2.contains(x)) by {
            if (s0 + s1 + s2).contains(x) {
                let i = choose|i: int| 0 <= i < (s0 + s1 + s2).len() && (s0 + s1 + s2)[i] == x;
                if i < s0.len() {
                    assert(s0[i] == x);
                } else if i < s0.len() + s1.len() {
                    assert(s1[i - s0.len()] == x);
                } else {
                    assert(s2[i - s0.len() - s1.len()] == x);
                }
            }
            if s0.contains(x) {
                let i = choose|i: int| 0 <= i < s0.len() && s0[i] == x;
                assert((s0 + s1 + s2)[i] == x);
            }
            if s1.contains(x) {
                let i = choose|i: int| 0 <= i < s1.len() && s1[i] == x;
                assert((s0 + s1 + s2)[s0.len() + i] == x);
            }
            if s2.contains(x) {
                let i = choose|i: int| 0 <= i < s2.len() && s2[i] == x;
                assert((s0 + s1 + s2)[s0.len() + s1.len() + i] == x);
            }
        }
        if x as int == p {
            assert(succ(r, x as int, a as int) == succ(r, p, a as int));
            if a == 0 {
                assert(s1.contains(x) <==> succ(r, p, 0).contains(t));
            } else {
                assert(s2.contains(x) <==> succ(r, p, 1).contains(t));
            }
        }
    }
}

/// Turning the edges round: `x` follows `t` reading `a` in the reversed network
/// exactly when `t` follows `x` reading `a` in the network; and the reversed
/// network again leads only to its own nodes.
pub proof fn lemma_reverses(r: Seq<[Vec<usize>; K]>, o: Seq<[Vec<usize>; K]>)
    requires
        reverses(r, o),
        r.len() <= usize::MAX,
    ensures
        net_wf(o),
        forall|t: int, a: int, x: usize|
            0 <= t < o.len() && 0 <= a < K ==> (#[trigger] succ(o, t, a).contains(x) <==> x < r.len() && succ(
                r,
                x as int,
                a,
            ).contains(t as usize)),
{
    assert forall|t: int, a: int, x: usize| 0 <= t < o.len() && 0 <= a < K implies (#[trigger] succ(o, t, a).contains(x)
        <==> x < r.len() && succ(r, x as int, a).contains(t as usize)) by {
        lemma_sources_edges(r, r.len() as nat, t as usize, a as usize, x);
    }
    assert forall|s: int, a: int, i: int|
        0 <= s < o.len() && 0 <= a < K && 0 <= i < succ(o, s, a).len() implies #[trigger] succ(o, s, a)[i] < o.len() by {
        let x = succ(o, s, a)[i];
        assert(succ(o, s, a).contains(x));
    }
}

/// The subset construction leads only to its own nodes, and accepts only its
/// own nodes.
pub proof fn lemma_determinized_wf(
    r: Seq<[Vec<usize>; K]>,
    start: Seq<usize>,
    accept: Set<usize>,
    labels: Seq<BitSet>,
    dfa: Seq<[Vec<usize>; K]>,
    acc: Set<usize>,
)
    requires
        determinized(r, start, accept, labels, dfa, acc),
    ensures
        net_wf(dfa),
        forall|i: usize| #[trigger] acc.contains(i) ==> i < dfa.len(),
{
    assert forall|s: int, a: int, i: int|
        0 <= s < dfa.len() && 0 <= a < K && 0 <= i < succ(dfa, s, a).len() implies #[trigger] succ(dfa, s, a)[i] < dfa.len() by {
        assert(det_entry(r, labels, succ(dfa, s, a), s, a));
    }
}

/// The stages of Brzozowski's minimization of `r`, ending in `o`: the edges of
/// `r` turned round (`rev1`); its subset construction from all nodes with all
/// nodes accepting (`det1`, accepting `acc1`, few enough nodes for bit sets
/// over them); the edges of that turned round
/// (`rev2`); and the subset construction of `rev2` from the nodes of `acc1`
/// with node 0 accepting.
pub open spec fn brzozowski_stages(
    r: Seq<[Vec<usize>; K]>,
    start1: Seq<usize>,
    accept1: Set<usize>,
    rev1: Seq<[Vec<usize>; K]>,
    labels1: Seq<BitSet>,
    det1: Seq<[Vec<usize>; K]>,
    acc1: Set<usize>,
    rev2: Seq<[Vec<usize>; K]>,
    start2: Seq<usize>,
    labels2: Seq<BitSet>,
    o: Seq<[Vec<usize>; K]>,
    acc2: Set<usize>,
) -> bool {
    &&& forall|k: usize| #[trigger] start1.contains(k) <==> k < r.len()
    &&& forall|k: usize| #[trigger] accept1.contains(k) <==> k < r.len()
    &&& reverses(r, rev1)
    &&& determinized(rev1, start1, accept1, labels1, det1, acc1)
    &&& det1.len() + 63 <= usize::MAX
    &&& reverses(det1, rev2)
    &&& forall|k: usize| #[trigger] start2.contains(k) <==> acc1.contains(k)
    &&& determinized(rev2, start2, set![0usize], labels2, o, acc2)
}

/// `o` is Brzozowski's minimization of `r`.
pub open spec fn minimized(r: Seq<[Vec<usize>; K]>, o: Seq<[Vec<usize>; K]>) -> bool {
    exists|
        start1: Seq<usize>,
        accept1: Set<usize>,
        rev1: Seq<[Vec<usize>; K]>,
        labels1: Seq<BitSet>,
        det1: Seq<[Vec<usize>; K]>,
        acc1: Set<usize>,
        rev2: Seq<[Vec<usize>; K]>,
        start2: Seq<usize>,
        labels2: Seq<BitSet>,
        acc2: Set<usize>,
    | #[trigger] brzozowski_stages(r, start1, accept1, rev1, labels1, det1, acc1, rev2, start2, labels2, o, acc2)
}

/// The first subset construction of Brzozowski's minimization of `r` has too
/// many nodes for sets of them to be held as bit sets.
pub open spec fn too_large(r: Seq<[Vec<usize>; K]>) -> bool {
    exists|
        start1: Seq<usize>,
        accept1: Set<usize>,
        rev1: Seq<[Vec<usize>; K]>,
        labels1: Seq<BitSet>,
        det1: Seq<[Vec<usize>; K]>,
        acc1: Set<usize>,
    |
        #![trigger determinized(rev1, start1, accept1, labels1, det1, acc1)]
        (forall|k: usize| #[trigger] start1.contains(k) <==> k < r.len()) && (forall|k: usize|
            #[trigger] accept1.contains(k) <==> k < r.len()) && reverses(r, rev1) && determinized(
            rev1,
            start1,
            accept1,
            labels1,
            det1,
            acc1,
        ) && det1.len() + 63 > usize::MAX
}

/// Some node of `set` leads to `x` reading `a`.
pub open spec fn stepped_to(r: Seq<[Vec<usize>; K]>, set: Seq<usize>, a: int, x: usize) -> bool {
    exists|p: int| 0 <= p < set.len() && #[trigger] succ(r, set[p] as int, a).contains(x)
}

/// The members of `s` that occur in `keep`, each by its last position there.
pub open spec fn kept(keep: Seq<usize>, s: Seq<usize>) -> Seq<usize>
    decreases s.len(),
{
    if s.len() == 0 {
        Seq::empty()
    } else {
        let p = kept(keep, s.drop_last());
        if keep.contains(s.last()) {
            p.push(last_index(keep, s.last()) as usize)
        } else {
            p
        }
    }
}

/// `o` is the network of the nodes `keep` of `r`: node `i` of `o` is node
/// `keep[i]` of `r`, with its followers renumbered by `kept`.
pub open spec fn selects(r: Seq<[Vec<usize>; K]>, keep: Seq<usize>, o: Seq<[Vec<usize>; K]>) -> bool {
    &&& o.len() == keep.len()
    &&& forall|i: int, a: int|
        0 <= i < keep.len() && 0 <= a < K ==> #[trigger] succ(o, i, a) == kept(keep, succ(r, keep[i] as int, a))
}

/// Turning the edges round twice gives back the edges: the same followers for
/// every node and letter, though a follower reached by several edges is then
/// listed once per edge.
pub proof fn law_reverse_twice(r: Seq<[Vec<usize>; K]>, o1: Seq<[Vec<usize>; K]>, o2: Seq<[Vec<usize>; K]>)
    requires
        net_wf(r),
        r.len() <= usize::MAX,
        reverses(r, o1),
        reverses(o1, o2),
    ensures
        o2.len() == r.len(),
        forall|s: int, a: int, t: usize|
            0 <= s < r.len() && 0 <= a < K ==> (#[trigger] succ(o2, s, a).contains(t) <==> succ(r, s, a).contains(t)),
{
    lemma_reverses(r, o1);
    lemma_reverses(o1, o2);
    assert forall|s: int, a: int, t: usize|
        0 <= s < r.len() && 0 <= a < K implies (#[trigger] succ(o2, s, a).contains(t) <==> succ(r, s, a).contains(t)) by {
        if succ(o2, s, a).contains(t) {
            assert(t < o1.len() && succ(o1, t as int, a).contains(s as usize));
            assert(succ(r, s, a).contains(t));
        }
        if succ(r, s, a).contains(t) {
            let j = choose|j: int| 0 <= j < succ(r, s, a).len() && succ(r, s, a)[j] == t;
            assert(succ(r, s, a)[j] < r.len());
            assert(succ(o1, t as int, a).contains(s as usize));
        }
    }
}

/// `x` leads to `y` reading some letter.
pub open spec fn net_edge(r: Seq<[Vec<usize>; K]>, x: usize, y: usize) -> bool {
    exists|a: int| 0 <= a < K && #[trigger] succ(r, x as int, a).contains(y)
}

/// `w` is a walk: each node of it leads to the next.
pub open spec fn net_walk(r: Seq<[Vec<usize>; K]>, w: Seq<usize>) -> bool {
    &&& w.len() > 0
    &&& forall|i: int| 0 <= i < w.len() - 1 ==> #[trigger] net_edge(r, w[i], w[i + 1])
}

/// Node 0 reaches `x` by a walk.
pub open spec fn net_reachable(r: Seq<[Vec<usize>; K]>, x: usize) -> bool {
    exists|w: Seq<usize>| #[trigger] net_walk(r, w) && w[0] == 0 && w.last() == x
}

/// Every follower of a member of `s` is a member.
pub open spec fn closed(r: Seq<[Vec<usize>; K]>, s: Seq<usize>) -> bool {
    forall|x: usize, a: int, y: usize|
        #[trigger] s.contains(x) && 0 <= a < K && #[trigger] succ(r, x as int, a).contains(y) ==> s.contains(y)
}

/// What node 0 reaches, so does it reach the followers.
pub proof fn lemma_reach_step(r: Seq<[Vec<usize>; K]>, x: usize, a: int, y: usize)
    requires
        net_reachable(r, x),
        0 <= a < K,
        succ(r, x as int, a).contains(y),
    ensures
        net_reachable(r, y),
{
    let w = choose|w: Seq<usize>| #[trigger] net_walk(r, w) && w[0] == 0 && w.last() == x;
    let w2 = w.push(y);
    assert(net_edge(r, x, y));
    assert forall|i: int| 0 <= i < w2.len() - 1 implies #[trigger] net_edge(r, w2[i], w2[i + 1]) by {
        if i < w.len() - 1 {
            assert(w2[i] == w[i] && w2[i + 1] == w[i + 1]);
        }
    }
    assert(net_walk(r, w2));
    assert(w2[0] == 0 && w2.last() == y);
}

/// A walk from node 0 stays inside a closed set holding node 0.
pub proof fn lemma_closed_walk(r: Seq<[Vec<usize>; K]>, s: Seq<usize>, w: Seq<usize>)
    requires
        closed(r, s),
        s.contains(0usize),
        net_walk(r, w),
        w[0] == 0,
    ensures
        s.contains(w.last()),
    decreases w.len(),
{
    if w.len() > 1 {
        let w1 = w.drop_last();
        assert forall|i: int| 0 <= i < w1.len() - 1 implies #[trigger] net_edge(r, w1[i], w1[i + 1]) by {
            assert(net_edge(r, w[i], w[i + 1]));
        }
        lemma_closed_walk(r, s, w1);
        let j = w.len() - 2;
        assert(net_edge(r, w[j], w[j + 1]));
        let a = choose|a: int| 0 <= a < K && #[trigger] succ(r, w[j] as int, a).contains(w[j + 1]);
        assert(s.contains(w1.last()));
    }
}

/// The number of neighbourhoods of radius `rad` seen through a cell: `K` to the
/// power `2 * rad`.
pub open spec fn hood_count(rad: nat) -> int {
    pow(4, rad)
}

/// The node that follower `t` becomes when `off` is what is remembered of the
/// letters read: `pr * t + off`.
pub open spec fn ca_val(pr: int, off: int) -> spec_fn(usize) -> usize {
    |t: usize| (pr * t + off) as usize
}

/// What letter `a` of node `s`, seen with neighbourhood `i`, adds to the
/// followers reading `b` of the stepped network: the followers of `s` reading
/// `a`, carried along with the last letters read, when the rule sends
/// `(i, a)` to `b`; else nothing.
pub open spec fn ca_part(r: Seq<[Vec<usize>; K]>, rtab: Seq<usize>, pr: int, s: int, i: int, a: int, b: int) -> Seq<usize> {
    if rtab[i * K + a] == b {
        succ(r, s, a).map_values(ca_val(pr, (i * K + a) % pr))
    } else {
        Seq::empty()
    }
}

/// The followers reading `b` of node `s * pr + i` of the stepped network.
pub open spec fn ca_cell(r: Seq<[Vec<usize>; K]>, rtab: Seq<usize>, pr: int, s: int, i: int, b: int) -> Seq<usize> {
    ca_part(r, rtab, pr, s, i, 0, b) + ca_part(r, rtab, pr, s, i, 1, b)
}

/// The sets of `q` are sets of nodes below `n`, of capacity `n`, all different.
pub open spec fn sets_ok(q: Seq<BitSet>, n: nat) -> bool {
    &&& forall|i: int| 0 <= i < q.len() ==> (#[trigger] q[i]).wf() && q[i].capacity() == n
    &&& forall|i: int, k: int| 0 <= i < q.len() && #[trigger] q[i].has(k) ==> 0 <= k < n
    &&& forall|i: int, j: int| 0 <= i < j < q.len() ==> !same_set(#[trigger] q[i], #[trigger] q[j])
}

/// `images[s][a]` is the set of the followers of `s` reading `a`.
pub open spec fn images_ok(r: Seq<[Vec<usize>; K]>, images: Seq<[BitSet; K]>) -> bool {
    &&& images.len() == r.len()
    &&& forall|s: int, a: int| 0 <= s < r.len() && 0 <= a < K ==> (#[trigger] images[s]@[a]).wf()
        && images[s]@[a].capacity() == r.len()
    &&& forall|s: int, a: int, m: usize| 0 <= s < r.len() && 0 <= a < K ==> (#[trigger] images[s]@[a].has(m as int)
        <==> succ(r, s, a).contains(m))
}

/// The follower of set `i` reading `a` in the subset construction, as an option:
/// none when the members of the set lead nowhere, else a set where they lead.
pub open spec fn trans_ok(r: Seq<[Vec<usize>; K]>, q: Seq<BitSet>, t: Option<usize>, i: int, a: int) -> bool {
    match t {
        None => forall|m: usize| !#[trigger] post_net(r, q[i], a, m),
        Some(j) => j < q.len() && (exists|m: usize| #[trigger] post_net(r, q[i], a, m)) && forall|m: usize|
            #[trigger] q[j as int].has(m as int) <==> post_net(r, q[i], a, m),
    }
}

/// `rev0[t]` and `rev1[t]` list the starts of the edges of `e` that end in `t`,
/// for letters 0 and 1.
pub open spec fn rev_ok(rev0: Seq<Vec<usize>>, rev1: Seq<Vec<usize>>, e: Seq<(usize, usize, usize)>, n: nat) -> bool {
    &&& rev0.len() == n
    &&& rev1.len() == n
    &&& forall|t: usize| t < n ==> (#[trigger] rev0[t as int])@ =~= sources(e, t, 0) && rev1[t as int]@ =~= sources(e, t, 1)
}

/// One more edge, seen from one end `t`: the start of the edge joins the list
/// of `t` for its letter when the edge ends in `t`.
pub proof fn lemma_rev_push_at(
    old0: Seq<Vec<usize>>,
    old1: Seq<Vec<usize>>,
    new0: Seq<Vec<usize>>,
    new1: Seq<Vec<usize>>,
    e: Seq<(usize, usize, usize)>,
    n: nat,
    edge: (usize, usize, usize),
    t: usize,
)
    requires
        rev_ok(old0, old1, e, n),
        t < n,
        edge.1 < K,
        edge.2 < n,
        edge.1 == 0 ==> new0 == old0.update(edge.2 as int, new0[edge.2 as int]) && new0[edge.2 as int]@ == old0[edge.2 as int]@.push(edge.0) && new1 == old1,
        edge.1 == 1 ==> new1 == old1.update(edge.2 as int, new1[edge.2 as int]) && new1[edge.2 as int]@ == old1[edge.2 as int]@.push(edge.0) && new0 == old0,
    ensures
        new0[t as int]@ =~= sources(e.push(edge), t, 0),
        new1[t as int]@ =~= sources(e.push(edge), t, 1),
{
    let e2 = e.push(edge);
    assert(e2.drop_last() =~= e);
    assert(e2.last() == edge);
    assert(old0[t as int]@ =~= sources(e, t, 0));
    assert(old1[t as int]@ =~= sources(e, t, 1));
    if edge.1 == 0 {
        if t != edge.2 {
            assert(new0[t as int] == old0[t as int]);
        }
    } else {
        if t != edge.2 {
            assert(new1[t as int] == old1[t as int]);
        }
    }
}

/// One more edge: its start joins the list of its end for its letter.
pub proof fn lemma_rev_ok_push(
    old0: Seq<Vec<usize>>,
    old1: Seq<Vec<usize>>,
    new0: Seq<Vec<usize>>,
    new1: Seq<Vec<usize>>,
    e: Seq<(usize, usize, usize)>,
    n: nat,
    edge: (usize, usize, usize),
)
    requires
        rev_ok(old0, old1, e, n),
        edge.1 < K,
        edge.2 < n,
        edge.1 == 0 ==> new0 == old0.update(edge.2 as int, new0[edge.2 as int]) && new0[edge.2 as int]@ == old0[edge.2 as int]@.push(edge.0) && new1 == old1,
        edge.1 == 1 ==> new1 == old1.update(edge.2 as int, new1[edge.2 as int]) && new1[edge.2 as int]@ == old1[edge.2 as int]@.push(edge.0) && new0 == old0,
    ensures
        rev_ok(new0, new1, e.push(edge), n),
{
    if edge.1 == 0 {
        assert(new0.len() == n && new1.len() == n);
    } else {
        assert(new0.len() == n && new1.len() == n);
    }
    assert forall|t: usize| t < n implies (#[trigger] new0[t as int])@ =~= sources(e.push(edge), t, 0) && new1[t as int]@ =~= sources(e.push(edge), t, 1) by {
        lemma_rev_push_at(old0, old1, new0, new1, e, n, edge, t);
    }
}

/// Adding a set at the end keeps what a follower entry says.
pub proof fn lemma_trans_ok_push(r: Seq<[Vec<usize>; K]>, q: Seq<BitSet>, b: BitSet, t: Option<usize>, i: int, a: int)
    requires
        0 <= i < q.len(),
        trans_ok(r, q, t, i, a),
    ensures
        trans_ok(r, q.push(b), t, i, a),
{
    let q2 = q.push(b);
    assert(q2[i] == q[i]);
    match t {
        Some(j) => {
            assert(q2[j as int] == q[j as int]);
        },
        None => {},
    }
}

/// Set `j` is the follower of some set before `upto`.
pub open spec fn found_from(trans: Seq<[Option<usize>; K]>, upto: int, j: int) -> bool {
    exists|i: int, a: int| 0 <= i < upto && i < j && 0 <= a < K && #[trigger] trans[i]@[a] == Some(j as usize)
}

/// The entry `t` as the list of followers: empty or the one node.
pub open spec fn opt_list(t: Option<usize>) -> Seq<usize> {
    match t {
        Some(j) => seq![j],
        None => Seq::empty(),
    }
}

/// An optional follower as a list of followers.
fn opt_to_vec(t: Option<usize>) -> (v: Vec<usize>)
    ensures
        v@ == opt_list(t),
{
    let mut v: Vec<usize> = Vec::new();
    match t {
        Some(j) => {
            v.push(j);
        },
        None => {},
    }
    proof {
        assert(v@ =~= opt_list(t));
    }
    v
}

impl Net {
    /// The network of one node that leads to itself on every letter.
    pub fn all_net() -> (o: Net)
        ensures
            o.r@.len() == 1,
            forall|a: int| 0 <= a < K ==> #[trigger] succ(o.r@, 0, a) == seq![0usize],
    {
        let mut v0: Vec<usize> = Vec::new();
        v0.push(0);
        let mut v1: Vec<usize> = Vec::new();
        v1.push(0);
        let mut o = Net { r: Vec::new() };
        o.r.push([v0, v1]);
        proof {
            assert forall|a: int| 0 <= a < K implies #[trigger] succ(o.r@, 0, a) == seq![0usize] by {
                assert(o.r@[0]@[a]@ =~= seq![0usize]);
            }
        }
        o
    }

    /// Reverse all edges. Does NOT add a super-start node.
    /// Node `t` leads back, reading `a`, to every node that led to it reading
    /// `a`, in the order of those nodes, once per edge.
    pub fn reverse_edges(&self) -> (o: Net)
        requires
            net_wf(self.r@),
        ensures
            reverses(self.r@, o.r@),
    {
        let n = self.r.len();
        let mut rev0: Vec<Vec<usize>> = Vec::new();
        let mut rev1: Vec<Vec<usize>> = Vec::new();
        let mut i: usize = 0;
        while i < n
            invariant
                n == self.r@.len(),
                i <= n,
                rev0@.len() == i,
                rev1@.len() == i,
                forall|t: int| 0 <= t < i ==> (#[trigger] rev0@[t])@ == Seq::<usize>::empty() && rev1@[t]@ == Seq::<usize>::empty(),
            decreases n - i,
        {
            rev0.push(Vec::new());
            rev1.push(Vec::new());
            i = i + 1;
        }
        proof {
            assert(edges_before(self.r@, 0) =~= Seq::<(usize, usize, usize)>::empty());
            assert forall|t: usize| t < n implies (#[trigger] rev0@[t as int])@ =~= sources(edges_before(self.r@, 0), t, 0)
                && rev1@[t as int]@ =~= sources(edges_before(self.r@, 0), t, 1) by {
                assert(sources(edges_before(self.r@, 0), t, 0) == Seq::<usize>::empty());
                assert(sources(edges_before(self.r@, 0), t, 1) == Seq::<usize>::empty());
                assert(rev0@[t as int]@ =~= sources(edges_before(self.r@, 0), t, 0));
                assert(rev1@[t as int]@ =~= sources(edges_before(self.r@, 0), t, 1));
            }
            assert(rev_ok(rev0@, rev1@, edges_before(self.r@, 0), n as nat));
        }
        let mut s: usize = 0;
        while s < n
            invariant
                n == self.r@.len(),
                net_wf(self.r@),
                s <= n,
                rev_ok(rev0@, rev1@, edges_before(self.r@, s as nat), n as nat),
            decreases n - s,
        {
            let ghost base = edges_before(self.r@, s as nat);
            proof {
                lemma_row_done(self.r@, base, s);
            }
            let mut a: usize = 0;
            while a < K
                invariant
                    n == self.r@.len(),
                    net_wf(self.r@),
                    s < n,
                    a <= K,
                    base == edges_before(self.r@, s as nat),
                    rev_ok(rev0@, rev1@, letters_done(self.r@, base, s, a as int), n as nat),
                decreases K - a,
            {
                let list = &self.r[s][a];
                proof {
                    lemma_row_prefix_next(self.r@, base, s, a as int);
                }
                let mut j: usize = 0;
                while j < list.len()
                    invariant
                        n == self.r@.len(),
                        net_wf(self.r@),
                        s < n,
                        a < K,
                        list@ == succ(self.r@, s as int, a as int),
                        j <= list@.len(),
                        rev_ok(rev0@, rev1@, row_prefix(self.r@, base, s, a as int, j as int), n as nat),
                    decreases list@.len() - j,
                {
                    let t = list[j];
                    assert(succ(self.r@, s as int, a as int)[j as int] < n);
                    proof {
                        lemma_row_prefix_step(self.r@, base, s, a as int, j as int);
                    }
                    let ghost old0 = rev0@;
                    let ghost old1 = rev1@;
                    if a == 0 {
                        let mut cell = rev0[t].clone();
                        assert(cell@ =~= rev0@[t as int]@);
                        cell.push(s);
                        rev0.set(t, cell);
                    } else {
                        let mut cell = rev1[t].clone();
                        assert(cell@ =~= rev1@[t as int]@);
                        cell.push(s);
                        rev1.set(t, cell);
                    }
                    proof {
                        lemma_rev_ok_push(old0, old1, rev0@, rev1@, row_prefix(self.r@, base, s, a as int, j as int), n as nat, (s, a, t));
                        assert(row_prefix(self.r@, base, s, a as int, (j + 1) as int) == row_prefix(self.r@, base, s, a as int, j as int).push((s, a, t)));
                    }
                    j = j + 1;
                }
                proof {
                    lemma_row_prefix_next(self.r@, base, s, a as int);
                }
                a = a + 1;
            }
            s = s + 1;
        }
        let mut r: Vec<[Vec<usize>; K]> = Vec::new();
        let mut t: usize = 0;
        while t < n
            invariant
                t <= n,
                n == self.r@.len(),
                rev_ok(rev0@, rev1@, edges_before(self.r@, n as nat), n as nat),
                r@.len() == t,
                forall|u: int, a: int| 0 <= u < t && 0 <= a < K ==> #[trigger] succ(r@, u, a) == (if a == 0 {
                    rev0@[u]@
                } else {
                    rev1@[u]@
                }),
            decreases n - t,
        {
            let c0 = rev0[t].clone();
            let c1 = rev1[t].clone();
            assert(c0@ =~= rev0@[t as int]@);
            assert(c1@ =~= rev1@[t as int]@);
            let ghost prev = r@;
            let arr: [Vec<usize>; K] = [c0, c1];
            assert(arr@[0] == c0 && arr@[1] == c1);
            r.push(arr);
            proof {
                assert forall|u: int, a: int| 0 <= u < t + 1 && 0 <= a < K implies #[trigger] succ(r@, u, a) == (if a == 0 {
                    rev0@[u]@
                } else {
                    rev1@[u]@
                }) by {
                    if u < t {
                        assert(r@[u] == prev[u]);
                        assert(succ(prev, u, a) == succ(r@, u, a));
                    } else {
                        assert(r@[u] == arr);
                        if a == 0 {
                            assert(succ(r@, u, a) == c0@);
                        } else {
                            assert(succ(r@, u, a) == c1@);
                        }
                    }
                }
            }
            t = t + 1;
        }
        proof {
            assert forall|u: int, a: int|
                0 <= u < r@.len() && 0 <= a < K implies #[trigger] succ(r@, u, a) == sources(
                    edges_before(self.r@, self.r@.len() as nat),
                    u as usize,
                    a as usize,
                ) by {
                assert(rev0@[(u as usize) as int]@ == sources(edges_before(self.r@, n as nat), u as usize, 0));
                assert(rev1@[(u as usize) as int]@ == sources(edges_before(self.r@, n as nat), u as usize, 1));
            }
        }
        Net { r }
    }

    /// The set of the nodes that the members of `set` lead to reading `a`.
    fn step_set(&self, images: &Vec<[BitSet; K]>, set: &BitSet, a: usize) -> (result: BitSet)
        requires
            net_wf(self.r@),
            images_ok(self.r@, images@),
            a < K,
            set.wf(),
            forall|k: int| #[trigger] set.has(k) ==> 0 <= k < self.r@.len(),
            self.r@.len() + 63 <= usize::MAX,
        ensures
            result.wf(),
            result.capacity() == self.r@.len(),
            forall|m: usize| #[trigger] result.has(m as int) <==> post_net(self.r@, *set, a as int, m),
            forall|k: int| #[trigger] result.has(k) ==> 0 <= k < self.r@.len(),
    {
        let n = self.r.len();
        let mut result = BitSet::with_capacity(n);
        let members = set.to_vec();
        let mut c: usize = 0;
        while c < members.len()
            invariant
                net_wf(self.r@),
                images_ok(self.r@, images@),
                a < K,
                n == self.r@.len(),
                result.wf(),
                result.capacity() == n,
                forall|k: int| #[trigger] set.has(k) ==> 0 <= k < n,
                forall|k: usize| #[trigger] set.has(k as int) <==> members@.contains(k),
                c <= members@.len(),
                forall|m: usize| #[trigger] result.has(m as int) <==> exists|d: int|
                    0 <= d < c && succ(self.r@, #[trigger] members@[d] as int, a as int).contains(m),
                forall|k: int| #[trigger] result.has(k) ==> 0 <= k < n,
            decreases members@.len() - c,
        {
            let s = members[c];
            assert(members@.contains(s));
            assert(set.has(s as int));
            let ghost before = result;
            result.or_inplace(&images[s][a]);
            proof {
                result.lemma_word_bound();
                before.lemma_word_bound();
                assert forall|m: usize| #[trigger] result.has(m as int) <==> exists|d: int|
                    0 <= d < c + 1 && succ(self.r@, #[trigger] members@[d] as int, a as int).contains(m) by {
                    assert(images@[s as int]@[a as int].has(m as int) <==> succ(self.r@, s as int, a as int).contains(m));
                    if succ(self.r@, s as int, a as int).contains(m) {
                        let i = choose|i: int| 0 <= i < succ(self.r@, s as int, a as int).len() && succ(self.r@, s as int, a as int)[i] == m;
                        assert(m < n);
                    }
                    if exists|d: int| 0 <= d < c + 1 && succ(self.r@, #[trigger] members@[d] as int, a as int).contains(m) {
                        let d = choose|d: int| 0 <= d < c + 1 && succ(self.r@, #[trigger] members@[d] as int, a as int).contains(m);
                        if d == c {
                            let i = choose|i: int| 0 <= i < succ(self.r@, s as int, a as int).len() && succ(self.r@, s as int, a as int)[i] == m;
                            assert(m < n);
                        }
                    }
                }
                assert forall|k: int| #[trigger] result.has(k) implies 0 <= k < n by {
                    if !before.has(k) {
                        assert(images@[s as int]@[a as int].has(k));
                        assert(images@[s as int]@[a as int].has((k as usize) as int));
                        let i = choose|i: int| 0 <= i < succ(self.r@, s as int, a as int).len() && succ(self.r@, s as int, a as int)[i] == k as usize;
                    }
                }
            }
            c = c + 1;
        }
        proof {
            assert forall|m: usize| #[trigger] result.has(m as int) <==> post_net(self.r@, *set, a as int, m) by {
                if result.has(m as int) {
                    let d = choose|d: int| 0 <= d < members@.len() && succ(self.r@, #[trigger] members@[d] as int, a as int).contains(m);
                    assert(members@.contains(members@[d]));
                    assert(set.has(members@[d] as int));
                }
                if post_net(self.r@, *set, a as int, m) {
                    let s = choose|s: usize| #[trigger] set.has(s as int) && s < self.r@.len() && succ(self.r@, s as int, a as int).contains(m);
                    assert(members@.contains(s));
                    let d = choose|d: int| 0 <= d < members@.len() && members@[d] == s;
                }
            }
        }
        result
    }

    /// The follower of set `cur` of `queue` reading `a`: none when its members
    /// lead nowhere; else the set where they lead, added at the end when new.
    fn transition(&self, images: &Vec<[BitSet; K]>, queue: &mut Vec<BitSet>, cur: usize, a: usize) -> (res: Option<usize>)
        requires
            net_wf(self.r@),
            images_ok(self.r@, images@),
            a < K,
            self.r@.len() + 63 <= usize::MAX,
            sets_ok(old(queue)@, self.r@.len() as nat),
            cur < old(queue)@.len(),
        ensures
            sets_ok(final(queue)@, self.r@.len() as nat),
            final(queue)@ == old(queue)@ || final(queue)@ == old(queue)@.push(final(queue)@.last()),
            trans_ok(self.r@, final(queue)@, res, cur as int, a as int),
            (match res {
                Some(j) => j >= old(queue)@.len() ==> j == old(queue)@.len() && final(queue)@.len() == old(queue)@.len() + 1,
                None => true,
            }),
            final(queue)@.len() > old(queue)@.len() ==> res == Some(old(queue)@.len() as usize),
    {
        let n = self.r.len();
        let succ_set = self.step_set(images, &queue[cur], a);
        if succ_set.is_empty() {
            proof {
                assert forall|m: usize| !#[trigger] post_net(self.r@, queue@[cur as int], a as int, m) by {
                    assert(!succ_set.has(m as int));
                }
            }
            return None;
        }
        let ghost k = choose|k: int| #[trigger] succ_set.has(k);
        proof {
            succ_set.lemma_word_bound();
            assert(0 <= k < n);
            assert(succ_set.has((k as usize) as int));
            assert(post_net(self.r@, queue@[cur as int], a as int, k as usize));
        }
        match find_set(queue, &succ_set) {
            Some(j) => {
                proof {
                    assert forall|m: usize| #[trigger] queue@[j as int].has(m as int) <==> post_net(self.r@, queue@[cur as int], a as int, m) by {
                        assert(queue@[j as int].has(m as int) == succ_set.has(m as int));
                    }
                }
                Some(j)
            },
            None => {
                let j = queue.len();
                let ghost before = queue@;
                proof {
                    assert(same_set(succ_set, succ_set));
                }
                queue.push(succ_set);
                proof {
                    assert(queue@ == before.push(succ_set));
                    assert(queue@[j as int] == succ_set);
                    assert forall|i: int, jj: int| 0 <= i < jj < queue@.len() implies !same_set(#[trigger] queue@[i], #[trigger] queue@[jj]) by {
                        if jj == j {
                            assert(queue@[i] == before[i]);
                            assert(!same_set(before[i], succ_set));
                        } else {
                            assert(queue@[i] == before[i] && queue@[jj] == before[jj]);
                        }
                    }
                    assert forall|i: int, k: int| 0 <= i < queue@.len() && #[trigger] queue@[i].has(k) implies 0 <= k < n by {
                        if i < before.len() {
                            assert(queue@[i] == before[i]);
                        }
                    }
                    assert forall|i: int| 0 <= i < queue@.len() implies (#[trigger] queue@[i]).wf() && queue@[i].capacity() == n by {
                        if i < before.len() {
                            assert(queue@[i] == before[i]);
                        }
                    }
                    assert(queue@.last() == succ_set);
                    assert(queue@[cur as int] == before[cur as int]);
                    assert(post_net(self.r@, queue@[cur as int], a as int, k as usize));
                }
                Some(j)
            },
        }
    }


    /// Determinize via subset construction.
    /// `start_states`: the set of NFA states that form the initial DFA state.
    /// `accept_states`: which NFA states are accepting.
    /// Returns (DFA as Net, set of accepting DFA state indices).
    /// The dead state (empty set) is excluded; transitions to it become empty.
    /// Every set after the start set is reached from a set numbered before it.
    pub fn determinize(&self, start_states: &[usize], accept_states: &HashSet<usize>) -> (out: (Net, HashSet<usize>))
        requires
            net_wf(self.r@),
            forall|i: int| 0 <= i < start_states@.len() ==> #[trigger] start_states@[i] < self.r@.len(),
            self.r@.len() + 63 <= usize::MAX,
        ensures
            exists|labels: Seq<BitSet>| determinized(self.r@, start_states@, accept_states@, labels, out.0.r@, out.1@),
    {
        let n = self.r.len();
        let mut images: Vec<[BitSet; K]> = Vec::new();
        let mut s: usize = 0;
        while s < n
            invariant
                n == self.r@.len(),
                net_wf(self.r@),
                n + 63 <= usize::MAX,
                s <= n,
                images@.len() == s,
                forall|s2: int, a: int| 0 <= s2 < s && 0 <= a < K ==> (#[trigger] images@[s2]@[a]).wf()
                    && images@[s2]@[a].capacity() == n,
                forall|s2: int, a: int, m: usize| 0 <= s2 < s && 0 <= a < K ==> (#[trigger] images@[s2]@[a].has(m as int)
                    <==> succ(self.r@, s2, a).contains(m)),
            decreases n - s,
        {
            proof {
                assert forall|a: int, j: int| 0 <= a < K && 0 <= j < succ(self.r@, s as int, a).len() implies #[trigger] succ(self.r@, s as int, a)[j] < n by {}
            }
            let l0 = self.r[s][0].as_slice();
            let l1 = self.r[s][1].as_slice();
            assert(l0@ == succ(self.r@, s as int, 0));
            assert(l1@ == succ(self.r@, s as int, 1));
            let b0 = BitSet::from_vec(l0, n);
            let b1 = BitSet::from_vec(l1, n);
            let ghost prev = images@;
            let arr: [BitSet; K] = [b0, b1];
            assert(arr@[0] == b0 && arr@[1] == b1);
            images.push(arr);
            proof {
                assert forall|s2: int, a: int| 0 <= s2 < s + 1 && 0 <= a < K implies (#[trigger] images@[s2]@[a]).wf()
                    && images@[s2]@[a].capacity() == n by {
                    if s2 < s {
                        assert(images@[s2] == prev[s2]);
                    } else if a == 0 {
                        assert(images@[s2]@[a] == b0);
                    } else {
                        assert(images@[s2]@[a] == b1);
                    }
                }
                assert forall|s2: int, a: int, m: usize| 0 <= s2 < s + 1 && 0 <= a < K implies (#[trigger] images@[s2]@[a].has(m as int)
                    <==> succ(self.r@, s2, a).contains(m)) by {
                    if s2 < s {
                        assert(images@[s2] == prev[s2]);
                    } else if a == 0 {
                        assert(images@[s2]@[a] == b0);
                        if b0.has(m as int) {
                            let j = choose|j: int| 0 <= j < succ(self.r@, s2, a).len() && succ(self.r@, s2, a)[j] == m as int;
                            assert(succ(self.r@, s2, a)[j] == m);
                        }
                    } else {
                        assert(images@[s2]@[a] == b1);
                        if b1.has(m as int) {
                            let j = choose|j: int| 0 <= j < succ(self.r@, s2, a).len() && succ(self.r@, s2, a)[j] == m as int;
                            assert(succ(self.r@, s2, a)[j] == m);
                        }
                    }
                }
            }
            s = s + 1;
        }

        let mut accept_mask = BitSet::with_capacity(n);
        let mut i: usize = 0;
        while i < n
            invariant
                i <= n,
                accept_mask.wf(),
                accept_mask.capacity() == n,
                forall|k: usize| #[trigger] accept_mask.has(k as int) <==> k < i && accept_states@.contains(k),
            decreases n - i,
        {
            if accept_states.contains(&i) {
                accept_mask.insert(i);
            }
            i = i + 1;
        }

        let mut start = BitSet::with_capacity(n);
        let mut i: usize = 0;
        while i < start_states.len()
            invariant
                i <= start_states@.len(),
                forall|j: int| 0 <= j < start_states@.len() ==> #[trigger] start_states@[j] < n,
                start.wf(),
                start.capacity() == n,
                forall|k: usize| #[trigger] start.has(k as int) <==> start_states@.take(i as int).contains(k),
                forall|k: int| #[trigger] start.has(k) ==> 0 <= k < n,
            decreases start_states@.len() - i,
        {
            start.insert(start_states[i]);
            proof {
                assert(start_states@.take(i + 1) =~= start_states@.take(i as int).push(start_states@[i as int]));
                assert forall|k: usize| #[trigger] start.has(k as int) <==> start_states@.take(i + 1).contains(k) by {
                    crate::fa::lemma_push_contains(start_states@.take(i as int), start_states@[i as int], k);
                }
            }
            i = i + 1;
        }
        assert(start_states@.take(start_states@.len() as int) =~= start_states@);
        let ghost start_view = start;

        let mut queue: Vec<BitSet> = Vec::new();
        queue.push(start);
        let mut transitions: Vec<[Option<usize>; K]> = Vec::new();
        let mut dfa_accept: HashSet<usize> = HashSet::new();
        let mut head: usize = 0;
        proof {
            assert(queue@[0] == start_view);
            crate::bits::lemma_limbs_cap_pos(((n + 63) / 64) as nat);
        }
        while head < queue.len()
            invariant
                n == self.r@.len(),
                net_wf(self.r@),
                n + 63 <= usize::MAX,
                images_ok(self.r@, images@),
                sets_ok(queue@, n as nat),
                queue@.len() >= 1,
                queue@[0] == start_view,
                queue@.len() <= limbs_cap(((n + 63) / 64) as nat),
                head <= queue@.len(),
                transitions@.len() == head,
                forall|i: int, a: int| 0 <= i < head && 0 <= a < K ==> #[trigger] trans_ok(self.r@, queue@, transitions@[i]@[a], i, a),
                forall|j: int| 0 < j < queue@.len() ==> #[trigger] found_from(transitions@, head as int, j),
                forall|k: usize| #[trigger] accept_mask.has(k as int) <==> k < n && accept_states@.contains(k),
                accept_mask.wf(),
                forall|i: usize| #[trigger] dfa_accept@.contains(i) <==> i < head && exists|k: usize|
                    #[trigger] queue@[i as int].has(k as int) && accept_states@.contains(k),
            decreases limbs_cap(((n + 63) / 64) as nat) - queue@.len(), queue@.len() - head,
        {
            let ghost q0 = queue@;
            let disjoint = queue[head].is_disjoint(&accept_mask);
            let ghost acc0 = dfa_accept@;
            if !disjoint {
                dfa_accept.insert(head);
            }
            proof {
                assert forall|i: usize| #[trigger] dfa_accept@.contains(i) <==> i < head + 1 && exists|k: usize|
                    #[trigger] queue@[i as int].has(k as int) && accept_states@.contains(k) by {
                    if i == head {
                        if !disjoint {
                            let k = choose|k: int| (#[trigger] queue@[head as int].has(k) && accept_mask.has(k));
                            assert(0 <= k < n);
                            assert(accept_mask.has((k as usize) as int));
                        }
                        if exists|k: usize| #[trigger] queue@[i as int].has(k as int) && accept_states@.contains(k) {
                            let k = choose|k: usize| #[trigger] queue@[i as int].has(k as int) && accept_states@.contains(k);
                            assert(0 <= k < n);
                            assert(accept_mask.has(k as int));
                        }
                    }
                }
            }
            let t0 = self.transition(&images, &mut queue, head, 0);
            let ghost q1 = queue@;
            let t1 = self.transition(&images, &mut queue, head, 1);
            let ghost q2 = queue@;
            let ghost tr0 = transitions@;
            transitions.push([t0, t1]);
            proof {
                // the queue only grows at the end
                assert(q1 == q0 || q1 == q0.push(q1.last()));
                assert(q2 == q1 || q2 == q1.push(q2.last()));
                assert forall|i: int| 0 <= i < q0.len() implies #[trigger] q2[i] == q0[i] by {
                    if q1 != q0 {
                        assert(q1[i] == q0[i]);
                    }
                    if q2 != q1 {
                        assert(q2[i] == q1[i]);
                    }
                }
                assert(queue@[0] == start_view);
                // entries computed before keep holding
                assert forall|i: int, a: int| 0 <= i < head + 1 && 0 <= a < K implies #[trigger] trans_ok(self.r@, queue@, transitions@[i]@[a], i, a) by {
                    if i < head {
                        assert(transitions@[i] == tr0[i]);
                        assert(trans_ok(self.r@, q0, tr0[i]@[a], i, a));
                        if q1 != q0 {
                            lemma_trans_ok_push(self.r@, q0, q1.last(), tr0[i]@[a], i, a);
                            assert(q0.push(q1.last()) == q1);
                        }
                        assert(trans_ok(self.r@, q1, tr0[i]@[a], i, a));
                        if q2 != q1 {
                            lemma_trans_ok_push(self.r@, q1, q2.last(), tr0[i]@[a], i, a);
                            assert(q1.push(q2.last()) == q2);
                        }
                    } else {
                        assert(transitions@[i]@[0] == t0 && transitions@[i]@[1] == t1);
                        if a == 0 {
                            assert(trans_ok(self.r@, q1, t0, i, 0));
                            if q2 != q1 {
                                lemma_trans_ok_push(self.r@, q1, q2.last(), t0, i, 0);
                                assert(q1.push(q2.last()) == q2);
                            }
                        } else {
                            assert(q1[i] == q0[i]);
                            assert(trans_ok(self.r@, q2, t1, i, 1));
                        }
                    }
                }
                assert forall|j: int| 0 < j < queue@.len() implies #[trigger] found_from(transitions@, head + 1, j) by {
                    if j < q0.len() {
                        assert(found_from(tr0, head as int, j));
                        let (i, a) = choose|i: int, a: int| 0 <= i < head && i < j && 0 <= a < K && #[trigger] tr0[i]@[a] == Some(j as usize);
                        assert(transitions@[i] == tr0[i]);
                    } else if j < q1.len() {
                        assert(transitions@[head as int]@[0] == t0);
                    } else {
                        assert(transitions@[head as int]@[1] == t1);
                    }
                }
                assert forall|i: usize| #[trigger] dfa_accept@.contains(i) <==> i < head + 1 && exists|k: usize|
                    #[trigger] queue@[i as int].has(k as int) && accept_states@.contains(k) by {
                    if i < head + 1 {
                        assert(queue@[i as int] == q0[i as int]);
                    }
                }
                lemma_distinct_sets_bound(queue@, n);
            }
            head = head + 1;
        }

        let mut r: Vec<[Vec<usize>; K]> = Vec::new();
        let mut i: usize = 0;
        while i < transitions.len()
            invariant
                i <= transitions@.len(),
                r@.len() == i,
                forall|u: int, a: int| 0 <= u < i && 0 <= a < K ==> #[trigger] succ(r@, u, a) == opt_list(transitions@[u]@[a]),
            decreases transitions@.len() - i,
        {
            let v0 = opt_to_vec(transitions[i][0]);
            let v1 = opt_to_vec(transitions[i][1]);
            let ghost prev = r@;
            let arr: [Vec<usize>; K] = [v0, v1];
            assert(arr@[0] == v0 && arr@[1] == v1);
            r.push(arr);
            proof {
                assert forall|u: int, a: int| 0 <= u < i + 1 && 0 <= a < K implies #[trigger] succ(r@, u, a) == opt_list(transitions@[u]@[a]) by {
                    if u < i {
                        assert(r@[u] == prev[u]);
                        assert(succ(prev, u, a) == succ(r@, u, a));
                    } else {
                        assert(r@[u] == arr);
                        if a == 0 {
                            assert(succ(r@, u, a) == v0@);
                        } else {
                            assert(succ(r@, u, a) == v1@);
                        }
                    }
                }
            }
            i = i + 1;
        }
        proof {
            let labels = queue@;
            assert forall|i: int, a: int| 0 <= i < r@.len() && 0 <= a < K implies #[trigger] det_entry(self.r@, labels, succ(r@, i, a), i, a) by {
                assert(trans_ok(self.r@, labels, transitions@[i]@[a], i, a));
                assert(succ(r@, i, a) == opt_list(transitions@[i]@[a]));
            }
            assert forall|j: int| 0 < j < r@.len() implies #[trigger] det_entered(r@, j) by {
                assert(found_from(transitions@, head as int, j));
                let (i, a) = choose|i: int, a: int| 0 <= i < head && i < j && 0 <= a < K && #[trigger] transitions@[i]@[a] == Some(j as usize);
                assert(succ(r@, i, a) == opt_list(transitions@[i]@[a]));
                assert(succ(r@, i, a) =~= seq![j as usize]);
            }
            assert(labels.len() == r@.len());
            assert(forall|i: int| 0 <= i < labels.len() ==> (#[trigger] labels[i]).wf() && labels[i].capacity() == self.r@.len());
            assert(forall|k: usize| #[trigger] labels[0].has(k as int) <==> start_states@.contains(k));
            assert(forall|i: int, j: int| 0 <= i < j < labels.len() ==> !same_set(#[trigger] labels[i], #[trigger] labels[j]));
            assert(forall|i: usize| #[trigger] dfa_accept@.contains(i) <==> i < labels.len() && exists|k: usize|
                #[trigger] labels[i as int].has(k as int) && accept_states@.contains(k));
            assert(determinized(self.r@, start_states@, accept_states@, labels, r@, dfa_accept@));
            assert(exists|l: Seq<BitSet>| determinized(self.r@, start_states@, accept_states@, l, r@, dfa_accept@));
        }
        let ghost rv = r@;
        let ghost av = dfa_accept@;
        let out = (Net { r }, dfa_accept);
        assert(out.0.r@ == rv && out.1@ == av);
        out
    }


    /// Brzozowski minimization.
    /// Original NFA: start = all states, accept = all states.
    /// `None` when the first subset construction has more nodes than bit sets
    /// over them can index.
    pub fn minimize_brzozowski(&self) -> (out: Option<Net>)
        requires
            net_wf(self.r@),
            self.r@.len() + 63 <= usize::MAX,
        ensures
            out matches Some(o) ==> minimized(self.r@, o.r@),
            out is None ==> too_large(self.r@),
    {
        let n = self.r.len();
        let mut all_states: Vec<usize> = Vec::new();
        let mut all_accept: HashSet<usize> = HashSet::new();
        let mut i: usize = 0;
        while i < n
            invariant
                i <= n,
                forall|k: usize| #[trigger] all_states@.contains(k) <==> k < i,
                forall|j: int| 0 <= j < all_states@.len() ==> #[trigger] all_states@[j] < i,
                forall|k: usize| #[trigger] all_accept@.contains(k) <==> k < i,
            decreases n - i,
        {
            proof {
                assert forall|k: usize| #[trigger] all_states@.push(i).contains(k) <==> k < i + 1 by {
                    crate::fa::lemma_push_contains(all_states@, i, k);
                }
            }
            all_states.push(i);
            all_accept.insert(i);
            i = i + 1;
        }
        let rev1 = self.reverse_edges();
        proof {
            lemma_reverses(self.r@, rev1.r@);
        }
        let (det1, det1_accept) = rev1.determinize(all_states.as_slice(), &all_accept);
        let ghost labels1 = choose|l: Seq<BitSet>| determinized(rev1.r@, all_states@, all_accept@, l, det1.r@, det1_accept@);
        let m = det1.r.len();
        if m > usize::MAX - 63 {
            proof {
                assert(determinized(rev1.r@, all_states@, all_accept@, labels1, det1.r@, det1_accept@));
            }
            return None;
        }
        proof {
            lemma_determinized_wf(rev1.r@, all_states@, all_accept@, labels1, det1.r@, det1_accept@);
        }
        let rev2 = det1.reverse_edges();
        proof {
            lemma_reverses(det1.r@, rev2.r@);
        }
        let mut start2: Vec<usize> = Vec::new();
        let mut j: usize = 0;
        while j < m
            invariant
                j <= m,
                m == det1.r@.len(),
                forall|k: usize| #[trigger] start2@.contains(k) <==> k < j && det1_accept@.contains(k),
                forall|p: int| 0 <= p < start2@.len() ==> #[trigger] start2@[p] < m,
            decreases m - j,
        {
            proof {
                assert forall|k: usize| #[trigger] start2@.push(j).contains(k) <==> start2@.contains(k) || k == j by {
                    crate::fa::lemma_push_contains(start2@, j, k);
                }
            }
            if det1_accept.contains(&j) {
                start2.push(j);
            }
            j = j + 1;
        }
        let mut zero: HashSet<usize> = HashSet::new();
        zero.insert(0);
        assert(zero@ =~= set![0usize]);
        let (det2, acc2) = rev2.determinize(start2.as_slice(), &zero);
        proof {
            let labels2 = choose|l: Seq<BitSet>| determinized(rev2.r@, start2@, zero@, l, det2.r@, acc2@);
            assert(brzozowski_stages(
                self.r@,
                all_states@,
                all_accept@,
                rev1.r@,
                labels1,
                det1.r@,
                det1_accept@,
                rev2.r@,
                start2@,
                labels2,
                det2.r@,
                acc2@,
            ));
        }
        Some(det2)
    }


    /// Compute the set of NFA states reachable from `state_set` on symbol `a`.
    /// They come in ascending order, each once.
    pub fn net_step(&self, state_set: &[usize], a: usize) -> (result: Vec<usize>)
        requires
            a < K,
            forall|i: int| 0 <= i < state_set@.len() ==> #[trigger] state_set@[i] < self.r@.len(),
        ensures
            strictly_sorted(result@),
            forall|x: usize| #[trigger] result@.contains(x) <==> stepped_to(self.r@, state_set@, a as int, x),
    {
        let mut gathered: Vec<usize> = Vec::new();
        let mut i: usize = 0;
        while i < state_set.len()
            invariant
                a < K,
                i <= state_set@.len(),
                forall|p: int| 0 <= p < state_set@.len() ==> #[trigger] state_set@[p] < self.r@.len(),
                forall|x: usize| #[trigger] gathered@.contains(x) <==> stepped_to(self.r@, state_set@.take(i as int), a as int, x),
            decreases state_set@.len() - i,
        {
            let s = state_set[i];
            let list = &self.r[s][a];
            assert(list@ == succ(self.r@, s as int, a as int));
            let ghost g0 = gathered@;
            let mut j: usize = 0;
            while j < list.len()
                invariant
                    j <= list@.len(),
                    forall|x: usize| #[trigger] gathered@.contains(x) <==> g0.contains(x) || list@.take(j as int).contains(x),
                decreases list@.len() - j,
            {
                let t = list[j];
                proof {
                    assert(list@.take(j + 1) =~= list@.take(j as int).push(t));
                    assert forall|x: usize| #[trigger] gathered@.push(t).contains(x) <==> g0.contains(x) || list@.take(j + 1).contains(x) by {
                        crate::fa::lemma_push_contains(gathered@, t, x);
                        crate::fa::lemma_push_contains(list@.take(j as int), t, x);
                    }
                }
                gathered.push(t);
                j = j + 1;
            }
            proof {
                assert(list@.take(list@.len() as int) =~= list@);
                let st = state_set@.take(i as int);
                let st1 = state_set@.take(i + 1);
                assert(st1 =~= st.push(s));
                assert forall|x: usize| #[trigger] gathered@.contains(x) <==> stepped_to(self.r@, st1, a as int, x) by {
                    if stepped_to(self.r@, st1, a as int, x) {
                        let p = choose|p: int| 0 <= p < st1.len() && #[trigger] succ(self.r@, st1[p] as int, a as int).contains(x);
                        if p < st.len() {
                            assert(st[p] == st1[p]);
                            assert(stepped_to(self.r@, st, a as int, x));
                        }
                    }
                    if stepped_to(self.r@, st, a as int, x) {
                        let p = choose|p: int| 0 <= p < st.len() && #[trigger] succ(self.r@, st[p] as int, a as int).contains(x);
                        assert(st1[p] == st[p]);
                    }
                    if list@.contains(x) {
                        assert(st1[st.len() as int] == s);
                    }
                }
            }
            i = i + 1;
        }
        assert(state_set@.take(state_set@.len() as int) =~= state_set@);
        sort_dedup(gathered)
    }


    /// The network of the nodes `keep`, renumbered by their positions in
    /// `keep`; edges to nodes outside `keep` are dropped, and a node listed
    /// twice takes its last position.
    pub fn select(&self, keep: &[usize]) -> (o: Net)
        requires
            forall|i: int| 0 <= i < keep@.len() ==> #[trigger] keep@[i] < self.r@.len(),
        ensures
            selects(self.r@, keep@, o.r@),
    {
        let mut old_to_new: HashMap<usize, usize> = HashMap::new();
        let mut i: usize = 0;
        while i < keep.len()
            invariant
                i <= keep@.len(),
                forall|n: usize| #[trigger] old_to_new@.contains_key(n) <==> keep@.take(i as int).contains(n),
                forall|n: usize| #[trigger] old_to_new@.contains_key(n) ==> old_to_new@[n] == last_index(keep@.take(i as int), n),
            decreases keep@.len() - i,
        {
            old_to_new.insert(keep[i], i);
            proof {
                let k0 = keep@.take(i as int);
                let k1 = keep@.take(i + 1);
                assert(k1 =~= k0.push(keep@[i as int]));
                assert(k1.drop_last() =~= k0);
                assert forall|n: usize| #[trigger] old_to_new@.contains_key(n) <==> k1.contains(n) by {
                    crate::fa::lemma_push_contains(k0, keep@[i as int], n);
                }
            }
            i = i + 1;
        }
        assert(keep@.take(keep@.len() as int) =~= keep@);
        let mut r: Vec<[Vec<usize>; K]> = Vec::new();
        let mut i: usize = 0;
        while i < keep.len()
            invariant
                i <= keep@.len(),
                r@.len() == i,
                forall|p: int| 0 <= p < keep@.len() ==> #[trigger] keep@[p] < self.r@.len(),
                forall|n: usize| #[trigger] old_to_new@.contains_key(n) <==> keep@.contains(n),
                forall|n: usize| #[trigger] old_to_new@.contains_key(n) ==> old_to_new@[n] == last_index(keep@, n),
                forall|u: int, a: int| 0 <= u < i && 0 <= a < K ==> #[trigger] succ(r@, u, a) == kept(keep@, succ(self.r@, keep@[u] as int, a)),
            decreases keep@.len() - i,
        {
            let old_idx = keep[i];
            let row0 = self.kept_row(&old_to_new, keep, old_idx, 0);
            let row1 = self.kept_row(&old_to_new, keep, old_idx, 1);
            let ghost prev = r@;
            let arr: [Vec<usize>; K] = [row0, row1];
            assert(arr@[0] == row0 && arr@[1] == row1);
            r.push(arr);
            proof {
                assert forall|u: int, a: int| 0 <= u < i + 1 && 0 <= a < K implies #[trigger] succ(r@, u, a) == kept(keep@, succ(self.r@, keep@[u] as int, a)) by {
                    if u < i {
                        assert(r@[u] == prev[u]);
                        assert(succ(prev, u, a) == succ(r@, u, a));
                    } else {
                        assert(r@[u] == arr);
                        if a == 0 {
                            assert(succ(r@, u, a) == row0@);
                        } else {
                            assert(succ(r@, u, a) == row1@);
                        }
                    }
                }
            }
            i = i + 1;
        }
        Net { r }
    }

    /// The followers of `old_idx` reading `a` that lie in `keep`, by their last
    /// positions in `keep`.
    fn kept_row(&self, old_to_new: &HashMap<usize, usize>, keep: &[usize], old_idx: usize, a: usize) -> (row: Vec<usize>)
        requires
            old_idx < self.r@.len(),
            a < K,
            forall|n: usize| #[trigger] old_to_new@.contains_key(n) <==> keep@.contains(n),
            forall|n: usize| #[trigger] old_to_new@.contains_key(n) ==> old_to_new@[n] == last_index(keep@, n),
        ensures
            row@ == kept(keep@, succ(self.r@, old_idx as int, a as int)),
    {
        let list = &self.r[old_idx][a];
        assert(list@ == succ(self.r@, old_idx as int, a as int));
        let mut row: Vec<usize> = Vec::new();
        let mut j: usize = 0;
        while j < list.len()
            invariant
                j <= list@.len(),
                forall|n: usize| #[trigger] old_to_new@.contains_key(n) <==> keep@.contains(n),
                forall|n: usize| #[trigger] old_to_new@.contains_key(n) ==> old_to_new@[n] == last_index(keep@, n),
                row@ == kept(keep@, list@.take(j as int)),
            decreases list@.len() - j,
        {
            let t = list[j];
            assert(list@.take(j + 1).drop_last() =~= list@.take(j as int));
            assert(list@.take(j + 1).last() == t);
            match old_to_new.get(&t) {
                Some(v) => {
                    row.push(*v);
                },
                None => {},
            }
            j = j + 1;
        }
        assert(list@.take(list@.len() as int) =~= list@);
        row
    }


    /// The network of the nodes that node 0 reaches, in ascending order of
    /// their numbers.
    pub fn without_unreachable(&self) -> (o: Net)
        requires
            net_wf(self.r@),
            self.r@.len() > 0,
        ensures
            exists|keep: Seq<usize>|
                #![trigger selects(self.r@, keep, o.r@)]
                strictly_sorted(keep) && (forall|x: usize| #[trigger] keep.contains(x) <==> net_reachable(self.r@, x))
                    && selects(self.r@, keep, o.r@),
    {
        let n = self.r.len();
        let mut reachable: Vec<usize> = Vec::new();
        reachable.push(0);
        proof {
            let w = seq![0usize];
            assert(net_walk(self.r@, w));
            assert(reachable@ =~= w);
            assert(reachable@[0] == 0);
            assert(reachable@.contains(0usize));
            assert forall|x: usize| #[trigger] reachable@.contains(x) implies x < n && net_reachable(self.r@, x) by {
                assert(reachable@[0] == 0);
                assert(w.last() == x);
            }
        }
        let mut numreachable: usize = reachable.len();
        let mut prevnumreachable: usize = numreachable + 1;
        while prevnumreachable != numreachable
            invariant
                n == self.r@.len(),
                net_wf(self.r@),
                strictly_sorted(reachable@),
                reachable@.contains(0usize),
                forall|x: usize| #[trigger] reachable@.contains(x) ==> x < n && net_reachable(self.r@, x),
                numreachable == reachable@.len(),
                numreachable <= n,
                prevnumreachable == numreachable ==> closed(self.r@, reachable@),
            decreases 2 * (n - numreachable) + (if prevnumreachable != numreachable { 1int } else { 0int }),
        {
            proof {
                assert forall|i: int| 0 <= i < reachable@.len() implies #[trigger] reachable@[i] < n by {
                    assert(reachable@.contains(reachable@[i]));
                }
            }
            let new0 = self.net_step(reachable.as_slice(), 0);
            let new1 = self.net_step(reachable.as_slice(), 1);
            let ghost before = reachable@;
            let mut all = reachable.clone();
            assert(all@ =~= before);
            all.extend_from_slice(new0.as_slice());
            all.extend_from_slice(new1.as_slice());
            proof {
                assert forall|x: usize| #[trigger] all@.contains(x) <==> before.contains(x) || new0@.contains(x) || new1@.contains(x) by {
                    assert(all@ =~= before + new0@ + new1@);
                    let s0 = before;
                    let s1 = new0@;
                    let s2 = new1@;
                    if (s0 + s1 + s2).contains(x) {
                        let i = choose|i: int| 0 <= i < (s0 + s1 + s2).len() && (s0 + s1 + s2)[i] == x;
                        if i < s0.len() {
                            assert(s0[i] == x);
                        } else if i < s0.len() + s1.len() {
                            assert(s1[i - s0.len()] == x);
                        } else {
                            assert(s2[i - s0.len() - s1.len()] == x);
                        }
                    }
                    if s0.contains(x) {
                        let i = choose|i: int| 0 <= i < s0.len() && s0[i] == x;
                        assert((s0 + s1 + s2)[i] == x);
                    }
                    if s1.contains(x) {
                        let i = choose|i: int| 0 <= i < s1.len() && s1[i] == x;
                        assert((s0 + s1 + s2)[s0.len() + i] == x);
                    }
                    if s2.contains(x) {
                        let i = choose|i: int| 0 <= i < s2.len() && s2[i] == x;
                        assert((s0 + s1 + s2)[s0.len() + s1.len() + i] == x);
                    }
                }
            }
            reachable = sort_dedup(all);
            proof {
                assert forall|x: usize| #[trigger] reachable@.contains(x) implies x < n && net_reachable(self.r@, x) by {
                    if !before.contains(x) {
                        let a: int = if new0@.contains(x) { 0 } else { 1 };
                        assert(stepped_to(self.r@, before, a, x));
                        let p = choose|p: int| 0 <= p < before.len() && #[trigger] succ(self.r@, before[p] as int, a).contains(x);
                        assert(before.contains(before[p]));
                        lemma_reach_step(self.r@, before[p], a, x);
                    }
                }
                assert forall|i: int| 0 <= i < reachable@.len() implies #[trigger] reachable@[i] < n by {
                    assert(reachable@.contains(reachable@[i]));
                }
                crate::sorting::lemma_strictly_sorted_len(reachable@, n);
                assert forall|x: usize| #[trigger] before.contains(x) implies reachable@.contains(x) by {}
                crate::sorting::lemma_strictly_sorted_subset_len(before, reachable@);
                if reachable@.len() == before.len() {
                    crate::sorting::lemma_strictly_sorted_same(before, reachable@);
                    assert forall|x: usize, a: int, y: usize|
                        #[trigger] reachable@.contains(x) && 0 <= a < K && #[trigger] succ(self.r@, x as int, a).contains(y) implies reachable@.contains(y) by {
                        assert(before.contains(x));
                        let p = choose|p: int| 0 <= p < before.len() && before[p] == x;
                        assert(succ(self.r@, before[p] as int, a).contains(y));
                        assert(stepped_to(self.r@, before, a, y));
                        if a == 0 {
                            assert(new0@.contains(y));
                        } else {
                            assert(new1@.contains(y));
                        }
                    }
                }
            }
            prevnumreachable = numreachable;
            numreachable = reachable.len();
        }
        proof {
            assert forall|x: usize| #[trigger] net_reachable(self.r@, x) implies reachable@.contains(x) by {
                let w = choose|w: Seq<usize>| #[trigger] net_walk(self.r@, w) && w[0] == 0 && w.last() == x;
                lemma_closed_walk(self.r@, reachable@, w);
            }
            assert forall|i: int| 0 <= i < reachable@.len() implies #[trigger] reachable@[i] < self.r@.len() by {
                assert(reachable@.contains(reachable@[i]));
            }
        }
        let o = self.select(reachable.as_slice());
        proof {
            assert(selects(self.r@, reachable@, o.r@));
        }
        o
    }


    /// One step of the cellular automaton of radius `rad` and rule table
    /// `rtab` applied to the language of the network: node `s` becomes the
    /// nodes `s * pr + i`, one for each neighbourhood `i` of the `pr` (`K` to
    /// the power `2 * rad`), and reading `a` there leads, writing
    /// `rtab[i * K + a]`, to each follower `t` of `s` as node
    /// `pr * t + (i * K + a) % pr`.
    pub fn ca_step(self, rule: (usize, Vec<usize>)) -> (o: Net)
        requires
            self.r@.len() > 0 ==> rule.1@.len() >= K * hood_count(rule.0 as nat),
            self.r@.len() > 0 ==> forall|j: int| 0 <= j < K * hood_count(rule.0 as nat) ==> #[trigger] rule.1@[j] < K,
            self.r@.len() > 0 ==> forall|s: int, a: int, j: int|
                0 <= s < self.r@.len() && 0 <= a < K && 0 <= j < succ(self.r@, s, a).len() ==> hood_count(rule.0 as nat)
                    * #[trigger] succ(self.r@, s, a)[j] + hood_count(rule.0 as nat) <= usize::MAX + 1,
        ensures
            o.r@.len() == self.r@.len() * hood_count(rule.0 as nat),
            forall|p: int, b: int|
                0 <= p < o.r@.len() && 0 <= b < K ==> #[trigger] succ(o.r@, p, b) == ca_cell(
                    self.r@,
                    rule.1@,
                    hood_count(rule.0 as nat),
                    p / hood_count(rule.0 as nat),
                    p % hood_count(rule.0 as nat),
                    b,
                ),
    {
        let (rad, rtab) = rule;
        let n = self.r.len();
        let mut o: Vec<[Vec<usize>; K]> = Vec::new();
        if n == 0 {
            return Net { r: o };
        }
        let ghost prs = hood_count(rad as nat);
        let tab_len = rtab.len();
        let mut pr: usize = 1;
        let mut k: usize = 0;
        proof {
            vstd::arithmetic::power::lemma_pow0(4);
        }
        while k < rad
            invariant
                k <= rad,
                pr == pow(4, k as nat),
                2 * prs <= tab_len,
                prs == hood_count(rad as nat),
            decreases rad - k,
        {
            proof {
                vstd::arithmetic::power::lemma_pow_increases(4, (k + 1) as nat, rad as nat);
                reveal(pow);
                assert(pow(4, (k + 1) as nat) == 4 * pow(4, k as nat));
            }
            pr = pr * 4;
            k = k + 1;
        }
        assert(pr == prs);
        proof {
            vstd::arithmetic::power::lemma_pow_positive(4, rad as nat);
        }
        let mut s: usize = 0;
        while s < n
            invariant
                n == self.r@.len(),
                s <= n,
                pr == prs,
                pr > 0,
                2 * pr <= tab_len,
                tab_len == rtab@.len(),
                forall|j: int| 0 <= j < K * prs ==> #[trigger] rtab@[j] < K,
                forall|s2: int, a: int, j: int|
                    0 <= s2 < self.r@.len() && 0 <= a < K && 0 <= j < succ(self.r@, s2, a).len() ==> prs
                        * #[trigger] succ(self.r@, s2, a)[j] + prs <= usize::MAX + 1,
                o@.len() == s * pr,
                forall|p: int, b: int|
                    0 <= p < o@.len() && 0 <= b < K ==> #[trigger] succ(o@, p, b) == ca_cell(self.r@, rtab@, pr as int, p / (pr as int), p % (pr as int), b),
            decreases n - s,
        {
            let mut i: usize = 0;
            while i < pr
                invariant
                    n == self.r@.len(),
                    s < n,
                    i <= pr,
                    pr == prs,
                    pr > 0,
                    2 * pr <= tab_len,
                    tab_len == rtab@.len(),
                    forall|j: int| 0 <= j < K * prs ==> #[trigger] rtab@[j] < K,
                    forall|s2: int, a: int, j: int|
                        0 <= s2 < self.r@.len() && 0 <= a < K && 0 <= j < succ(self.r@, s2, a).len() ==> prs
                            * #[trigger] succ(self.r@, s2, a)[j] + prs <= usize::MAX + 1,
                    o@.len() == s * pr + i,
                    forall|p: int, b: int|
                        0 <= p < o@.len() && 0 <= b < K ==> #[trigger] succ(o@, p, b) == ca_cell(self.r@, rtab@, pr as int, p / (pr as int), p % (pr as int), b),
                decreases pr - i,
            {
                let mut temp0: Vec<usize> = Vec::new();
                let mut temp1: Vec<usize> = Vec::new();
                let idx0 = i * K;
                let idx1 = i * K + 1;
                assert(rtab@[idx0 as int] < K);
                assert(rtab@[idx1 as int] < K);
                let l0 = &self.r[s][0];
                let l1 = &self.r[s][1];
                proof {
                    assert(l0@ == succ(self.r@, s as int, 0));
                    assert(l1@ == succ(self.r@, s as int, 1));
                    assert forall|j: int| 0 <= j < l0@.len() implies pr * #[trigger] l0@[j] + pr <= usize::MAX + 1 by {
                        assert(succ(self.r@, s as int, 0)[j] == l0@[j]);
                    }
                    assert forall|j: int| 0 <= j < l1@.len() implies pr * #[trigger] l1@[j] + pr <= usize::MAX + 1 by {
                        assert(succ(self.r@, s as int, 1)[j] == l1@[j]);
                    }
                }
                Self::ca_push(l0, rtab[idx0], idx0 % pr, pr, &mut temp0, &mut temp1);
                Self::ca_push(l1, rtab[idx1], idx1 % pr, pr, &mut temp0, &mut temp1);
                let ghost prev = o@;
                let arr: [Vec<usize>; K] = [temp0, temp1];
                assert(arr@[0] == temp0 && arr@[1] == temp1);
                o.push(arr);
                proof {
                    let p0 = (s * pr + i) as int;
                    vstd::arithmetic::div_mod::lemma_fundamental_div_mod_converse(p0, pr as int, s as int, i as int);
                    assert(self.r@[s as int]@[0]@ == succ(self.r@, s as int, 0));
                    assert(self.r@[s as int]@[1]@ == succ(self.r@, s as int, 1));
                    assert forall|p: int, b: int| 0 <= p < o@.len() && 0 <= b < K implies #[trigger] succ(o@, p, b) == ca_cell(self.r@, rtab@, pr as int, p / (pr as int), p % (pr as int), b) by {
                        if p < prev.len() {
                            assert(o@[p] == prev[p]);
                            assert(succ(prev, p, b) == succ(o@, p, b));
                        } else {
                            assert(p == p0);
                            assert(o@[p] == arr);
                            if b == 0 {
                                assert(succ(o@, p, b) == temp0@);
                                assert(temp0@ =~= ca_cell(self.r@, rtab@, pr as int, s as int, i as int, 0));
                            } else {
                                assert(succ(o@, p, b) == temp1@);
                                assert(temp1@ =~= ca_cell(self.r@, rtab@, pr as int, s as int, i as int, 1));
                            }
                        }
                    }
                }
                i = i + 1;
            }
            proof {
                assert((s + 1) * pr == s * pr + pr) by (nonlinear_arith);
            }
            s = s + 1;
        }
        Net { r: o }
    }

    /// Adds the followers `list`, each `t` as `pr * t + off`, to `temp0` when
    /// `dest` is 0 and to `temp1` when it is 1.
    fn ca_push(list: &Vec<usize>, dest: usize, off: usize, pr: usize, temp0: &mut Vec<usize>, temp1: &mut Vec<usize>)
        requires
            dest < K,
            off < pr,
            forall|j: int| 0 <= j < list@.len() ==> pr * #[trigger] list@[j] + pr <= usize::MAX + 1,
        ensures
            final(temp0)@ == old(temp0)@ + (if dest == 0 { list@.map_values(ca_val(pr as int, off as int)) } else { Seq::empty() }),
            final(temp1)@ == old(temp1)@ + (if dest == 1 { list@.map_values(ca_val(pr as int, off as int)) } else { Seq::empty() }),
    {
        let ghost t0 = temp0@;
        let ghost t1 = temp1@;
        let mut j: usize = 0;
        while j < list.len()
            invariant
                dest < K,
                off < pr,
                forall|q: int| 0 <= q < list@.len() ==> pr * #[trigger] list@[q] + pr <= usize::MAX + 1,
                j <= list@.len(),
                temp0@ == t0 + (if dest == 0 { list@.take(j as int).map_values(ca_val(pr as int, off as int)) } else { Seq::empty() }),
                temp1@ == t1 + (if dest == 1 { list@.take(j as int).map_values(ca_val(pr as int, off as int)) } else { Seq::empty() }),
            decreases list@.len() - j,
        {
            let t = list[j];
            assert(pr * list@[j as int] + pr <= usize::MAX + 1);
            assert(pr * t <= usize::MAX) by (nonlinear_arith)
                requires
                    pr * t + pr <= usize::MAX + 1,
                    pr > 0,
            ;
            let v = pr * t + off;
            proof {
                assert(list@.take(j + 1).map_values(ca_val(pr as int, off as int)) =~= list@.take(j as int).map_values(
                    ca_val(pr as int, off as int),
                ).push(v));
            }
            if dest == 0 {
                temp0.push(v);
                assert(temp0@ =~= t0 + list@.take(j + 1).map_values(ca_val(pr as int, off as int)));
            } else {
                temp1.push(v);
                assert(temp1@ =~= t1 + list@.take(j + 1).map_values(ca_val(pr as int, off as int)));
            }
            j = j + 1;
        }
        assert(list@.take(list@.len() as int) =~= list@);
        assert(t0 + Seq::<usize>::empty() =~= t0);
        assert(t1 + Seq::<usize>::empty() =~= t1);
    }


    /// The walks from node 0 of `len` steps, kept in ascending order, each
    /// once, after every step; when more than `max` are kept, only the first
    /// `max`, in descending order.
    pub fn paths(self, len: usize, max: usize) -> (o: Vec<Path>)
        requires
            net_wf(self.r@),
            self.r@.len() > 0,
        ensures
            exists|hist: Seq<Seq<PathV>>|
                #![trigger hist.len()]
                hist.len() == len + 1 && hist[0] == seq![(seq![0usize], Seq::<usize>::empty())] && (forall|i: int|
                    0 <= i < len ==> #[trigger] paths_round_at(self.r@, hist, max, i)) && paths_view(o@) == hist[len as int],
    {
        let mut o: Vec<Path> = Vec::new();
        o.push(Path::new(0));
        let ghost mut hist: Seq<Seq<PathV>> = seq![paths_view(o@)];
        assert(paths_view(o@) =~= seq![(seq![0usize], Seq::<usize>::empty())]);
        let mut i: usize = 0;
        while i < len
            invariant
                net_wf(self.r@),
                self.r@.len() > 0,
                i <= len,
                hist.len() == i + 1,
                hist[0] == seq![(seq![0usize], Seq::<usize>::empty())],
                forall|k: int| 0 <= k < i ==> #[trigger] paths_round_at(self.r@, hist, max, k),
                paths_view(o@) == hist[i as int],
                walks_ok(self.r@, paths_view(o@), (i + 1) as nat),
            decreases len - i,
        {
            let ghost ps = paths_view(o@);
            let mut all: Vec<Path> = Vec::new();
            let mut k: usize = 0;
            while k < o.len()
                invariant
                    net_wf(self.r@),
                    ps == paths_view(o@),
                    walks_ok(self.r@, ps, (i + 1) as nat),
                    k <= o@.len(),
                    paths_view(all@) == expand_paths(self.r@, ps.take(k as int)),
                    walks_ok(self.r@, paths_view(all@), (i + 2) as nat),
                decreases o@.len() - k,
            {
                assert(ps[k as int] == o@[k as int]@);
                assert(o@[k as int].nodes@.len() == i + 1);
                let s = o[k].nodes[i];
                assert(s == ps[k as int].0.last());
                let mut more = o[k].push_multiple(&self.r[s]);
                proof {
                    assert(self.r@[s as int]@[0]@ == succ(self.r@, s as int, 0));
                    assert(self.r@[s as int]@[1]@ == succ(self.r@, s as int, 1));
                    assert(ps.take(k + 1).drop_last() =~= ps.take(k as int));
                    assert(ps.take(k + 1).last() == ps[k as int]);
                }
                let ghost a0 = all@;
                let ghost m0 = more@;
                all.append(&mut more);
                proof {
                    assert(paths_view(all@) =~= paths_view(a0) + paths_view(m0));
                    let rp = row_paths(ps[k as int], succ(self.r@, s as int, 0), succ(self.r@, s as int, 1));
                    assert forall|j: int| 0 <= j < rp.len() implies (#[trigger] rp[j]).0.len() == i + 2 && rp[j].0.last() < self.r@.len() by {
                        let l0 = succ(self.r@, s as int, 0).len();
                        if j < l0 {
                            assert(succ(self.r@, s as int, 0)[j] < self.r@.len());
                        } else {
                            assert(succ(self.r@, s as int, 1)[j - l0] < self.r@.len());
                        }
                    }
                    assert forall|j: int| 0 <= j < paths_view(all@).len() implies (#[trigger] paths_view(all@)[j]).0.len() == i + 2
                        && paths_view(all@)[j].0.last() < self.r@.len() by {
                        if j < a0.len() {
                            assert(paths_view(all@)[j] == paths_view(a0)[j]);
                        } else {
                            assert(paths_view(all@)[j] == rp[j - a0.len()]);
                        }
                    }
                }
                k = k + 1;
            }
            assert(ps.take(o@.len() as int) =~= ps);
            let mut sorted = sort_dedup_paths(&all);
            let ghost sv = paths_view(sorted@);
            if sorted.len() > max {
                sorted.truncate(max);
                let ghost tv = paths_view(sorted@);
                assert(tv =~= sv.take(max as int));
                let mut rev: Vec<Path> = Vec::new();
                let mut j: usize = sorted.len();
                while j > 0
                    invariant
                        j <= sorted@.len(),
                        tv == paths_view(sorted@),
                        paths_view(rev@) == tv.skip(j as int).reverse(),
                    decreases j,
                {
                    j = j - 1;
                    let c = sorted[j].copy();
                    let ghost r0 = rev@;
                    rev.push(c);
                    assert(paths_view(rev@) =~= paths_view(r0).push(c@));
                    assert(tv.skip(j as int).reverse() =~= tv.skip(j + 1).reverse().push(tv[j as int]));
                }
                assert(tv.skip(0) =~= tv);
                o = rev;
            } else {
                o = sorted;
            }
            proof {
                assert(paths_round(self.r@, ps, max, paths_view(o@)));
                let h0 = hist;
                hist = hist.push(paths_view(o@));
                assert forall|kk: int| 0 <= kk < i + 1 implies #[trigger] paths_round_at(self.r@, hist, max, kk) by {
                    if kk < i {
                        assert(paths_round_at(self.r@, h0, max, kk));
                        assert(hist[kk] == h0[kk] && hist[kk + 1] == h0[kk + 1]);
                    } else {
                        assert(hist[kk] == ps);
                    }
                }
                assert forall|j: int| 0 <= j < paths_view(o@).len() implies (#[trigger] paths_view(o@)[j]).0.len() == i + 2
                    && paths_view(o@)[j].0.last() < self.r@.len() by {
                    let x = paths_view(o@)[j];
                    assert(paths_view(o@).contains(x));
                    if sv.len() > max {
                        assert(paths_view(o@) == sv.take(max as int).reverse());
                        assert(x == sv[max - 1 - j]);
                        assert(sv.contains(x));
                    } else {
                        assert(sv.contains(x));
                    }
                    let jj = choose|jj: int| 0 <= jj < paths_view(all@).len() && paths_view(all@)[jj] == x;
                    assert(walks_ok(self.r@, paths_view(all@), (i + 2) as nat));
                    assert(paths_view(all@)[jj].0.len() == i + 2);
                }
            }
            i = i + 1;
        }
        o
    }

}


/// A walk through a network from node 0: the nodes visited and the letters read.
#[derive(Debug, Clone, PartialEq, PartialOrd, Eq, Ord)]
pub struct Path {
    pub nodes: Vec<usize>,
    pub collected: Vec<usize>,
}

/// A walk as the sequences of its nodes and letters.
pub type PathV = (Seq<usize>, Seq<usize>);

impl View for Path {
    type V = PathV;

    open spec fn view(&self) -> PathV {
        (self.nodes@, self.collected@)
    }
}

/// The walks as sequences.
pub open spec fn paths_view(v: Seq<Path>) -> Seq<PathV> {
    v.map_values(|p: Path| p@)
}

/// Walk `p` continued to `n` reading `c`.
pub open spec fn ext_by(p: PathV, c: usize) -> spec_fn(usize) -> PathV {
    |n: usize| (p.0.push(n), p.1.push(c))
}

/// Walk `p` continued by one step in every way the lists `s0` (letter 0) and
/// `s1` (letter 1) allow, letter 0 first.
pub open spec fn row_paths(p: PathV, s0: Seq<usize>, s1: Seq<usize>) -> Seq<PathV> {
    s0.map_values(ext_by(p, 0)) + s1.map_values(ext_by(p, 1))
}

/// Every walk of `ps` continued by one step from its last node, walk after walk.
pub open spec fn expand_paths(r: Seq<[Vec<usize>; K]>, ps: Seq<PathV>) -> Seq<PathV>
    decreases ps.len(),
{
    if ps.len() == 0 {
        Seq::empty()
    } else {
        let p = ps.last();
        expand_paths(r, ps.drop_last()) + row_paths(p, succ(r, p.0.last() as int, 0), succ(r, p.0.last() as int, 1))
    }
}

/// `a` comes before `b` in dictionary order, a proper prefix first.
pub open spec fn seq_lt(a: Seq<usize>, b: Seq<usize>) -> bool
    decreases a.len(),
{
    if a.len() == 0 {
        b.len() > 0
    } else if b.len() == 0 {
        false
    } else if a[0] != b[0] {
        a[0] < b[0]
    } else {
        seq_lt(a.drop_first(), b.drop_first())
    }
}

/// Walk `a` comes before walk `b`: by nodes, then by letters.
pub open spec fn path_lt(a: PathV, b: PathV) -> bool {
    seq_lt(a.0, b.0) || (a.0 == b.0 && seq_lt(a.1, b.1))
}

/// The walks are strictly ascending.
pub open spec fn paths_sorted(s: Seq<PathV>) -> bool {
    forall|i: int, j: int| 0 <= i < j < s.len() ==> path_lt(#[trigger] s[i], #[trigger] s[j])
}

/// Dictionary order is transitive.
pub proof fn lemma_seq_lt_trans(a: Seq<usize>, b: Seq<usize>, c: Seq<usize>)
    requires
        seq_lt(a, b),
        seq_lt(b, c),
    ensures
        seq_lt(a, c),
    decreases a.len(),
{
    if a.len() > 0 && b.len() > 0 && c.len() > 0 && a[0] == b[0] && b[0] == c[0] {
        lemma_seq_lt_trans(a.drop_first(), b.drop_first(), c.drop_first());
    }
}

/// Dictionary order is total and strict.
pub proof fn lemma_seq_lt_total(a: Seq<usize>, b: Seq<usize>)
    ensures
        a == b || seq_lt(a, b) || seq_lt(b, a),
        !(seq_lt(a, b) && seq_lt(b, a)),
        !seq_lt(a, a),
    decreases a.len(),
{
    if a.len() > 0 && b.len() > 0 {
        lemma_seq_lt_total(a.drop_first(), b.drop_first());
        if a[0] == b[0] && a.drop_first() == b.drop_first() {
            assert(a =~= seq![a[0]] + a.drop_first());
            assert(b =~= seq![b[0]] + b.drop_first());
        }
        lemma_seq_lt_total(a.drop_first(), a.drop_first());
    } else if a.len() == 0 && b.len() == 0 {
        assert(a =~= b);
    } else if a.len() > 0 {
        lemma_seq_lt_total(a.drop_first(), a.drop_first());
    }
}

/// The order on walks is transitive, total and strict.
pub proof fn lemma_path_lt(a: PathV, b: PathV, c: PathV)
    ensures
        path_lt(a, b) && path_lt(b, c) ==> path_lt(a, c),
        a == b || path_lt(a, b) || path_lt(b, a),
        !(path_lt(a, b) && path_lt(b, a)),
        !path_lt(a, a),
{
    lemma_seq_lt_total(a.0, b.0);
    lemma_seq_lt_total(a.1, b.1);
    lemma_seq_lt_total(b.0, c.0);
    lemma_seq_lt_total(a.0, c.0);
    if seq_lt(a.0, b.0) && seq_lt(b.0, c.0) {
        lemma_seq_lt_trans(a.0, b.0, c.0);
    }
    if a.0 == b.0 && b.0 == c.0 && seq_lt(a.1, b.1) && seq_lt(b.1, c.1) {
        lemma_seq_lt_trans(a.1, b.1, c.1);
    }
}

/// Past a common beginning of length `i`, the order is that of the rests.
pub proof fn lemma_seq_lt_skip(a: Seq<usize>, b: Seq<usize>, i: int)
    requires
        0 <= i <= a.len(),
        i <= b.len(),
        a.take(i) == b.take(i),
    ensures
        seq_lt(a, b) == seq_lt(a.skip(i), b.skip(i)),
    decreases i,
{
    if i > 0 {
        assert(a[0] == a.take(i)[0] && b[0] == b.take(i)[0]);
        assert(a.drop_first().take(i - 1) =~= a.take(i).drop_first());
        assert(b.drop_first().take(i - 1) =~= b.take(i).drop_first());
        lemma_seq_lt_skip(a.drop_first(), b.drop_first(), i - 1);
        assert(a.drop_first().skip(i - 1) =~= a.skip(i));
        assert(b.drop_first().skip(i - 1) =~= b.skip(i));
    } else {
        assert(a.skip(0) =~= a);
        assert(b.skip(0) =~= b);
    }
}

/// Whether `a` comes before `b` in dictionary order.
fn vec_lt(a: &Vec<usize>, b: &Vec<usize>) -> (r: bool)
    ensures
        r == seq_lt(a@, b@),
{
    let mut i: usize = 0;
    while i < a.len() && i < b.len() && a[i] == b[i]
        invariant
            i <= a@.len(),
            i <= b@.len(),
            a@.take(i as int) == b@.take(i as int),
        decreases a@.len() - i,
    {
        assert(a@.take(i + 1) =~= a@.take(i as int).push(a@[i as int]));
        assert(b@.take(i + 1) =~= b@.take(i as int).push(b@[i as int]));
        i = i + 1;
    }
    proof {
        lemma_seq_lt_skip(a@, b@, i as int);
    }
    if i < a.len() && i < b.len() {
        assert(a@.skip(i as int)[0] == a@[i as int]);
        assert(b@.skip(i as int)[0] == b@[i as int]);
        a[i] < b[i]
    } else {
        assert(a@.skip(i as int).len() == a@.len() - i);
        i == a.len() && i < b.len()
    }
}

/// Whether two lists are equal.
pub(crate) fn vec_eq(a: &Vec<usize>, b: &Vec<usize>) -> (r: bool)
    ensures
        r == (a@ == b@),
{
    if a.len() != b.len() {
        return false;
    }
    let mut i: usize = 0;
    while i < a.len()
        invariant
            a@.len() == b@.len(),
            i <= a@.len(),
            forall|j: int| 0 <= j < i ==> a@[j] == b@[j],
        decreases a@.len() - i,
    {
        if a[i] != b[i] {
            return false;
        }
        i = i + 1;
    }
    assert(a@ =~= b@);
    true
}

impl Path {
    /// The walk that has just started at `start`.
    pub fn new(start: usize) -> (p: Self)
        ensures
            p@ == (seq![start], Seq::<usize>::empty()),
    {
        let mut nodes: Vec<usize> = Vec::new();
        nodes.push(start);
        let p = Path { nodes, collected: Vec::new() };
        assert(p@.0 =~= seq![start]);
        p
    }

    /// Continues the walk to `node`, reading `char`.
    pub fn push(&mut self, node: usize, char: usize)
        ensures
            final(self)@ == (old(self)@.0.push(node), old(self)@.1.push(char)),
    {
        self.nodes.push(node);
        self.collected.push(char);
    }

    /// A copy of the walk.
    pub fn copy(&self) -> (p: Self)
        ensures
            p@ == self@,
    {
        let nodes = self.nodes.clone();
        let collected = self.collected.clone();
        assert(nodes@ =~= self.nodes@);
        assert(collected@ =~= self.collected@);
        Path { nodes, collected }
    }

    /// Whether this walk comes before `other`.
    pub fn less_than(&self, other: &Path) -> (r: bool)
        ensures
            r == path_lt(self@, other@),
    {
        if vec_lt(&self.nodes, &other.nodes) {
            return true;
        }
        vec_eq(&self.nodes, &other.nodes) && vec_lt(&self.collected, &other.collected)
    }

    /// Whether this walk equals `other`.
    pub fn same_as(&self, other: &Path) -> (r: bool)
        ensures
            r == (self@ == other@),
    {
        vec_eq(&self.nodes, &other.nodes) && vec_eq(&self.collected, &other.collected)
    }

    /// The walk continued by one step in every way `netnode` allows: for each
    /// letter in turn, to each follower in order.
    pub fn push_multiple(&self, netnode: &[Vec<usize>; K]) -> (r: Vec<Path>)
        ensures
            paths_view(r@) == row_paths(self@, netnode@[0]@, netnode@[1]@),
    {
        let mut out: Vec<Path> = Vec::new();
        let mut c: usize = 0;
        while c < K
            invariant
                c <= K,
                paths_view(out@) == (if c == 0 {
                    Seq::<PathV>::empty()
                } else if c == 1 {
                    netnode@[0]@.map_values(ext_by(self@, 0))
                } else {
                    row_paths(self@, netnode@[0]@, netnode@[1]@)
                }),
            decreases K - c,
        {
            let list = &netnode[c];
            let ghost base = paths_view(out@);
            let mut j: usize = 0;
            while j < list.len()
                invariant
                    j <= list@.len(),
                    paths_view(out@) == base + list@.take(j as int).map_values(ext_by(self@, c)),
                decreases list@.len() - j,
            {
                let mut o = self.copy();
                o.push(list[j], c);
                let ghost before = out@;
                out.push(o);
                proof {
                    assert(paths_view(out@) =~= paths_view(before).push(o@));
                    assert(list@.take(j + 1).map_values(ext_by(self@, c)) =~= list@.take(j as int).map_values(ext_by(self@, c)).push(
                        ext_by(self@, c)(list@[j as int]),
                    ));
                    assert(base + list@.take(j + 1).map_values(ext_by(self@, c)) =~= (base + list@.take(j as int).map_values(
                        ext_by(self@, c),
                    )).push(ext_by(self@, c)(list@[j as int])));
                }
                j = j + 1;
            }
            proof {
                assert(list@.take(list@.len() as int) =~= list@);
                if c == 0 {
                    assert(base + list@.map_values(ext_by(self@, 0)) =~= netnode@[0]@.map_values(ext_by(self@, 0)));
                }
            }
            c = c + 1;
        }
        out
    }
}


/// The walks of `v`, each once, in ascending order.
fn sort_dedup_paths(v: &Vec<Path>) -> (r: Vec<Path>)
    ensures
        paths_sorted(paths_view(r@)),
        forall|x: PathV| #[trigger] paths_view(r@).contains(x) <==> paths_view(v@).contains(x),
{
    let mut out: Vec<Path> = Vec::new();
    let mut k: usize = 0;
    while k < v.len()
        invariant
            k <= v@.len(),
            paths_sorted(paths_view(out@)),
            forall|x: PathV| #[trigger] paths_view(out@).contains(x) <==> paths_view(v@.take(k as int)).contains(x),
        decreases v@.len() - k,
    {
        let e = &v[k];
        let mut p: usize = 0;
        while p < out.len() && out[p].less_than(e)
            invariant
                p <= out@.len(),
                forall|i: int| 0 <= i < p ==> path_lt(#[trigger] paths_view(out@)[i], e@),
            decreases out@.len() - p,
        {
            p = p + 1;
        }
        let ghost before = paths_view(out@);
        proof {
            assert(paths_view(v@.take(k + 1)) =~= paths_view(v@.take(k as int)).push(e@));
            assert forall|x: PathV| #[trigger] paths_view(v@.take(k + 1)).contains(x) <==> paths_view(v@.take(k as int)).contains(x) || x == e@ by {
                crate::dfa_min::lemma_push_contains_any(paths_view(v@.take(k as int)), e@, x);
            }
        }
        if p < out.len() && out[p].same_as(e) {
            assert(before[p as int] == e@);
        } else {
            let c = e.copy();
            out.insert(p, c);
            proof {
                assert(paths_view(out@) =~= before.take(p as int).push(e@) + before.skip(p as int));
                if p < before.len() {
                    lemma_path_lt(before[p as int], e@, e@);
                }
                assert forall|i: int, j: int| 0 <= i < j < paths_view(out@).len() implies path_lt(
                    #[trigger] paths_view(out@)[i],
                    #[trigger] paths_view(out@)[j],
                ) by {
                    let o = paths_view(out@);
                    if j < p {
                        assert(o[i] == before[i] && o[j] == before[j]);
                    } else if j == p {
                        assert(o[i] == before[i]);
                    } else if i < p {
                        assert(o[i] == before[i] && o[j] == before[j - 1]);
                        lemma_path_lt(before[i], e@, before[j - 1]);
                        if p < j - 1 {
                            assert(path_lt(before[p as int], before[j - 1]));
                            lemma_path_lt(e@, before[p as int], before[j - 1]);
                            lemma_path_lt(before[i], e@, before[j - 1]);
                        } else {
                            lemma_path_lt(before[p as int], e@, before[p as int]);
                        }
                    } else if i == p {
                        assert(o[j] == before[j - 1]);
                        lemma_path_lt(before[p as int], e@, before[j - 1]);
                        if p < j - 1 {
                            assert(path_lt(before[p as int], before[j - 1]));
                            lemma_path_lt(e@, before[p as int], before[j - 1]);
                        }
                    } else {
                        assert(o[i] == before[i - 1] && o[j] == before[j - 1]);
                    }
                }
                assert forall|x: PathV| #[trigger] paths_view(out@).contains(x) <==> before.contains(x) || x == e@ by {
                    let o = paths_view(out@);
                    if o.contains(x) {
                        let i = choose|i: int| 0 <= i < o.len() && o[i] == x;
                        if i < p {
                            assert(before[i] == x);
                        } else if i > p {
                            assert(before[i - 1] == x);
                        }
                    }
                    if before.contains(x) {
                        let i = choose|i: int| 0 <= i < before.len() && before[i] == x;
                        if i < p {
                            assert(o[i] == x);
                        } else {
                            assert(o[i + 1] == x);
                        }
                    }
                    if x == e@ {
                        assert(o[p as int] == x);
                    }
                }
            }
        }
        k = k + 1;
    }
    assert(v@.take(v@.len() as int) =~= v@);
    out
}

/// One round of `Net::paths` from the walks `ps` to `out`: every walk
/// continued by one step in every way, then each kept once in ascending
/// order; when more than `max` remain, the first `max` in descending order.
pub open spec fn paths_round(r: Seq<[Vec<usize>; K]>, ps: Seq<PathV>, max: usize, out: Seq<PathV>) -> bool {
    exists|sorted: Seq<PathV>|
        #![trigger paths_sorted(sorted)]
        paths_sorted(sorted) && (forall|x: PathV| #[trigger] sorted.contains(x) <==> expand_paths(r, ps).contains(x)) && out == (
        if sorted.len() > max {
            sorted.take(max as int).reverse()
        } else {
            sorted
        })
}

/// Round `i` of `hist` leads to its next walks.
pub open spec fn paths_round_at(r: Seq<[Vec<usize>; K]>, hist: Seq<Seq<PathV>>, max: usize, i: int) -> bool {
    paths_round(r, hist[i], max, hist[i + 1])
}

/// Every walk has `len` nodes, the last one a node of the network.
pub open spec fn walks_ok(r: Seq<[Vec<usize>; K]>, ps: Seq<PathV>, len: nat) -> bool {
    forall|j: int| 0 <= j < ps.len() ==> (#[trigger] ps[j]).0.len() == len && ps[j].0.last() < r.len()
}


/// The `l` lowest bits of `n`, the least significant first; `n` must have no
/// higher bit.
pub fn bits(n: usize, l: usize) -> (r: Vec<usize>)
    requires
        l < usize::BITS,
        n >> l == 0,
    ensures
        r@.len() == l,
        forall|i: int| 0 <= i < l ==> #[trigger] r@[i] == (n >> (i as usize)) & 1,
{
    let mut r: Vec<usize> = Vec::new();
    let mut i: usize = 0;
    while i < l
        invariant
            i <= l,
            l < usize::BITS,
            r@.len() == i,
            forall|j: int| 0 <= j < i ==> #[trigger] r@[j] == (n >> (j as usize)) & 1,
        decreases l - i,
    {
        r.push((n >> i) & 1);
        i = i + 1;
    }
    r
}

} // verus!
