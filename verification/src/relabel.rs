//! Renaming the nodes of an automaton does not change its canonical labelling.
use vstd::prelude::*;
use crate::fa::{
    FA, Edge, targets, pos_in, rename_edge, last_index, lemma_targets_edge, lemma_targets_rename, lemma_edge_in_targets,
};
use crate::minimization::{
    visit, bfs_from, bfs_order, relabel_ready, bfs_relabelled, reachable, is_walk, lemma_edge_in_targets_reachable,
};
use crate::sorting::{edge_le, edges_sorted, nums_sorted};

verus! {

/// `g` maps distinct nodes of `q` to distinct nodes.
pub open spec fn one_to_one_on(g: spec_fn(usize) -> usize, q: Seq<usize>) -> bool {
    forall|a: usize, b: usize| q.contains(a) && q.contains(b) && #[trigger] g(a) == #[trigger] g(b) ==> a == b
}

/// Every element of `s` is in `q`.
pub open spec fn all_in(s: Seq<usize>, q: Seq<usize>) -> bool {
    forall|i: int| 0 <= i < s.len() ==> q.contains(#[trigger] s[i])
}

/// `b` is `a` with every node `n` renamed to `g(n)`, where `g` keeps distinct
/// nodes of `a` apart, and with its nodes, edges and halting nodes listed in
/// any order.
pub open spec fn renamed(a: FA, b: FA, g: spec_fn(usize) -> usize) -> bool {
    &&& one_to_one_on(g, a.q@)
    &&& b.q@.to_multiset() == a.q@.map_values(g).to_multiset()
    &&& b.sigma == a.sigma
    &&& b.t@.to_multiset() == a.t@.map_values(|e: Edge| rename_edge(g, e)).to_multiset()
    &&& b.q0 == g(a.q0)
    &&& b.f@.to_multiset() == a.f@.map_values(g).to_multiset()
}

/// Two lists with the same elements, counted, keep that after mapping.
proof fn lemma_map_multiset<A, B>(s1: Seq<A>, s2: Seq<A>, f: spec_fn(A) -> B)
    requires
        s1.to_multiset() == s2.to_multiset(),
    ensures
        s1.map_values(f).to_multiset() == s2.map_values(f).to_multiset(),
    decreases s1.len(),
{
    broadcast use vstd::seq_lib::group_to_multiset_ensures;

    if s1.len() == 0 {
        assert(s2.to_multiset().len() == s2.len() && s1.to_multiset().len() == s1.len());
        assert(s2.len() == 0);
        assert(s1.map_values(f) =~= s2.map_values(f));
    } else {
        let x = s1.last();
        let p1 = s1.drop_last();
        assert(s1 =~= p1.push(x));
        assert(s1.to_multiset().count(x) > 0) by {
            assert(s1.contains(x)) by {
                assert(s1[s1.len() - 1] == x);
            }
        }
        assert(s2.contains(x));
        let j = choose|j: int| 0 <= j < s2.len() && s2[j] == x;
        let p2 = s2.remove(j);
        assert(p2.to_multiset() =~= p1.to_multiset()) by {
            assert(p2.to_multiset() =~= s2.to_multiset().remove(x));
            assert(s1.to_multiset() =~= p1.to_multiset().insert(x));
        }
        lemma_map_multiset(p1, p2, f);
        let m1 = s1.map_values(f);
        let m2 = s2.map_values(f);
        assert(m1 =~= p1.map_values(f).push(f(x)));
        assert(m2.remove(j) =~= p2.map_values(f));
        assert(m2[j] == f(x));
        assert(m2.remove(j).to_multiset() =~= m2.to_multiset().remove(f(x)));
        assert(m2.contains(f(x)));
        assert(m2.to_multiset() =~= m2.to_multiset().remove(f(x)).insert(f(x)));
    }
}

/// The list of followers never holds a node twice.
proof fn lemma_targets_distinct(t: Seq<Edge>, n: usize, x: usize)
    ensures
        targets(t, n, x).no_duplicates(),
    decreases t.len(),
{
    if t.len() > 0 {
        lemma_targets_distinct(t.drop_last(), n, x);
    }
}

/// With at most one follower, the followers depend only on which edges there are.
proof fn lemma_targets_same_edges(t1: Seq<Edge>, t2: Seq<Edge>, n: usize, x: usize)
    requires
        forall|e: Edge| t1.contains(e) <==> t2.contains(e),
        targets(t1, n, x).len() <= 1,
    ensures
        targets(t2, n, x) == targets(t1, n, x),
{
    let s1 = targets(t1, n, x);
    let s2 = targets(t2, n, x);
    lemma_targets_distinct(t2, n, x);
    assert forall|i: int| 0 <= i < s2.len() implies s1.contains(#[trigger] s2[i]) by {
        lemma_targets_edge(t2, n, x, i);
        let j = choose|j: int| 0 <= j < t2.len() && #[trigger] t2[j] == (n, x, s2[i]);
        assert(t2.contains((n, x, s2[i])));
        let k = choose|k: int| 0 <= k < t1.len() && t1[k] == (n, x, s2[i]);
        lemma_edge_in_targets(t1, k);
    }
    if s1.len() == 0 {
        if s2.len() > 0 {
            assert(s1.contains(s2[0]));
        }
        assert(s2 =~= s1);
    } else {
        lemma_targets_edge(t1, n, x, 0);
        let j = choose|j: int| 0 <= j < t1.len() && #[trigger] t1[j] == (n, x, s1[0]);
        assert(t1.contains((n, x, s1[0])));
        let k = choose|k: int| 0 <= k < t2.len() && t2[k] == (n, x, s1[0]);
        lemma_edge_in_targets(t2, k);
        let i = choose|i: int| 0 <= i < s2.len() && s2[i] == s1[0];
        if s2.len() > 1 {
            let i2 = if i == 0 { 1int } else { 0int };
            assert(s1.contains(s2[i2]));
            assert(s2[i2] == s1[0]);
        }
        assert(s2 =~= s1);
    }
}

/// Visiting a reachable node of a deterministic automaton depends only on which edges there are.
proof fn lemma_visit_same_edges(t1: Seq<Edge>, t2: Seq<Edge>, q0: usize, o: Seq<usize>, n1: usize, x: nat, sigma: usize)
    requires
        forall|e: Edge| t1.contains(e) <==> t2.contains(e),
        forall|n: usize, y: usize| reachable(t1, q0, n) && y < sigma ==> #[trigger] targets(t1, n, y).len() <= 1,
        reachable(t1, q0, n1),
        x <= sigma,
    ensures
        visit(t2, o, n1, x) == visit(t1, o, n1, x),
    decreases x,
{
    if x > 0 {
        lemma_visit_same_edges(t1, t2, q0, o, n1, (x - 1) as nat, sigma);
        assert(targets(t1, n1, (x - 1) as usize).len() <= 1);
        lemma_targets_same_edges(t1, t2, n1, (x - 1) as usize);
    }
}

/// Visiting a node adds only followers of that node.
proof fn lemma_visit_reachable(t: Seq<Edge>, q0: usize, o: Seq<usize>, n1: usize, x: nat, q: Seq<usize>)
    requires
        forall|i: int| 0 <= i < o.len() ==> reachable(t, q0, #[trigger] o[i]),
        reachable(t, q0, n1),
        forall|i: int| 0 <= i < t.len() ==> q.contains((#[trigger] t[i]).0) && q.contains(t[i].2),
    ensures
        forall|i: int| 0 <= i < visit(t, o, n1, x).len() ==> reachable(t, q0, #[trigger] visit(t, o, n1, x)[i]),
    decreases x,
{
    if x > 0 {
        let y = (x - 1) as nat;
        lemma_visit_reachable(t, q0, o, n1, y, q);
        let p = visit(t, o, n1, y);
        let s = targets(t, n1, y as usize);
        if s.len() > 0 && !p.contains(s[0]) {
            lemma_edge_in_targets_reachable(t, q0, n1, y as usize, q);
            assert forall|i: int| 0 <= i < p.push(s[0]).len() implies reachable(t, q0, #[trigger] p.push(s[0])[i]) by {
                if i < p.len() {
                    assert(p.push(s[0])[i] == p[i]);
                }
            }
        }
    }
}

/// Breadth-first discovery in a deterministic automaton depends only on which edges there are.
proof fn lemma_bfs_same_edges(
    t1: Seq<Edge>,
    t2: Seq<Edge>,
    q0: usize,
    q: Seq<usize>,
    sigma: usize,
    o: Seq<usize>,
    i: nat,
    fuel: nat,
)
    requires
        forall|e: Edge| t1.contains(e) <==> t2.contains(e),
        forall|n: usize, y: usize| reachable(t1, q0, n) && y < sigma ==> #[trigger] targets(t1, n, y).len() <= 1,
        forall|k: int| 0 <= k < t1.len() ==> q.contains((#[trigger] t1[k]).0) && q.contains(t1[k].2),
        forall|k: int| 0 <= k < o.len() ==> reachable(t1, q0, #[trigger] o[k]),
    ensures
        bfs_from(t2, sigma, o, i, fuel) == bfs_from(t1, sigma, o, i, fuel),
    decreases fuel,
{
    if fuel > 0 && i < o.len() {
        let n1 = o[i as int];
        lemma_visit_same_edges(t1, t2, q0, o, n1, sigma as nat, sigma);
        lemma_visit_reachable(t1, q0, o, n1, sigma as nat, q);
        let v = visit(t1, o, n1, sigma as nat);
        lemma_bfs_same_edges(t1, t2, q0, q, sigma, v, i + 1, (fuel - 1) as nat);
    }
}

/// Renaming keeps whether a node of `q` occurs in a list of nodes of `q`.
proof fn lemma_contains_renamed(p: Seq<usize>, q: Seq<usize>, g: spec_fn(usize) -> usize, m: usize)
    requires
        all_in(p, q),
        q.contains(m),
        one_to_one_on(g, q),
    ensures
        p.map_values(g).contains(g(m)) == p.contains(m),
{
    if p.map_values(g).contains(g(m)) {
        let j = choose|j: int| 0 <= j < p.len() && #[trigger] p.map_values(g)[j] == g(m);
        assert(q.contains(p[j]));
        assert(g(p[j]) == g(m));
    }
    if p.contains(m) {
        let j = choose|j: int| 0 <= j < p.len() && #[trigger] p[j] == m;
        assert(p.map_values(g)[j] == g(m));
    }
}

/// Visiting a renamed node of a renamed automaton adds the renamed followers.
proof fn lemma_visit_renamed(t: Seq<Edge>, q: Seq<usize>, g: spec_fn(usize) -> usize, o: Seq<usize>, n1: usize, x: nat)
    requires
        q.contains(n1),
        all_in(o, q),
        forall|i: int| 0 <= i < t.len() ==> q.contains((#[trigger] t[i]).0) && q.contains(t[i].2),
        one_to_one_on(g, q),
    ensures
        visit(t.map_values(|e: Edge| rename_edge(g, e)), o.map_values(g), g(n1), x) == visit(t, o, n1, x).map_values(g),
        all_in(visit(t, o, n1, x), q),
    decreases x,
{
    let tg = t.map_values(|e: Edge| rename_edge(g, e));
    if x > 0 {
        let y = (x - 1) as nat;
        lemma_visit_renamed(t, q, g, o, n1, y);
        let p = visit(t, o, n1, y);
        let s = targets(t, n1, y as usize);
        lemma_targets_rename(t, q, g, n1, y as usize);
        assert(targets(tg, g(n1), y as usize) == s.map_values(g));
        if s.len() > 0 {
            lemma_targets_edge(t, n1, y as usize, 0);
            let j = choose|j: int| 0 <= j < t.len() && #[trigger] t[j] == (n1, y as usize, s[0]);
            assert(q.contains(s[0]));
            lemma_contains_renamed(p, q, g, s[0]);
            if !p.contains(s[0]) {
                assert(p.push(s[0]).map_values(g) =~= p.map_values(g).push(g(s[0])));
                assert forall|i: int| 0 <= i < p.push(s[0]).len() implies q.contains(#[trigger] p.push(s[0])[i]) by {
                    if i < p.len() {
                        assert(p.push(s[0])[i] == p[i]);
                    }
                }
            }
        }
    }
}

/// Breadth-first discovery in a renamed automaton meets the renamed nodes in the same order.
proof fn lemma_bfs_renamed(
    t: Seq<Edge>,
    q: Seq<usize>,
    g: spec_fn(usize) -> usize,
    sigma: usize,
    o: Seq<usize>,
    i: nat,
    fuel: nat,
)
    requires
        all_in(o, q),
        forall|k: int| 0 <= k < t.len() ==> q.contains((#[trigger] t[k]).0) && q.contains(t[k].2),
        one_to_one_on(g, q),
    ensures
        bfs_from(t.map_values(|e: Edge| rename_edge(g, e)), sigma, o.map_values(g), i, fuel)
            == bfs_from(t, sigma, o, i, fuel).map_values(g),
        all_in(bfs_from(t, sigma, o, i, fuel), q),
    decreases fuel,
{
    if fuel > 0 && i < o.len() {
        let n1 = o[i as int];
        assert(o.map_values(g)[i as int] == g(n1));
        lemma_visit_renamed(t, q, g, o, n1, sigma as nat);
        let v = visit(t, o, n1, sigma as nat);
        assert(v.len() >= o.len()) by {
            lemma_visit_grows(t, o, n1, sigma as nat);
        }
        lemma_bfs_renamed(t, q, g, sigma, v, i + 1, (fuel - 1) as nat);
    }
}

/// Visiting a node only adds nodes at the end.
proof fn lemma_visit_grows(t: Seq<Edge>, o: Seq<usize>, n1: usize, x: nat)
    ensures
        visit(t, o, n1, x).len() >= o.len(),
    decreases x,
{
    if x > 0 {
        lemma_visit_grows(t, o, n1, (x - 1) as nat);
    }
}

/// A renamed node has, in the renamed list, the last position it had before.
proof fn lemma_last_index_renamed(o: Seq<usize>, q: Seq<usize>, g: spec_fn(usize) -> usize, n: usize)
    requires
        all_in(o, q),
        q.contains(n),
        one_to_one_on(g, q),
    ensures
        last_index(o.map_values(g), g(n)) == last_index(o, n),
    decreases o.len(),
{
    if o.len() > 0 {
        let p = o.drop_last();
        assert(o.map_values(g).drop_last() =~= p.map_values(g));
        assert(o.map_values(g).last() == g(o.last()));
        assert(q.contains(o[o.len() - 1]));
        assert forall|i: int| 0 <= i < p.len() implies q.contains(#[trigger] p[i]) by {
            assert(p[i] == o[i]);
        }
        lemma_last_index_renamed(p, q, g, n);
    }
}

/// Comparing edges is a total order.
proof fn lemma_edge_le_total()
    ensures
        vstd::relations::total_ordering(|a: Edge, b: Edge| edge_le(a, b)),
{
}

/// Canonical labelling forgets node names and the order of lists: an
/// automaton and a copy of it with its nodes renamed one to one, and its
/// nodes, edges and halting nodes listed in any order, get the same canonical
/// labelling.
pub proof fn law_canonical_label_ignores_names(a: FA, b: FA, g: spec_fn(usize) -> usize, r: FA, s: FA)
    requires
        relabel_ready(a),
        relabel_ready(b),
        renamed(a, b, g),
        bfs_relabelled(a, r),
        bfs_relabelled(b, s),
    ensures
        r.q@ == s.q@,
        r.sigma == s.sigma,
        r.q0 == s.q0,
        r.t@ == s.t@,
        r.f@ == s.f@,
{
    broadcast use vstd::seq_lib::group_to_multiset_ensures;

    let q = a.q@;
    let t = a.t@;
    let tc = t.map_values(|e: Edge| rename_edge(g, e));
    let fc = a.f@.map_values(g);
    assert(b.q@.len() == q.len()) by {
        assert(q.map_values(g).len() == q.len());
        assert(b.q@.to_multiset().len() == b.q@.len());
        assert(q.map_values(g).to_multiset().len() == q.map_values(g).len());
    }
    let oa = bfs_order(t, a.sigma, a.q0, q.len());
    let ob = bfs_order(b.t@, b.sigma, b.q0, b.q@.len());
    assert(seq![a.q0].map_values(g) =~= seq![b.q0]);
    assert(all_in(seq![a.q0], q)) by {
        assert(seq![a.q0][0] == a.q0);
    }
    lemma_bfs_renamed(t, q, g, a.sigma, seq![a.q0], 0, q.len());
    assert forall|e: Edge| b.t@.contains(e) <==> tc.contains(e) by {
        assert(b.t@.to_multiset().count(e) == tc.to_multiset().count(e));
    }
    assert(reachable(b.t@, b.q0, b.q0)) by {
        assert(is_walk(b.t@, seq![b.q0]));
    }
    assert forall|k: int| 0 <= k < seq![b.q0].len() implies reachable(b.t@, b.q0, #[trigger] seq![b.q0][k]) by {
        assert(seq![b.q0][k] == b.q0);
    }
    lemma_bfs_same_edges(b.t@, tc, b.q0, b.q@, b.sigma, seq![b.q0], 0, q.len());
    assert(ob == oa.map_values(g));
    assert(pos_in(ob)(b.q0) == pos_in(oa)(a.q0)) by {
        lemma_last_index_renamed(oa, q, g, a.q0);
    }
    let ta = t.map_values(|e: Edge| rename_edge(pos_in(oa), e));
    let tb = tc.map_values(|e: Edge| rename_edge(pos_in(ob), e));
    assert forall|i: int| 0 <= i < ta.len() implies ta[i] == tb[i] by {
        let e = t[i];
        assert(q.contains(e.0) && q.contains(e.2));
        lemma_last_index_renamed(oa, q, g, e.0);
        lemma_last_index_renamed(oa, q, g, e.2);
        assert(tc[i] == rename_edge(g, e));
    }
    assert(ta =~= tb);
    lemma_map_multiset(b.t@, tc, |e: Edge| rename_edge(pos_in(ob), e));
    let fa = a.f@.map_values(pos_in(oa));
    let fb = fc.map_values(pos_in(ob));
    assert forall|i: int| 0 <= i < fa.len() implies fa[i] == fb[i] by {
        assert(q.contains(a.f@[i]));
        lemma_last_index_renamed(oa, q, g, a.f@[i]);
        assert(fc[i] == g(a.f@[i]));
    }
    assert(fa =~= fb);
    lemma_map_multiset(b.f@, fc, pos_in(ob));
    lemma_edge_le_total();
    vstd::seq_lib::lemma_sorted_unique(r.t@, s.t@, |x: Edge, y: Edge| edge_le(x, y));
    assert(vstd::relations::total_ordering(|x: usize, y: usize| x <= y));
    vstd::seq_lib::lemma_sorted_unique(r.f@, s.f@, |x: usize, y: usize| x <= y);
}

} // verus!
