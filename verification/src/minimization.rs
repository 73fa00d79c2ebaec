//! Simplifications of finite automata: dropping the nodes that cannot be
//! reached from the start or cannot reach a halting node.
use vstd::prelude::*;
use std::collections::HashSet;
use std::collections::HashMap;
use crate::fa::{
    FA, Edge, parts_valid, captures, lemma_captures_edge, targets, positions, pos_in, last_index,
    rename_edge, lemma_last_index, lemma_edge_in_targets,
};
use crate::sorting::{edges_sorted, nums_sorted, sort_edges, sort_nums};

verus! {

broadcast use vstd::std_specs::hash::group_hash_axioms;

/// Some edge of `t` goes from `a` to `b`.
pub open spec fn has_edge(t: Seq<Edge>, a: usize, b: usize) -> bool {
    exists|j: int| 0 <= j < t.len() && (#[trigger] t[j]).0 == a && t[j].2 == b
}

/// `ns` is a walk along the edges of `t`.
pub open spec fn is_walk(t: Seq<Edge>, ns: Seq<usize>) -> bool {
    &&& ns.len() > 0
    &&& forall|i: int| 0 <= i < ns.len() - 1 ==> #[trigger] has_edge(t, ns[i], ns[i + 1])
}

/// Some walk along `t` leads from `a` to `b`.
pub open spec fn reachable(t: Seq<Edge>, a: usize, b: usize) -> bool {
    exists|ns: Seq<usize>| #[trigger] is_walk(t, ns) && ns[0] == a && ns.last() == b
}

/// Some walk along `t` leads from `a` to a node of `fs`.
pub open spec fn productive(t: Seq<Edge>, fs: Seq<usize>, a: usize) -> bool {
    exists|ns: Seq<usize>| #[trigger] is_walk(t, ns) && ns[0] == a && fs.contains(ns.last())
}

/// The edges of `t` with both ends kept by `keep`, in order.
pub open spec fn edges_within(t: Seq<Edge>, keep: spec_fn(usize) -> bool) -> Seq<Edge>
    decreases t.len(),
{
    if t.len() == 0 {
        Seq::empty()
    } else {
        let p = edges_within(t.drop_last(), keep);
        if keep(t.last().0) && keep(t.last().2) {
            p.push(t.last())
        } else {
            p
        }
    }
}

/// The nodes of `f` kept by `keep`, in order.
pub open spec fn nodes_within(f: Seq<usize>, keep: spec_fn(usize) -> bool) -> Seq<usize>
    decreases f.len(),
{
    if f.len() == 0 {
        Seq::empty()
    } else {
        let p = nodes_within(f.drop_last(), keep);
        if keep(f.last()) {
            p.push(f.last())
        } else {
            p
        }
    }
}

/// The walk `ns` extended by one edge.
pub proof fn lemma_walk_push(t: Seq<Edge>, ns: Seq<usize>, b: usize)
    requires
        is_walk(t, ns),
        has_edge(t, ns.last(), b),
    ensures
        is_walk(t, ns.push(b)),
{
    assert forall|i: int| 0 <= i < ns.push(b).len() - 1 implies #[trigger] has_edge(
        t,
        ns.push(b)[i],
        ns.push(b)[i + 1],
    ) by {
        if i < ns.len() - 1 {
            assert(has_edge(t, ns[i], ns[i + 1]));
        }
    }
}

/// The edges kept by `edges_within` are exactly those of `t` whose ends are kept.
pub proof fn lemma_edges_within(t: Seq<Edge>, keep: spec_fn(usize) -> bool)
    ensures
        forall|e: Edge| #[trigger] edges_within(t, keep).contains(e) <==> t.contains(e) && keep(e.0) && keep(e.2),
    decreases t.len(),
{
    if t.len() > 0 {
        lemma_edges_within(t.drop_last(), keep);
        let p = edges_within(t.drop_last(), keep);
        assert forall|e: Edge| #[trigger] edges_within(t, keep).contains(e) <==> t.contains(e) && keep(e.0)
            && keep(e.2) by {
            if t.contains(e) && e != t.last() {
                let j = choose|j: int| 0 <= j < t.len() && t[j] == e;
                assert(t.drop_last()[j] == e);
            }
            if t.drop_last().contains(e) {
                let j = choose|j: int| 0 <= j < t.drop_last().len() && t.drop_last()[j] == e;
                assert(t[j] == e);
            }
            if keep(t.last().0) && keep(t.last().2) {
                if p.push(t.last()).contains(e) && e != t.last() {
                    let j = choose|j: int| 0 <= j < p.push(t.last()).len() && p.push(t.last())[j] == e;
                    assert(p[j] == e);
                }
                if p.contains(e) {
                    let j = choose|j: int| 0 <= j < p.len() && p[j] == e;
                    assert(p.push(t.last())[j] == e);
                }
                assert(p.push(t.last())[p.len() as int] == t.last());
            }
            assert(t[t.len() - 1] == t.last());
        }
    }
}

/// The nodes kept by `nodes_within` are exactly those of `f` that are kept.
pub proof fn lemma_nodes_within(f: Seq<usize>, keep: spec_fn(usize) -> bool)
    ensures
        forall|n: usize| #[trigger] nodes_within(f, keep).contains(n) <==> f.contains(n) && keep(n),
    decreases f.len(),
{
    if f.len() > 0 {
        lemma_nodes_within(f.drop_last(), keep);
        let p = nodes_within(f.drop_last(), keep);
        assert forall|n: usize| #[trigger] nodes_within(f, keep).contains(n) <==> f.contains(n) && keep(n) by {
            if f.contains(n) && n != f.last() {
                let j = choose|j: int| 0 <= j < f.len() && f[j] == n;
                assert(f.drop_last()[j] == n);
            }
            if f.drop_last().contains(n) {
                let j = choose|j: int| 0 <= j < f.drop_last().len() && f.drop_last()[j] == n;
                assert(f[j] == n);
            }
            if keep(f.last()) {
                if p.push(f.last()).contains(n) && n != f.last() {
                    let j = choose|j: int| 0 <= j < p.push(f.last()).len() && p.push(f.last())[j] == n;
                    assert(p[j] == n);
                }
                if p.contains(n) {
                    let j = choose|j: int| 0 <= j < p.len() && p[j] == n;
                    assert(p.push(f.last())[j] == n);
                }
                assert(p.push(f.last())[p.len() as int] == f.last());
            }
            assert(f[f.len() - 1] == f.last());
        }
    }
}

/// A walk whose nodes are all kept is a walk along the kept edges.
pub proof fn lemma_walk_within(t: Seq<Edge>, keep: spec_fn(usize) -> bool, ns: Seq<usize>)
    requires
        is_walk(t, ns),
        forall|i: int| 0 <= i < ns.len() ==> keep(#[trigger] ns[i]),
    ensures
        is_walk(edges_within(t, keep), ns),
{
    lemma_edges_within(t, keep);
    assert forall|i: int| 0 <= i < ns.len() - 1 implies #[trigger] has_edge(
        edges_within(t, keep),
        ns[i],
        ns[i + 1],
    ) by {
        assert(has_edge(t, ns[i], ns[i + 1]));
        let j = choose|j: int| 0 <= j < t.len() && (#[trigger] t[j]).0 == ns[i] && t[j].2 == ns[i + 1];
        assert(keep(ns[i]) && keep(ns[i + 1]));
        assert(t.contains(t[j]));
        let s = edges_within(t, keep);
        assert(s.contains(t[j]));
        let k = choose|k: int| 0 <= k < s.len() && s[k] == t[j];
        assert(s[k].0 == ns[i] && s[k].2 == ns[i + 1]);
    }
}

/// Every node on a walk from `a` is reachable from `a`.
pub proof fn lemma_walk_reachable(t: Seq<Edge>, ns: Seq<usize>, i: int)
    requires
        is_walk(t, ns),
        0 <= i < ns.len(),
    ensures
        reachable(t, ns[0], ns[i]),
{
    let p = ns.take(i + 1);
    assert forall|k: int| 0 <= k < p.len() - 1 implies #[trigger] has_edge(t, p[k], p[k + 1]) by {
        assert(has_edge(t, ns[k], ns[k + 1]));
    }
    assert(is_walk(t, p));
}

/// Every node on a walk ending in `fs` is productive.
pub proof fn lemma_walk_productive(t: Seq<Edge>, fs: Seq<usize>, ns: Seq<usize>, i: int)
    requires
        is_walk(t, ns),
        fs.contains(ns.last()),
        0 <= i < ns.len(),
    ensures
        productive(t, fs, ns[i]),
{
    let p = ns.skip(i);
    assert forall|k: int| 0 <= k < p.len() - 1 implies #[trigger] has_edge(t, p[k], p[k + 1]) by {
        assert(has_edge(t, ns[i + k], ns[i + k + 1]));
    }
    assert(is_walk(t, p));
    assert(p.last() == ns.last());
}

/// A sequence without repeats whose elements all occur in `b` is no longer than `b`.
pub proof fn lemma_unique_within(a: Seq<usize>, b: Seq<usize>)
    requires
        a.no_duplicates(),
        forall|i: int| 0 <= i < a.len() ==> b.contains(#[trigger] a[i]),
    ensures
        a.len() <= b.len(),
{
    broadcast use vstd::seq_lib::seq_to_set_is_finite;

    a.unique_seq_to_set();
    b.lemma_cardinality_of_set();
    assert forall|x: usize| a.to_set().contains(x) implies b.to_set().contains(x) by {
        let i = choose|i: int| 0 <= i < a.len() && a[i] == x;
    }
    vstd::set_lib::lemma_len_subset(a.to_set(), b.to_set());
}

/// A set that holds the start of a walk and is closed under the edges holds the whole walk.
pub proof fn lemma_closed_walk(t: Seq<Edge>, r: Set<usize>, ns: Seq<usize>, i: int)
    requires
        is_walk(t, ns),
        r.contains(ns[0]),
        forall|j: int| 0 <= j < t.len() && r.contains((#[trigger] t[j]).0) ==> r.contains(t[j].2),
        0 <= i < ns.len(),
    ensures
        r.contains(ns[i]),
    decreases i,
{
    if i > 0 {
        let k = i - 1;
        lemma_closed_walk(t, r, ns, k);
        assert(has_edge(t, ns[k], ns[k + 1]));
        let j = choose|j: int| 0 <= j < t.len() && (#[trigger] t[j]).0 == ns[k] && t[j].2 == ns[k + 1];
    }
}

/// A set that holds the end of a walk and holds the start of every edge whose
/// end it holds, holds the whole walk.
pub proof fn lemma_coclosed_walk(t: Seq<Edge>, r: Set<usize>, ns: Seq<usize>, i: int)
    requires
        is_walk(t, ns),
        r.contains(ns.last()),
        forall|j: int| 0 <= j < t.len() && r.contains((#[trigger] t[j]).2) ==> r.contains(t[j].0),
        0 <= i < ns.len(),
    ensures
        r.contains(ns[i]),
    decreases ns.len() - i,
{
    if i < ns.len() - 1 {
        lemma_coclosed_walk(t, r, ns, i + 1);
        assert(has_edge(t, ns[i], ns[i + 1]));
        let j = choose|j: int| 0 <= j < t.len() && (#[trigger] t[j]).0 == ns[i] && t[j].2 == ns[i + 1];
    }
}

/// A walk with one edge put in front.
pub proof fn lemma_walk_prepend(t: Seq<Edge>, a: usize, ns: Seq<usize>)
    requires
        is_walk(t, ns),
        has_edge(t, a, ns[0]),
    ensures
        is_walk(t, seq![a] + ns),
        (seq![a] + ns)[0] == a,
        (seq![a] + ns).last() == ns.last(),
{
    let w = seq![a] + ns;
    assert forall|i: int| 0 <= i < w.len() - 1 implies #[trigger] has_edge(t, w[i], w[i + 1]) by {
        if i > 0 {
            let k = i - 1;
            assert(w[i] == ns[k] && w[i + 1] == ns[k + 1]);
            assert(has_edge(t, ns[k], ns[k + 1]));
        }
    }
}

/// Whether some element of `v` is in `s`.
fn any_member(v: &Vec<usize>, s: &HashSet<usize>) -> (r: bool)
    ensures
        r == exists|d: int| 0 <= d < v@.len() && s@.contains(#[trigger] v@[d]),
{
    let mut c: usize = 0;
    while c < v.len()
        invariant
            c <= v.len(),
            forall|d: int| 0 <= d < c ==> !s@.contains(#[trigger] v@[d]),
        decreases v.len() - c,
    {
        if s.contains(&v[c]) {
            return true;
        }
        c = c + 1;
    }
    false
}

/// An element of the followers of `n` is the end of an edge from `n`.
pub proof fn lemma_successor_edge(t: Seq<Edge>, n: usize, sigma: usize, d: int)
    requires
        0 <= d < captures(t, n, sigma as nat).len(),
    ensures
        has_edge(t, n, captures(t, n, sigma as nat)[d].1),
{
    lemma_captures_edge(t, n, sigma as nat, d);
    let caps = captures(t, n, sigma as nat);
    let j = choose|j: int| 0 <= j < t.len() && #[trigger] t[j] == (n, caps[d].0, caps[d].1);
    assert(t[j].0 == n && t[j].2 == caps[d].1);
}

/// A node with an edge to a productive node is productive.
pub proof fn lemma_prepend_productive(t: Seq<Edge>, f: Seq<usize>, a: usize, m: usize)
    requires
        has_edge(t, a, m),
        productive(t, f, m),
    ensures
        productive(t, f, a),
{
    let ns = choose|ns: Seq<usize>| #[trigger] is_walk(t, ns) && ns[0] == m && f.contains(ns.last());
    lemma_walk_prepend(t, a, ns);
    assert(is_walk(t, seq![a] + ns));
}

/// One more node checked in a pass that adds nothing: if none of its followers
/// is in `p`, or it is in `p` itself, every edge from it into `p` starts in `p`.
pub proof fn lemma_pass_step(t: Seq<Edge>, sigma: usize, p: Set<usize>, done: Seq<usize>, n1: usize, succ: Seq<usize>)
    requires
        succ == captures(t, n1, sigma as nat).map_values(|e: (usize, usize)| e.1),
        forall|j: int| 0 <= j < t.len() ==> (#[trigger] t[j]).1 < sigma,
        p.contains(n1) || forall|d: int| 0 <= d < succ.len() ==> !p.contains(#[trigger] succ[d]),
        forall|j: int|
            0 <= j < t.len() && p.contains((#[trigger] t[j]).2) && done.contains(t[j].0) ==> p.contains(t[j].0),
    ensures
        forall|j: int|
            0 <= j < t.len() && p.contains((#[trigger] t[j]).2) && done.push(n1).contains(t[j].0) ==> p.contains(
                t[j].0,
            ),
{
    assert forall|j: int|
        0 <= j < t.len() && p.contains((#[trigger] t[j]).2) && done.push(n1).contains(t[j].0) implies p.contains(
        t[j].0,
    ) by {
        crate::fa::lemma_push_contains(done, n1, t[j].0);
        if t[j].0 == n1 && !done.contains(n1) && !p.contains(n1) {
            crate::fa::lemma_edge_in_captures(t, j, sigma as nat);
            let caps = captures(t, n1, sigma as nat);
            let d = choose|d: int| 0 <= d < caps.len() && caps[d] == (t[j].1, t[j].2);
            assert(succ[d] == t[j].2);
        }
    }
}

/// An accepting walk from the start: along the edges of `t`, from `q0`, to a node of `f`.
pub open spec fn accepting(t: Seq<Edge>, q0: usize, f: Seq<usize>, ns: Seq<usize>) -> bool {
    is_walk(t, ns) && ns[0] == q0 && f.contains(ns.last())
}

/// A walk along kept edges is a walk along all the edges.
pub proof fn lemma_walk_widen(t: Seq<Edge>, keep: spec_fn(usize) -> bool, ns: Seq<usize>)
    requires
        is_walk(edges_within(t, keep), ns),
    ensures
        is_walk(t, ns),
{
    lemma_edges_within(t, keep);
    let s = edges_within(t, keep);
    assert forall|i: int| 0 <= i < ns.len() - 1 implies #[trigger] has_edge(t, ns[i], ns[i + 1]) by {
        assert(has_edge(s, ns[i], ns[i + 1]));
        let j = choose|j: int| 0 <= j < s.len() && (#[trigger] s[j]).0 == ns[i] && s[j].2 == ns[i + 1];
        assert(s.contains(s[j]));
        let k = choose|k: int| 0 <= k < t.len() && t[k] == s[j];
    }
}

/// An accepting walk keeps all its nodes when the unproductive ones are dropped.
pub proof fn lemma_accepting_unproductive(t: Seq<Edge>, q0: usize, f: Seq<usize>, ns: Seq<usize>)
    requires
        accepting(t, q0, f, ns),
    ensures
        accepting(edges_within(t, |n: usize| productive(t, f, n)), q0, f, ns),
{
    let keep = |n: usize| productive(t, f, n);
    assert forall|i: int| 0 <= i < ns.len() implies keep(#[trigger] ns[i]) by {
        lemma_walk_productive(t, f, ns, i);
    }
    lemma_walk_within(t, keep, ns);
}

/// An accepting walk keeps all its nodes when the unreachable ones are dropped.
pub proof fn lemma_accepting_unreachable(t: Seq<Edge>, q0: usize, f: Seq<usize>, ns: Seq<usize>)
    requires
        accepting(t, q0, f, ns),
    ensures
        accepting(
            edges_within(t, |n: usize| reachable(t, q0, n)),
            q0,
            nodes_within(f, |n: usize| reachable(t, q0, n)),
            ns,
        ),
{
    let keep = |n: usize| reachable(t, q0, n);
    assert forall|i: int| 0 <= i < ns.len() implies keep(#[trigger] ns[i]) by {
        lemma_walk_reachable(t, ns, i);
    }
    lemma_walk_within(t, keep, ns);
    lemma_nodes_within(f, keep);
}

/// `ns` visits its nodes along edges of `t` that read the letters `xs` in turn.
pub open spec fn is_run(t: Seq<Edge>, ns: Seq<usize>, xs: Seq<usize>) -> bool {
    &&& ns.len() == xs.len() + 1
    &&& forall|i: int| 0 <= i < xs.len() ==> #[trigger] t.contains((ns[i], xs[i], ns[i + 1]))
}

/// A run from `q0` to a node of `f`, reading `xs`.
pub open spec fn accepting_run(t: Seq<Edge>, q0: usize, f: Seq<usize>, ns: Seq<usize>, xs: Seq<usize>) -> bool {
    is_run(t, ns, xs) && ns[0] == q0 && f.contains(ns.last())
}

/// The word `xs` is accepted: some run from `q0` to a node of `f` reads it.
pub open spec fn accepts(t: Seq<Edge>, q0: usize, f: Seq<usize>, xs: Seq<usize>) -> bool {
    exists|ns: Seq<usize>| #[trigger] accepting_run(t, q0, f, ns, xs)
}

/// The nodes of a run make a walk.
pub proof fn lemma_run_walk(t: Seq<Edge>, ns: Seq<usize>, xs: Seq<usize>)
    requires
        is_run(t, ns, xs),
    ensures
        is_walk(t, ns),
{
    assert forall|i: int| 0 <= i < ns.len() - 1 implies #[trigger] has_edge(t, ns[i], ns[i + 1]) by {
        assert(t.contains((ns[i], xs[i], ns[i + 1])));
        let j = choose|j: int| 0 <= j < t.len() && t[j] == (ns[i], xs[i], ns[i + 1]);
        assert(t[j].0 == ns[i] && t[j].2 == ns[i + 1]);
    }
}

/// A run whose nodes are all kept runs along the kept edges, and back.
pub proof fn lemma_run_within(t: Seq<Edge>, keep: spec_fn(usize) -> bool, ns: Seq<usize>, xs: Seq<usize>)
    ensures
        is_run(edges_within(t, keep), ns, xs) ==> is_run(t, ns, xs),
        is_run(t, ns, xs) && (forall|i: int| 0 <= i < ns.len() ==> keep(#[trigger] ns[i])) ==> is_run(
            edges_within(t, keep),
            ns,
            xs,
        ),
{
    lemma_edges_within(t, keep);
    let s = edges_within(t, keep);
    if is_run(s, ns, xs) {
        assert forall|i: int| 0 <= i < xs.len() implies #[trigger] t.contains((ns[i], xs[i], ns[i + 1])) by {
            assert(s.contains((ns[i], xs[i], ns[i + 1])));
        }
    }
    if is_run(t, ns, xs) && (forall|i: int| 0 <= i < ns.len() ==> keep(#[trigger] ns[i])) {
        assert forall|i: int| 0 <= i < xs.len() implies #[trigger] s.contains((ns[i], xs[i], ns[i + 1])) by {
            assert(keep(ns[i]) && keep(ns[i + 1]));
            assert(t.contains((ns[i], xs[i], ns[i + 1])));
        }
    }
}

/// An accepting run keeps all its nodes when the unproductive ones are dropped.
pub proof fn lemma_run_unproductive(t: Seq<Edge>, q0: usize, f: Seq<usize>, ns: Seq<usize>, xs: Seq<usize>)
    requires
        accepting_run(t, q0, f, ns, xs),
    ensures
        accepting_run(edges_within(t, |n: usize| productive(t, f, n)), q0, f, ns, xs),
{
    let keep = |n: usize| productive(t, f, n);
    lemma_run_walk(t, ns, xs);
    assert forall|i: int| 0 <= i < ns.len() implies keep(#[trigger] ns[i]) by {
        lemma_walk_productive(t, f, ns, i);
    }
    lemma_run_within(t, keep, ns, xs);
}

/// An accepting run keeps all its nodes when the unreachable ones are dropped.
pub proof fn lemma_run_unreachable(t: Seq<Edge>, q0: usize, f: Seq<usize>, ns: Seq<usize>, xs: Seq<usize>)
    requires
        accepting_run(t, q0, f, ns, xs),
    ensures
        accepting_run(
            edges_within(t, |n: usize| reachable(t, q0, n)),
            q0,
            nodes_within(f, |n: usize| reachable(t, q0, n)),
            ns,
            xs,
        ),
{
    let keep = |n: usize| reachable(t, q0, n);
    lemma_run_walk(t, ns, xs);
    assert forall|i: int| 0 <= i < ns.len() implies keep(#[trigger] ns[i]) by {
        lemma_walk_reachable(t, ns, i);
    }
    lemma_run_within(t, keep, ns, xs);
    lemma_nodes_within(f, keep);
}

/// A node reachable from a node of `q` is a node of `q`, when every edge ends in `q`.
pub proof fn lemma_reachable_node(t: Seq<Edge>, q: Seq<usize>, a: usize, n: usize)
    requires
        q.contains(a),
        forall|j: int| 0 <= j < t.len() ==> q.contains((#[trigger] t[j]).0) && q.contains(t[j].2),
        reachable(t, a, n),
    ensures
        q.contains(n),
{
    let ns = choose|ns: Seq<usize>| #[trigger] is_walk(t, ns) && ns[0] == a && ns.last() == n;
    if ns.len() > 1 {
        assert(has_edge(t, ns[ns.len() - 2], ns[ns.len() - 2 + 1]));
        let j = choose|j: int| 0 <= j < t.len() && (#[trigger] t[j]).0 == ns[ns.len() - 2] && t[j].2 == ns[ns.len()
            - 2 + 1];
    }
}

/// A productive node is a node of `q`, when every edge and halting node is in `q`.
pub proof fn lemma_productive_node(t: Seq<Edge>, q: Seq<usize>, f: Seq<usize>, n: usize)
    requires
        forall|i: int| 0 <= i < f.len() ==> q.contains(#[trigger] f[i]),
        forall|j: int| 0 <= j < t.len() ==> q.contains((#[trigger] t[j]).0) && q.contains(t[j].2),
        productive(t, f, n),
    ensures
        q.contains(n),
{
    let ns = choose|ns: Seq<usize>| #[trigger] is_walk(t, ns) && ns[0] == n && f.contains(ns.last());
    if ns.len() > 1 {
        let z: int = 0;
        assert(has_edge(t, ns[z], ns[z + 1]));
        let j = choose|j: int| 0 <= j < t.len() && (#[trigger] t[j]).0 == ns[z] && t[j].2 == ns[z + 1];
    } else {
        let i = choose|i: int| 0 <= i < f.len() && f[i] == ns.last();
    }
}

/// `o` after visiting `n1` for the letters below `x`: each letter's follower,
/// when there is one and it is new, is added at the end.
pub open spec fn visit(t: Seq<Edge>, o: Seq<usize>, n1: usize, x: nat) -> Seq<usize>
    decreases x,
{
    if x == 0 {
        o
    } else {
        let p = visit(t, o, n1, (x - 1) as nat);
        let s = targets(t, n1, (x - 1) as usize);
        if s.len() > 0 && !p.contains(s[0]) {
            p.push(s[0])
        } else {
            p
        }
    }
}

/// Breadth-first discovery from position `i` of `o` on, for at most `fuel` visits.
pub open spec fn bfs_from(t: Seq<Edge>, sigma: usize, o: Seq<usize>, i: nat, fuel: nat) -> Seq<usize>
    decreases fuel,
{
    if fuel == 0 || i >= o.len() {
        o
    } else {
        bfs_from(t, sigma, visit(t, o, o[i as int], sigma as nat), i + 1, (fuel - 1) as nat)
    }
}

/// The nodes in the order a breadth-first search from `q0` meets them, letters
/// tried in increasing order.
pub open spec fn bfs_order(t: Seq<Edge>, sigma: usize, q0: usize, fuel: nat) -> Seq<usize> {
    bfs_from(t, sigma, seq![q0], 0, fuel)
}

/// `a` can be relabelled: it is well formed, deterministic on the nodes that
/// can be reached from the start, and every edge and halting node can be
/// reached from the start.
pub open spec fn relabel_ready(a: FA) -> bool {
    &&& a.wf()
    &&& forall|n: usize, x: usize|
        reachable(a.t@, a.q0, n) && x < a.sigma ==> #[trigger] targets(a.t@, n, x).len() <= 1
    &&& forall|j: int| 0 <= j < a.t@.len() ==> reachable(a.t@, a.q0, (#[trigger] a.t@[j]).0)
    &&& forall|i: int| 0 <= i < a.f@.len() ==> reachable(a.t@, a.q0, #[trigger] a.f@[i])
}

/// `r` is `a` with every node renamed to its place in the breadth-first order
/// from the start, with its edges and halting nodes sorted.
pub open spec fn bfs_relabelled(a: FA, r: FA) -> bool {
    let o = bfs_order(a.t@, a.sigma, a.q0, a.q@.len());
    &&& r.wf()
    &&& r.q@ == positions(a.q@.len())
    &&& r.sigma == a.sigma
    &&& r.q0 == 0
    &&& edges_sorted(r.t@)
    &&& r.t@.to_multiset() == a.t@.map_values(|e: Edge| rename_edge(pos_in(o), e)).to_multiset()
    &&& nums_sorted(r.f@)
    &&& r.f@.to_multiset() == a.f@.map_values(pos_in(o)).to_multiset()
}

/// The follower of a reachable node is reachable.
pub proof fn lemma_edge_in_targets_reachable(t: Seq<Edge>, q0: usize, n1: usize, x: usize, q: Seq<usize>)
    requires
        reachable(t, q0, n1),
        targets(t, n1, x).len() > 0,
        forall|i: int| 0 <= i < t.len() ==> q.contains((#[trigger] t[i]).0) && q.contains(t[i].2),
    ensures
        reachable(t, q0, targets(t, n1, x)[0]),
        q.contains(targets(t, n1, x)[0]),
{
    crate::fa::lemma_targets_edge(t, n1, x, 0);
    let m = targets(t, n1, x)[0];
    let j = choose|j: int| 0 <= j < t.len() && #[trigger] t[j] == (n1, x, m);
    let ns = choose|ns: Seq<usize>| #[trigger] is_walk(t, ns) && ns[0] == q0 && ns.last() == n1;
    assert(has_edge(t, ns.last(), m));
    lemma_walk_push(t, ns, m);
    assert(ns.push(m)[0] == q0);
}

/// `b` keeps the productive nodes of `a`, with the start listed once more at
/// the end: its nodes are nodes of `a`.
pub proof fn lemma_unproductive_subset(a: FA, b: FA)
    requires
        a.wf(),
        b.q@.len() > 0,
        b.q@.last() == a.q0,
        forall|n: usize| #[trigger] b.q@.drop_last().contains(n) <==> productive(a.t@, a.f@, n),
    ensures
        forall|n: usize| #[trigger] b.q@.contains(n) ==> a.q@.contains(n),
{
    assert forall|n: usize| #[trigger] b.q@.contains(n) implies a.q@.contains(n) by {
        let i = choose|i: int| 0 <= i < b.q@.len() && b.q@[i] == n;
        if i < b.q@.len() - 1 {
            assert(b.q@.drop_last()[i] == n);
            assert(b.q@.drop_last().contains(n));
            lemma_productive_node(a.t@, a.q@, a.f@, n);
        }
    }
}

/// `b` keeps the nodes of `a` reachable from the start: its nodes are nodes of `a`.
pub proof fn lemma_unreachable_subset(a: FA, b: FA)
    requires
        a.wf(),
        forall|n: usize| #[trigger] b.q@.contains(n) <==> reachable(a.t@, a.q0, n),
    ensures
        forall|n: usize| #[trigger] b.q@.contains(n) ==> a.q@.contains(n),
{
    assert forall|n: usize| #[trigger] b.q@.contains(n) implies a.q@.contains(n) by {
        lemma_reachable_node(a.t@, a.q@, a.q0, n);
    }
}

/// After dropping the unreachable nodes of `a` (giving `b`) and then the
/// unproductive nodes of `b` (giving `c`), every node of `c` is reachable from
/// the start, and every node but the start reaches a halting node.
pub proof fn lemma_trimmed(a: FA, b: FA, c: FA)
    requires
        a.wf(),
        b.wf(),
        b.q0 == a.q0,
        forall|n: usize| #[trigger] b.q@.contains(n) <==> reachable(a.t@, a.q0, n),
        b.t@ == edges_within(a.t@, |n: usize| reachable(a.t@, a.q0, n)),
        c.q0 == b.q0,
        c.f@ == b.f@,
        c.q@.len() > 0,
        c.q@.last() == b.q0,
        forall|n: usize| #[trigger] c.q@.drop_last().contains(n) <==> productive(b.t@, b.f@, n),
        c.t@ == edges_within(b.t@, |n: usize| productive(b.t@, b.f@, n)),
    ensures
        forall|n: usize| #[trigger] c.q@.contains(n) ==> reachable(c.t@, c.q0, n),
        forall|n: usize| c.q@.contains(n) && n != c.q0 ==> #[trigger] productive(c.t@, c.f@, n),
{
    let prod = |n: usize| productive(b.t@, b.f@, n);
    let reach = |n: usize| reachable(a.t@, a.q0, n);
    assert forall|n: usize| c.q@.contains(n) && n != c.q0 implies #[trigger] c.q@.drop_last().contains(n) by {
        let i = choose|i: int| 0 <= i < c.q@.len() && c.q@[i] == n;
        assert(i != c.q@.len() - 1);
        assert(c.q@.drop_last()[i] == n);
    }
    assert forall|n: usize| #[trigger] c.q@.contains(n) implies reachable(c.t@, c.q0, n) by {
        if n == c.q0 {
            assert(is_walk(c.t@, seq![n]));
        } else {
            assert(c.q@.drop_last().contains(n));
            assert(productive(b.t@, b.f@, n));
            lemma_productive_node(b.t@, b.q@, b.f@, n);
            assert(reachable(a.t@, a.q0, n));
            let ns = choose|ns: Seq<usize>| #[trigger] is_walk(a.t@, ns) && ns[0] == a.q0 && ns.last() == n;
            assert forall|i: int| 0 <= i < ns.len() implies reach(#[trigger] ns[i]) by {
                lemma_walk_reachable(a.t@, ns, i);
            }
            lemma_walk_within(a.t@, reach, ns);
            let ps = Set::new(|m: usize| productive(b.t@, b.f@, m));
            assert forall|j: int| 0 <= j < b.t@.len() && ps.contains((#[trigger] b.t@[j]).2) implies ps.contains(b.t@[j].0) by {
                assert(has_edge(b.t@, b.t@[j].0, b.t@[j].2));
                lemma_prepend_productive(b.t@, b.f@, b.t@[j].0, b.t@[j].2);
            }
            assert forall|i: int| 0 <= i < ns.len() implies prod(#[trigger] ns[i]) by {
                lemma_coclosed_walk(b.t@, ps, ns, i);
            }
            lemma_walk_within(b.t@, prod, ns);
        }
    }
    assert forall|n: usize| c.q@.contains(n) && n != c.q0 implies #[trigger] productive(c.t@, c.f@, n) by {
        assert(c.q@.drop_last().contains(n));
        let ns = choose|ns: Seq<usize>| #[trigger] is_walk(b.t@, ns) && ns[0] == n && b.f@.contains(ns.last());
        assert forall|i: int| 0 <= i < ns.len() implies prod(#[trigger] ns[i]) by {
            lemma_walk_productive(b.t@, b.f@, ns, i);
        }
        lemma_walk_within(b.t@, prod, ns);
    }
}

impl FA {
    /// The automaton restricted to the nodes that can be reached from the start;
    /// the nodes come in no particular order.
    pub fn remove_unreachable_nodes(&self) -> (r: FA)
        requires
            self.wf(),
            exists|i: int| 0 <= i < self.f@.len() && reachable(self.t@, self.q0, #[trigger] self.f@[i]),
        ensures
            r.wf(),
            r.sigma == self.sigma,
            r.q0 == self.q0,
            r.q@.no_duplicates(),
            forall|n: usize| #[trigger] r.q@.contains(n) <==> reachable(self.t@, self.q0, n),
            r.t@ == edges_within(self.t@, |n: usize| reachable(self.t@, self.q0, n)),
            r.f@ == nodes_within(self.f@, |n: usize| reachable(self.t@, self.q0, n)),
    {
        let ghost keep = |n: usize| reachable(self.t@, self.q0, n);
        let mut seen: HashSet<usize> = HashSet::new();
        seen.insert(self.q0);
        let mut order: Vec<usize> = Vec::new();
        order.push(self.q0);
        let mut searchers: Vec<usize> = Vec::new();
        searchers.push(self.q0);
        proof {
            let w = seq![self.q0];
            assert(is_walk(self.t@, w));
            assert(order@ =~= w);
            assert(searchers@ =~= w);
            assert forall|n: usize| #[trigger] seen@.contains(n) <==> order@.contains(n) by {
                if order@.contains(n) {
                    let i = choose|i: int| 0 <= i < order@.len() && order@[i] == n;
                }
                assert(order@[0] == self.q0);
            }
        }
        while searchers.len() > 0
            invariant
                self.wf(),
                forall|n: usize| #[trigger] seen@.contains(n) <==> order@.contains(n),
                order@.no_duplicates(),
                searchers@.no_duplicates(),
                forall|i: int| 0 <= i < searchers@.len() ==> seen@.contains(#[trigger] searchers@[i]),
                seen@.contains(self.q0),
                forall|n: usize| #[trigger] seen@.contains(n) ==> reachable(self.t@, self.q0, n) && self.q@.contains(n),
                forall|n: usize|
                    #[trigger] seen@.contains(n) ==> searchers@.contains(n) || forall|j: int|
                        0 <= j < self.t@.len() && (#[trigger] self.t@[j]).0 == n ==> seen@.contains(self.t@[j].2),
            decreases 2 * (self.q@.len() - order@.len()) + searchers@.len(),
        {
            proof {
                assert forall|i: int| 0 <= i < order@.len() implies self.q@.contains(#[trigger] order@[i]) by {
                    assert(order@.contains(order@[i]));
                    assert(seen@.contains(order@[i]));
                }
                lemma_unique_within(order@, self.q@);
            }
            let ghost before = searchers@;
            let n1 = searchers.pop().unwrap();
            proof {
                assert(before =~= searchers@.push(n1));
                assert(seen@.contains(n1) == before.contains(n1));
                assert(before[before.len() - 1] == n1);
                assert(!searchers@.contains(n1)) by {
                    if searchers@.contains(n1) {
                        let i = choose|i: int| 0 <= i < searchers@.len() && searchers@[i] == n1;
                        assert(before[i] == before[before.len() - 1]);
                    }
                }
                assert forall|n: usize| before.contains(n) && n != n1 implies #[trigger] searchers@.contains(n) by {
                    if before.contains(n) && n != n1 {
                        let i = choose|i: int| 0 <= i < before.len() && before[i] == n;
                        assert(searchers@[i] == n);
                    }
                }
                assert(seen@.contains(n1));
            }
            let succ = self.edges_of_node(n1);
            let ghost len0 = order@.len();
            let ghost sl0 = searchers@.len();
            let mut c: usize = 0;
            while c < succ.len()
                invariant
                    self.wf(),
                    self.q@.contains(n1),
                    seen@.contains(n1),
                    !searchers@.contains(n1),
                    succ@ == captures(self.t@, n1, self.sigma as nat).map_values(|e: (usize, usize)| e.1),
                    c <= succ.len(),
                    forall|i: int| 0 <= i < c ==> seen@.contains(#[trigger] succ@[i]),
                    forall|n: usize| #[trigger] seen@.contains(n) <==> order@.contains(n),
                    order@.no_duplicates(),
                    searchers@.no_duplicates(),
                    forall|i: int| 0 <= i < searchers@.len() ==> seen@.contains(#[trigger] searchers@[i]),
                    seen@.contains(self.q0),
                    forall|n: usize| #[trigger] seen@.contains(n) ==> reachable(self.t@, self.q0, n) && self.q@.contains(n),
                    forall|n: usize|
                        #[trigger] seen@.contains(n) && n != n1 ==> searchers@.contains(n) || forall|j: int|
                            0 <= j < self.t@.len() && (#[trigger] self.t@[j]).0 == n ==> seen@.contains(self.t@[j].2),
                    order@.len() - len0 == searchers@.len() - sl0,
                    order@.len() >= len0,
                decreases succ.len() - c,
            {
                let n2 = succ[c];
                proof {
                    lemma_captures_edge(self.t@, n1, self.sigma as nat, c as int);
                }
                if !seen.contains(&n2) {
                    proof {
                        let j = choose|j: int| 0 <= j < self.t@.len() && #[trigger] self.t@[j] == (
                            n1,
                            captures(self.t@, n1, self.sigma as nat)[c as int].0,
                            n2,
                        );
                        assert(self.q@.contains(self.t@[j].2));
                        let ns = choose|ns: Seq<usize>| #[trigger] is_walk(self.t@, ns) && ns[0] == self.q0 && ns.last() == n1;
                        assert(has_edge(self.t@, ns.last(), n2));
                        lemma_walk_push(self.t@, ns, n2);
                        assert(ns.push(n2)[0] == self.q0);
                        assert(!searchers@.contains(n2));
                        assert(!order@.contains(n2));
                    }
                    let ghost seen0 = seen@;
                    let ghost order0 = order@;
                    let ghost search0 = searchers@;
                    if !crate::fa::contains(&searchers, n2) {
                        searchers.push(n2);
                    }
                    seen.insert(n2);
                    order.push(n2);
                    proof {
                        assert(searchers@ == search0.push(n2));
                        assert forall|n: usize| #[trigger] seen@.contains(n) <==> order@.contains(n) by {
                            crate::fa::lemma_push_contains(order0, n2, n);
                            assert(seen0.contains(n) <==> order0.contains(n));
                        }
                        assert forall|n: usize| search0.contains(n) implies #[trigger] searchers@.contains(n) by {
                            crate::fa::lemma_push_contains(search0, n2, n);
                        }
                        assert(searchers@.contains(n2)) by {
                            crate::fa::lemma_push_contains(search0, n2, n2);
                        }
                        assert forall|n: usize| #[trigger] seen@.contains(n) implies reachable(self.t@, self.q0, n) && self.q@.contains(n) by {
                            if seen0.contains(n) {
                            }
                        }
                        assert forall|i: int| 0 <= i < searchers@.len() implies seen@.contains(#[trigger] searchers@[i]) by {}
                        assert forall|n: usize| #[trigger] seen@.contains(n) && n != n1 implies searchers@.contains(n) || forall|j: int|
                            0 <= j < self.t@.len() && (#[trigger] self.t@[j]).0 == n ==> seen@.contains(self.t@[j].2) by {
                            if n != n2 {
                                assert(seen0.contains(n));
                                if !search0.contains(n) {
                                    assert forall|j: int| 0 <= j < self.t@.len() && (#[trigger] self.t@[j]).0 == n implies seen@.contains(self.t@[j].2) by {
                                        assert(seen0.contains(self.t@[j].2));
                                    }
                                }
                            }
                        }
                    }
                }
                c = c + 1;
            }
            proof {
                assert forall|j: int| 0 <= j < self.t@.len() && (#[trigger] self.t@[j]).0 == n1 implies seen@.contains(self.t@[j].2) by {
                    crate::fa::lemma_edge_in_captures(self.t@, j, self.sigma as nat);
                    let caps = captures(self.t@, n1, self.sigma as nat);
                    let i = choose|i: int| 0 <= i < caps.len() && caps[i] == (self.t@[j].1, self.t@[j].2);
                    assert(succ@[i] == self.t@[j].2);
                }
                assert forall|i: int| 0 <= i < order@.len() implies self.q@.contains(#[trigger] order@[i]) by {
                    assert(order@.contains(order@[i]));
                    assert(seen@.contains(order@[i]));
                }
                lemma_unique_within(order@, self.q@);
            }
        }
        proof {
            assert forall|j: int| 0 <= j < self.t@.len() && seen@.contains((#[trigger] self.t@[j]).0) implies seen@.contains(self.t@[j].2) by {
                let n = self.t@[j].0;
                assert(seen@.contains(n));
            }
            assert forall|n: usize| #[trigger] keep(n) <==> seen@.contains(n) by {
                if keep(n) {
                    let ns = choose|ns: Seq<usize>| #[trigger] is_walk(self.t@, ns) && ns[0] == self.q0 && ns.last() == n;
                    lemma_closed_walk(self.t@, seen@, ns, ns.len() - 1);
                }
            }
        }

        let mut new_t: Vec<Edge> = Vec::new();
        let mut k: usize = 0;
        while k < self.t.len()
            invariant
                k <= self.t.len(),
                forall|n: usize| #[trigger] keep(n) <==> seen@.contains(n),
                new_t@ == edges_within(self.t@.take(k as int), keep),
            decreases self.t.len() - k,
        {
            let e = self.t[k];
            assert(self.t@.take(k + 1).drop_last() =~= self.t@.take(k as int));
            if seen.contains(&e.0) && seen.contains(&e.2) {
                new_t.push(e);
            }
            k = k + 1;
        }
        assert(self.t@.take(self.t.len() as int) =~= self.t@);

        let mut new_f: Vec<usize> = Vec::new();
        let mut k: usize = 0;
        while k < self.f.len()
            invariant
                k <= self.f.len(),
                forall|n: usize| #[trigger] keep(n) <==> seen@.contains(n),
                new_f@ == nodes_within(self.f@.take(k as int), keep),
            decreases self.f.len() - k,
        {
            let n = self.f[k];
            assert(self.f@.take(k + 1).drop_last() =~= self.f@.take(k as int));
            if seen.contains(&n) {
                new_f.push(n);
            }
            k = k + 1;
        }
        assert(self.f@.take(self.f.len() as int) =~= self.f@);
        proof {
            lemma_edges_within(self.t@, keep);
            lemma_nodes_within(self.f@, keep);
            let i = choose|i: int| 0 <= i < self.f@.len() && reachable(self.t@, self.q0, #[trigger] self.f@[i]);
            assert(self.f@.contains(self.f@[i]));
            assert(new_f@.contains(self.f@[i]));
            assert(new_f@.len() != 0);
            assert(order@.contains(self.q0));
            assert forall|i: int| 0 <= i < new_f@.len() implies order@.contains(#[trigger] new_f@[i]) by {
                assert(new_f@.contains(new_f@[i]));
            }
            assert forall|n: usize| #[trigger] order@.contains(n) <==> reachable(self.t@, self.q0, n) by {
                assert(keep(n) <==> seen@.contains(n));
            }
            assert forall|i: int| 0 <= i < new_t@.len() implies order@.contains((#[trigger] new_t@[i]).0)
                && order@.contains(new_t@[i].2) && new_t@[i].1 < self.sigma by {
                assert(new_t@.contains(new_t@[i]));
                let j = choose|j: int| 0 <= j < self.t@.len() && self.t@[j] == new_t@[i];
            }
        }
        FA::from(order, self.sigma, new_t, self.q0, new_f)
    }

    /// The automaton restricted to the nodes from which a halting node can be
    /// reached, with the start listed once more at the end; those nodes come
    /// in no particular order.
    pub fn remove_unproductive_nodes(&self) -> (r: FA)
        requires
            self.wf(),
        ensures
            r.wf(),
            r.sigma == self.sigma,
            r.q0 == self.q0,
            r.f@ == self.f@,
            r.q@.len() > 0,
            r.q@.last() == self.q0,
            r.q@.drop_last().no_duplicates(),
            forall|n: usize| #[trigger] r.q@.drop_last().contains(n) <==> productive(self.t@, self.f@, n),
            r.t@ == edges_within(self.t@, |n: usize| productive(self.t@, self.f@, n)),
    {
        let ghost keep = |n: usize| productive(self.t@, self.f@, n);
        let mut prod: HashSet<usize> = HashSet::new();
        let mut order: Vec<usize> = Vec::new();
        let mut k: usize = 0;
        while k < self.f.len()
            invariant
                self.wf(),
                k <= self.f.len(),
                forall|n: usize| #[trigger] prod@.contains(n) <==> order@.contains(n),
                order@.no_duplicates(),
                forall|n: usize| #[trigger] prod@.contains(n) ==> productive(self.t@, self.f@, n) && self.q@.contains(n),
                forall|i: int| 0 <= i < k ==> prod@.contains(#[trigger] self.f@[i]),
            decreases self.f.len() - k,
        {
            let n = self.f[k];
            let ghost order0 = order@;
            proof {
                let w = seq![n];
                assert(is_walk(self.t@, w));
                assert(self.f@.contains(w.last()));
                assert(self.q@.contains(self.f@[k as int]));
            }
            if prod.insert(n) {
                order.push(n);
            }
            proof {
                assert forall|m: usize| #[trigger] prod@.contains(m) <==> order@.contains(m) by {
                    crate::fa::lemma_push_contains(order0, n, m);
                }
            }
            k = k + 1;
        }

        let mut prev_len: usize = 0;
        proof {
            assert forall|i: int| 0 <= i < order@.len() implies self.q@.contains(#[trigger] order@[i]) by {
                assert(order@.contains(order@[i]));
                assert(prod@.contains(order@[i]));
            }
            lemma_unique_within(order@, self.q@);
            order@.unique_seq_to_set();
            assert(prod@ =~= order@.to_set());
        }
        while prod.len() > prev_len
            invariant
                self.wf(),
                forall|n: usize| #[trigger] prod@.contains(n) <==> order@.contains(n),
                prod@ == order@.to_set(),
                order@.no_duplicates(),
                order@.len() <= self.q@.len(),
                prev_len <= order@.len(),
                forall|n: usize| #[trigger] prod@.contains(n) ==> productive(self.t@, self.f@, n) && self.q@.contains(n),
                forall|i: int| 0 <= i < self.f@.len() ==> prod@.contains(#[trigger] self.f@[i]),
                order@.len() == prev_len ==> forall|j: int|
                    0 <= j < self.t@.len() && prod@.contains((#[trigger] self.t@[j]).2) ==> prod@.contains(self.t@[j].0),
            decreases self.q@.len() - prev_len,
        {
            proof {
                order@.unique_seq_to_set();
            }
            prev_len = prod.len();
            let ghost o0 = order@;
            let mut i: usize = 0;
            while i < self.q.len()
                invariant
                    self.wf(),
                    i <= self.q.len(),
                    forall|n: usize| #[trigger] prod@.contains(n) <==> order@.contains(n),
                    order@.no_duplicates(),
                    prev_len == o0.len(),
                    order@.len() >= prev_len,
                    order@.len() == prev_len ==> order@ == o0,
                    forall|n: usize| #[trigger] prod@.contains(n) ==> productive(self.t@, self.f@, n) && self.q@.contains(n),
                    forall|i: int| 0 <= i < self.f@.len() ==> prod@.contains(#[trigger] self.f@[i]),
                    order@.len() == prev_len ==> forall|j: int|
                        0 <= j < self.t@.len() && prod@.contains((#[trigger] self.t@[j]).2) && self.q@.take(
                            i as int,
                        ).contains(self.t@[j].0) ==> prod@.contains(self.t@[j].0),
                decreases self.q.len() - i,
            {
                let n1 = self.q[i];
                assert(self.q@.contains(n1));
                let succ = self.edges_of_node(n1);
                let any = any_member(&succ, &prod);
                let ghost order0 = order@;
                if any {
                    proof {
                        let d = choose|d: int| 0 <= d < succ@.len() && prod@.contains(#[trigger] succ@[d]);
                        lemma_successor_edge(self.t@, n1, self.sigma, d);
                        lemma_prepend_productive(self.t@, self.f@, n1, succ@[d]);
                    }
                    if prod.insert(n1) {
                        order.push(n1);
                    }
                    proof {
                        assert forall|m: usize| #[trigger] prod@.contains(m) <==> order@.contains(m) by {
                            crate::fa::lemma_push_contains(order0, n1, m);
                        }
                    }
                }
                proof {
                    let qi1 = self.q@.take(i + 1);
                    assert(qi1 =~= self.q@.take(i as int).push(n1));
                    if order@.len() == prev_len {
                        lemma_pass_step(self.t@, self.sigma, prod@, self.q@.take(i as int), n1, succ@);
                    }
                }
                i = i + 1;
            }
            proof {
                assert(self.q@.take(self.q.len() as int) =~= self.q@);
                assert forall|i: int| 0 <= i < order@.len() implies self.q@.contains(#[trigger] order@[i]) by {
                    assert(order@.contains(order@[i]));
                    assert(prod@.contains(order@[i]));
                }
                lemma_unique_within(order@, self.q@);
                assert(prod@ =~= order@.to_set());
                if order@.len() == prev_len {
                    assert forall|j: int|
                        0 <= j < self.t@.len() && prod@.contains((#[trigger] self.t@[j]).2) implies prod@.contains(self.t@[j].0) by {
                        assert(self.q@.contains(self.t@[j].0));
                    }
                }
            }
        }
        proof {
            order@.unique_seq_to_set();
            assert forall|n: usize| #[trigger] keep(n) <==> prod@.contains(n) by {
                if keep(n) {
                    let ns = choose|ns: Seq<usize>| #[trigger] is_walk(self.t@, ns) && ns[0] == n && self.f@.contains(ns.last());
                    let i = choose|i: int| 0 <= i < self.f@.len() && self.f@[i] == ns.last();
                    lemma_coclosed_walk(self.t@, prod@, ns, 0);
                }
            }
        }

        let mut new_t: Vec<Edge> = Vec::new();
        let mut k: usize = 0;
        while k < self.t.len()
            invariant
                k <= self.t.len(),
                forall|n: usize| #[trigger] keep(n) <==> prod@.contains(n),
                new_t@ == edges_within(self.t@.take(k as int), keep),
            decreases self.t.len() - k,
        {
            let e = self.t[k];
            assert(self.t@.take(k + 1).drop_last() =~= self.t@.take(k as int));
            if prod.contains(&e.0) && prod.contains(&e.2) {
                new_t.push(e);
            }
            k = k + 1;
        }
        assert(self.t@.take(self.t.len() as int) =~= self.t@);
        let ghost listed = order@;
        let mut new_q = order;
        new_q.push(self.q0);
        let mut new_f: Vec<usize> = Vec::new();
        let mut k: usize = 0;
        while k < self.f.len()
            invariant
                k <= self.f.len(),
                new_f@ == self.f@.take(k as int),
            decreases self.f.len() - k,
        {
            new_f.push(self.f[k]);
            assert(self.f@.take(k + 1) =~= self.f@.take(k as int).push(self.f@[k as int]));
            k = k + 1;
        }
        assert(self.f@.take(self.f.len() as int) =~= self.f@);
        proof {
            lemma_edges_within(self.t@, keep);
            assert(new_q@.drop_last() =~= listed);
            assert forall|n: usize| listed.contains(n) || n == self.q0 implies #[trigger] new_q@.contains(n) by {
                crate::fa::lemma_push_contains(listed, self.q0, n);
            }
            assert(new_q@.contains(self.q0));
            assert forall|i: int| 0 <= i < new_f@.len() implies new_q@.contains(#[trigger] new_f@[i]) by {
                assert(prod@.contains(self.f@[i]));
            }
            assert forall|i: int| 0 <= i < new_t@.len() implies new_q@.contains((#[trigger] new_t@[i]).0)
                && new_q@.contains(new_t@[i].2) && new_t@[i].1 < self.sigma by {
                assert(new_t@.contains(new_t@[i]));
                let j = choose|j: int| 0 <= j < self.t@.len() && self.t@[j] == new_t@[i];
            }
            assert forall|n: usize| #[trigger] new_q@.drop_last().contains(n) <==> productive(self.t@, self.f@, n) by {
                assert(keep(n) <==> prod@.contains(n));
            }
        }
        FA::from(new_q, self.sigma, new_t, self.q0, new_f)
    }


    /// Drops unproductive and unreachable nodes, in turn, a few times over.
    /// The walks and runs from the start to a halting node, and so the words
    /// accepted, stay exactly the same; the nodes left are nodes of the
    /// automaton, all reachable from the start, and all but the start reach a
    /// halting node.
    pub fn easy_simplifications(&self) -> (r: FA)
        requires
            self.wf(),
            productive(self.t@, self.f@, self.q0),
        ensures
            r.wf(),
            r.sigma == self.sigma,
            r.q0 == self.q0,
            forall|ns: Seq<usize>| #[trigger] accepting(r.t@, r.q0, r.f@, ns) <==> accepting(self.t@, self.q0, self.f@, ns),
            forall|ns: Seq<usize>, xs: Seq<usize>|
                #[trigger] accepting_run(r.t@, r.q0, r.f@, ns, xs) <==> accepting_run(self.t@, self.q0, self.f@, ns, xs),
            forall|xs: Seq<usize>| #[trigger] accepts(r.t@, r.q0, r.f@, xs) <==> accepts(self.t@, self.q0, self.f@, xs),
            forall|n: usize| #[trigger] r.q@.contains(n) ==> self.q@.contains(n),
            forall|n: usize| #[trigger] r.q@.contains(n) ==> reachable(r.t@, r.q0, n),
            forall|n: usize| r.q@.contains(n) && n != r.q0 ==> #[trigger] productive(r.t@, r.f@, n),
    {
        let ghost ns0 = choose|ns: Seq<usize>| #[trigger] is_walk(self.t@, ns) && ns[0] == self.q0 && self.f@.contains(ns.last());
        let r1 = self.remove_unproductive_nodes();
        proof {
            lemma_accepting_unproductive(self.t@, self.q0, self.f@, ns0);
            let i = choose|i: int| 0 <= i < r1.f@.len() && r1.f@[i] == ns0.last();
            assert(reachable(r1.t@, r1.q0, r1.f@[i]));
        }
        let r2 = r1.remove_unreachable_nodes();
        proof {
            lemma_accepting_unreachable(r1.t@, r1.q0, r1.f@, ns0);
        }
        let r3 = r2.remove_unproductive_nodes();
        proof {
            lemma_accepting_unproductive(r2.t@, r2.q0, r2.f@, ns0);
            let i = choose|i: int| 0 <= i < r3.f@.len() && r3.f@[i] == ns0.last();
            assert(reachable(r3.t@, r3.q0, r3.f@[i]));
        }
        let r4 = r3.remove_unreachable_nodes();
        let r5 = r4.remove_unproductive_nodes();
        proof {
            assert forall|ns: Seq<usize>| #[trigger] accepting(r5.t@, r5.q0, r5.f@, ns) <==> accepting(
                self.t@,
                self.q0,
                self.f@,
                ns,
            ) by {
                if accepting(self.t@, self.q0, self.f@, ns) {
                    lemma_accepting_unproductive(self.t@, self.q0, self.f@, ns);
                    lemma_accepting_unreachable(r1.t@, r1.q0, r1.f@, ns);
                    lemma_accepting_unproductive(r2.t@, r2.q0, r2.f@, ns);
                    lemma_accepting_unreachable(r3.t@, r3.q0, r3.f@, ns);
                    lemma_accepting_unproductive(r4.t@, r4.q0, r4.f@, ns);
                }
                if accepting(r5.t@, r5.q0, r5.f@, ns) {
                    lemma_walk_widen(r4.t@, |n: usize| productive(r4.t@, r4.f@, n), ns);
                    lemma_walk_widen(r3.t@, |n: usize| reachable(r3.t@, r3.q0, n), ns);
                    lemma_nodes_within(r3.f@, |n: usize| reachable(r3.t@, r3.q0, n));
                    lemma_walk_widen(r2.t@, |n: usize| productive(r2.t@, r2.f@, n), ns);
                    lemma_walk_widen(r1.t@, |n: usize| reachable(r1.t@, r1.q0, n), ns);
                    lemma_nodes_within(r1.f@, |n: usize| reachable(r1.t@, r1.q0, n));
                    lemma_walk_widen(self.t@, |n: usize| productive(self.t@, self.f@, n), ns);
                }
            }
            assert forall|ns: Seq<usize>, xs: Seq<usize>| #[trigger] accepting_run(r5.t@, r5.q0, r5.f@, ns, xs)
                <==> accepting_run(self.t@, self.q0, self.f@, ns, xs) by {
                if accepting_run(self.t@, self.q0, self.f@, ns, xs) {
                    lemma_run_unproductive(self.t@, self.q0, self.f@, ns, xs);
                    lemma_run_unreachable(r1.t@, r1.q0, r1.f@, ns, xs);
                    lemma_run_unproductive(r2.t@, r2.q0, r2.f@, ns, xs);
                    lemma_run_unreachable(r3.t@, r3.q0, r3.f@, ns, xs);
                    lemma_run_unproductive(r4.t@, r4.q0, r4.f@, ns, xs);
                }
                if accepting_run(r5.t@, r5.q0, r5.f@, ns, xs) {
                    lemma_run_within(r4.t@, |n: usize| productive(r4.t@, r4.f@, n), ns, xs);
                    lemma_run_within(r3.t@, |n: usize| reachable(r3.t@, r3.q0, n), ns, xs);
                    lemma_nodes_within(r3.f@, |n: usize| reachable(r3.t@, r3.q0, n));
                    lemma_run_within(r2.t@, |n: usize| productive(r2.t@, r2.f@, n), ns, xs);
                    lemma_run_within(r1.t@, |n: usize| reachable(r1.t@, r1.q0, n), ns, xs);
                    lemma_nodes_within(r1.f@, |n: usize| reachable(r1.t@, r1.q0, n));
                    lemma_run_within(self.t@, |n: usize| productive(self.t@, self.f@, n), ns, xs);
                }
            }
            assert forall|xs: Seq<usize>| #[trigger] accepts(r5.t@, r5.q0, r5.f@, xs) <==> accepts(
                self.t@,
                self.q0,
                self.f@,
                xs,
            ) by {
                if accepts(self.t@, self.q0, self.f@, xs) {
                    let ns = choose|ns: Seq<usize>| #[trigger] accepting_run(self.t@, self.q0, self.f@, ns, xs);
                    assert(accepting_run(r5.t@, r5.q0, r5.f@, ns, xs));
                }
                if accepts(r5.t@, r5.q0, r5.f@, xs) {
                    let ns = choose|ns: Seq<usize>| #[trigger] accepting_run(r5.t@, r5.q0, r5.f@, ns, xs);
                    assert(accepting_run(self.t@, self.q0, self.f@, ns, xs));
                }
            }
            lemma_unproductive_subset(*self, r1);
            lemma_unreachable_subset(r1, r2);
            lemma_unproductive_subset(r2, r3);
            lemma_unreachable_subset(r3, r4);
            lemma_unproductive_subset(r4, r5);
            lemma_trimmed(r3, r4, r5);
        }
        r5
    }


    /// Renames the nodes of a deterministic automaton by the order in which a
    /// breadth-first search from the start meets them, and sorts the edges and
    /// the halting nodes. Automata that differ only in their node names and in
    /// the order of their lists get the same result; `relabel` states and
    /// proves this as `law_canonical_label_ignores_names`.
    pub fn canonical_label(&self) -> (r: FA)
        requires
            relabel_ready(*self),
        ensures
            bfs_relabelled(*self, r),
    {
        let ghost big = bfs_order(self.t@, self.sigma, self.q0, self.q@.len());
        let mut o: Vec<usize> = Vec::new();
        o.push(self.q0);
        let mut seen: HashSet<usize> = HashSet::new();
        seen.insert(self.q0);
        let mut head: usize = 0;
        proof {
            assert(o@ =~= seq![self.q0]);
            assert(is_walk(self.t@, seq![self.q0]));
            assert forall|n: usize| #[trigger] seen@.contains(n) <==> o@.contains(n) by {
                if o@.contains(n) {
                    let i = choose|i: int| 0 <= i < o@.len() && o@[i] == n;
                }
                assert(o@[0] == self.q0);
            }
        }
        while head < o.len()
            invariant
                self.wf(),
                forall|n: usize, x: usize|
                    reachable(self.t@, self.q0, n) && x < self.sigma ==> #[trigger] targets(self.t@, n, x).len() <= 1,
                head <= o@.len(),
                o@.len() > 0,
                o@[0] == self.q0,
                bfs_from(self.t@, self.sigma, o@, head as nat, (self.q@.len() - head) as nat) == big,
                forall|n: usize| #[trigger] seen@.contains(n) <==> o@.contains(n),
                o@.no_duplicates(),
                forall|i: int| 0 <= i < o@.len() ==> reachable(self.t@, self.q0, #[trigger] o@[i]) && self.q@.contains(o@[i]),
                forall|i: int, j: int|
                    0 <= i < head && 0 <= j < self.t@.len() && (#[trigger] self.t@[j]).0 == #[trigger] o@[i]
                        ==> o@.contains(self.t@[j].2),
            decreases self.q@.len() - head,
        {
            proof {
                lemma_unique_within(o@, self.q@);
            }
            let n1 = o[head];
            let ghost o0 = o@;
            let mut x: usize = 0;
            while x < self.sigma
                invariant
                    self.wf(),
                    forall|n: usize, x: usize|
                        reachable(self.t@, self.q0, n) && x < self.sigma ==> #[trigger] targets(self.t@, n, x).len() <= 1,
                    head < o0.len(),
                    n1 == o0[head as int],
                    reachable(self.t@, self.q0, n1),
                    self.q@.contains(n1),
                    x <= self.sigma,
                    o@ == visit(self.t@, o0, n1, x as nat),
                    o0.len() <= o@.len(),
                    forall|i: int| 0 <= i < o0.len() ==> o@[i] == o0[i],
                    forall|n: usize| #[trigger] seen@.contains(n) <==> o@.contains(n),
                    o@.no_duplicates(),
                    forall|i: int| 0 <= i < o@.len() ==> reachable(self.t@, self.q0, #[trigger] o@[i]) && self.q@.contains(o@[i]),
                    forall|y: usize, k: int| y < x && 0 <= k < targets(self.t@, n1, y).len()
                        ==> o@.contains(#[trigger] targets(self.t@, n1, y)[k]),
                decreases self.sigma - x,
            {
                let n2s = self.edges_of_node_with_state(n1, x);
                assert(targets(self.t@, n1, x).len() <= 1);
                let ghost p = o@;
                let mut c: usize = 0;
                while c < n2s.len()
                    invariant
                        self.wf(),
                        n2s@ == targets(self.t@, n1, x),
                        n2s@.len() <= 1,
                        c <= n2s.len(),
                        c == 0 ==> o@ == p,
                        c == 1 ==> o@ == (if !p.contains(n2s@[0]) { p.push(n2s@[0]) } else { p }),
                        forall|n: usize| #[trigger] seen@.contains(n) <==> o@.contains(n),
                        forall|n: usize| #[trigger] seen@.contains(n) <==> p.contains(n) || (c == 1 && n == n2s@[0]),
                    decreases n2s.len() - c,
                {
                    let n2 = n2s[c];
                    let ghost oc = o@;
                    if seen.insert(n2) {
                        o.push(n2);
                    }
                    proof {
                        assert forall|n: usize| #[trigger] seen@.contains(n) <==> o@.contains(n) by {
                            crate::fa::lemma_push_contains(oc, n2, n);
                        }
                    }
                    c = c + 1;
                }
                proof {
                    let xs = (x + 1) as nat;
                    assert(visit(self.t@, o0, n1, xs) == (if targets(self.t@, n1, x).len() > 0 && !p.contains(
                        targets(self.t@, n1, x)[0],
                    ) {
                        p.push(targets(self.t@, n1, x)[0])
                    } else {
                        p
                    }));
                    if n2s@.len() > 0 {
                        lemma_edge_in_targets_reachable(self.t@, self.q0, n1, x, self.q@);
                        if !p.contains(n2s@[0]) {
                            assert(o@ == p.push(n2s@[0]));
                            assert(o@.no_duplicates()) by {
                                assert forall|i: int, j: int| 0 <= i < j < o@.len() implies o@[i] != o@[j] by {
                                    if j == p.len() {
                                        assert(p.contains(p[i]));
                                    }
                                }
                            }
                        }
                        assert(o@.contains(n2s@[0])) by {
                            crate::fa::lemma_push_contains(p, n2s@[0], n2s@[0]);
                        }
                    }
                    assert forall|y: usize, k: int| y < x + 1 && 0 <= k < targets(self.t@, n1, y).len()
                        implies o@.contains(#[trigger] targets(self.t@, n1, y)[k]) by {
                        if y < x {
                            let m = targets(self.t@, n1, y)[k];
                            assert(p.contains(m));
                            let i = choose|i: int| 0 <= i < p.len() && p[i] == m;
                            assert(o@[i] == m);
                        }
                    }
                }
                x = x + 1;
            }
            proof {
                let f = (self.q@.len() - head) as nat;
                assert(f > 0);
                assert(bfs_from(self.t@, self.sigma, o0, head as nat, f) == bfs_from(
                    self.t@,
                    self.sigma,
                    visit(self.t@, o0, o0[head as int], self.sigma as nat),
                    (head + 1) as nat,
                    (f - 1) as nat,
                ));
                assert forall|i: int, j: int|
                    0 <= i < head + 1 && 0 <= j < self.t@.len() && (#[trigger] self.t@[j]).0 == #[trigger] o@[i]
                        implies o@.contains(self.t@[j].2) by {
                    if i == head {
                        lemma_edge_in_targets(self.t@, j);
                        let y = self.t@[j].1;
                        assert(y < self.sigma);
                        let tg = targets(self.t@, n1, y);
                        let k = choose|k: int| 0 <= k < tg.len() && tg[k] == self.t@[j].2;
                        assert(o@.contains(tg[k]));
                    } else {
                        assert(o@[i] == o0[i]);
                    }
                }
            }
            head = head + 1;
        }
        proof {
            assert(o@ == big);
            assert forall|n: usize| reachable(self.t@, self.q0, n) implies #[trigger] o@.contains(n) by {
                let ns = choose|ns: Seq<usize>| #[trigger] is_walk(self.t@, ns) && ns[0] == self.q0 && ns.last() == n;
                assert forall|j: int| 0 <= j < self.t@.len() && o@.to_set().contains((#[trigger] self.t@[j]).0)
                    implies o@.to_set().contains(self.t@[j].2) by {
                    let i = choose|i: int| 0 <= i < o@.len() && o@[i] == self.t@[j].0;
                    assert(o@.contains(self.t@[j].2));
                }
                assert(o@.to_set().contains(o@[0]));
                lemma_closed_walk(self.t@, o@.to_set(), ns, ns.len() - 1);
            }
            lemma_unique_within(o@, self.q@);
        }

        let mut qmap: HashMap<usize, usize> = HashMap::new();
        let mut i: usize = 0;
        while i < o.len()
            invariant
                i <= o@.len(),
                o@.no_duplicates(),
                forall|n: usize| #[trigger] qmap@.contains_key(n) <==> o@.take(i as int).contains(n),
                forall|n: usize| #[trigger] qmap@.contains_key(n) ==> qmap@[n] == last_index(o@.take(i as int), n),
            decreases o@.len() - i,
        {
            qmap.insert(o[i], i);
            proof {
                let oi = o@.take(i as int);
                let oi1 = o@.take(i + 1);
                assert(oi1 =~= oi.push(o@[i as int]));
                assert(oi1.drop_last() =~= oi);
                assert forall|n: usize| #[trigger] qmap@.contains_key(n) <==> oi1.contains(n) by {
                    crate::fa::lemma_push_contains(oi, o@[i as int], n);
                }
            }
            i = i + 1;
        }
        proof {
            assert(o@.take(o@.len() as int) =~= o@);
            assert forall|n: usize| reachable(self.t@, self.q0, n) implies #[trigger] qmap@.contains_key(n)
                && qmap@[n] == pos_in(o@)(n) && qmap@[n] < o@.len() by {
                assert(o@.contains(n));
                assert(o@.take(o@.len() as int).contains(n));
                assert(qmap@.contains_key(n));
                lemma_last_index(o@, n);
                assert(qmap@[n] == last_index(o@, n));
                assert(pos_in(o@)(n) == last_index(o@, n) as usize);
            }
        }

        let mut new_t: Vec<Edge> = Vec::new();
        let mut k: usize = 0;
        while k < self.t.len()
            invariant
                self.wf(),
                k <= self.t.len(),
                forall|j: int| 0 <= j < self.t@.len() ==> reachable(self.t@, self.q0, (#[trigger] self.t@[j]).0),
                forall|n: usize| reachable(self.t@, self.q0, n) ==> #[trigger] qmap@.contains_key(n)
                    && qmap@[n] == pos_in(o@)(n) && qmap@[n] < o@.len(),
                new_t@ == self.t@.take(k as int).map_values(|e: Edge| rename_edge(pos_in(o@), e)),
            decreases self.t.len() - k,
        {
            let (n1, x, n2) = self.t[k];
            proof {
                let e = self.t@[k as int];
                let ns = choose|ns: Seq<usize>| #[trigger] is_walk(self.t@, ns) && ns[0] == self.q0 && ns.last() == e.0;
                assert(has_edge(self.t@, ns.last(), e.2));
                lemma_walk_push(self.t@, ns, e.2);
                assert(ns.push(e.2)[0] == self.q0);
                assert(reachable(self.t@, self.q0, e.2));
            }
            let a = *qmap.get(&n1).unwrap();
            let b = *qmap.get(&n2).unwrap();
            new_t.push((a, x, b));
            assert(self.t@.take(k + 1).map_values(|e: Edge| rename_edge(pos_in(o@), e)) =~= self.t@.take(
                k as int,
            ).map_values(|e: Edge| rename_edge(pos_in(o@), e)).push(rename_edge(pos_in(o@), self.t@[k as int])));
            k = k + 1;
        }
        assert(self.t@.take(self.t.len() as int) =~= self.t@);

        let mut new_f: Vec<usize> = Vec::new();
        let mut k: usize = 0;
        while k < self.f.len()
            invariant
                k <= self.f.len(),
                forall|i: int| 0 <= i < self.f@.len() ==> reachable(self.t@, self.q0, #[trigger] self.f@[i]),
                forall|n: usize| reachable(self.t@, self.q0, n) ==> #[trigger] qmap@.contains_key(n)
                    && qmap@[n] == pos_in(o@)(n) && qmap@[n] < o@.len(),
                new_f@ == self.f@.take(k as int).map_values(pos_in(o@)),
            decreases self.f.len() - k,
        {
            assert(reachable(self.t@, self.q0, self.f@[k as int]));
            let a = *qmap.get(&self.f[k]).unwrap();
            new_f.push(a);
            assert(self.f@.take(k + 1).map_values(pos_in(o@)) =~= self.f@.take(k as int).map_values(pos_in(o@)).push(
                pos_in(o@)(self.f@[k as int]),
            ));
            k = k + 1;
        }
        assert(self.f@.take(self.f.len() as int) =~= self.f@);

        let mut new_q: Vec<usize> = Vec::new();
        let mut i: usize = 0;
        while i < self.q.len()
            invariant
                i <= self.q.len(),
                new_q@ == positions(i as nat),
            decreases self.q.len() - i,
        {
            new_q.push(i);
            assert(new_q@ =~= positions((i + 1) as nat));
            i = i + 1;
        }
        let ghost mapped_t = new_t@;
        let ghost mapped_f = new_f@;
        let sorted_t = sort_edges(new_t);
        let sorted_f = sort_nums(new_f);
        proof {
            broadcast use vstd::seq_lib::to_multiset_contains;
            broadcast use vstd::seq_lib::to_multiset_len;
            assert(self.q0 == o@[0]);
            lemma_last_index(o@, self.q0);
            assert(new_q@.contains(0usize)) by {
                assert(new_q@[0] == 0);
            }
            assert forall|i: int| 0 <= i < sorted_f@.len() implies new_q@.contains(#[trigger] sorted_f@[i]) by {
                assert(sorted_f@.to_multiset().count(sorted_f@[i]) > 0);
                assert(mapped_f.contains(sorted_f@[i]));
                let j = choose|j: int| 0 <= j < mapped_f.len() && mapped_f[j] == sorted_f@[i];
                assert(reachable(self.t@, self.q0, self.f@[j]));
                assert(o@.contains(self.f@[j]));
                lemma_last_index(o@, self.f@[j]);
                assert(mapped_f[j] == pos_in(o@)(self.f@[j]));
                assert(new_q@[sorted_f@[i] as int] == sorted_f@[i]);
            }
            assert forall|i: int| 0 <= i < sorted_t@.len() implies new_q@.contains((#[trigger] sorted_t@[i]).0)
                && new_q@.contains(sorted_t@[i].2) && sorted_t@[i].1 < self.sigma by {
                assert(sorted_t@.to_multiset().count(sorted_t@[i]) > 0);
                assert(mapped_t.contains(sorted_t@[i]));
                let j = choose|j: int| 0 <= j < mapped_t.len() && mapped_t[j] == sorted_t@[i];
                let e = self.t@[j];
                let ns = choose|ns: Seq<usize>| #[trigger] is_walk(self.t@, ns) && ns[0] == self.q0 && ns.last() == e.0;
                assert(has_edge(self.t@, ns.last(), e.2));
                lemma_walk_push(self.t@, ns, e.2);
                assert(ns.push(e.2)[0] == self.q0);
                assert(o@.contains(e.0) && o@.contains(e.2));
                lemma_last_index(o@, e.0);
                lemma_last_index(o@, e.2);
                assert(mapped_t[j] == rename_edge(pos_in(o@), e));
                assert(new_q@[sorted_t@[i].0 as int] == sorted_t@[i].0);
                assert(new_q@[sorted_t@[i].2 as int] == sorted_t@[i].2);
            }
            assert(sorted_f@.to_multiset().len() == sorted_f@.len());
            assert(mapped_f.to_multiset().len() == mapped_f.len());
            assert(sorted_f@.len() == self.f@.len());
        }
        FA::from(new_q, self.sigma, sorted_t, 0, sorted_f)
    }

}

} // verus!
