//! Rounds of the solver: step the automaton, simplify it, make it
//! deterministic, merge equal behaviours and label it canonically, until a
//! labelling comes back that was seen before.
use vstd::prelude::*;
use crate::bitset::BitSet;
use crate::dfa::{subset_automaton, one_edge_each};
use crate::dfa_min::{MinState, min_history, start_state};
use crate::fa::{FA, Edge, Walk, walk_views, walk_tree, positions, targets};
use crate::minimization::{
    productive, reachable, relabel_ready, bfs_relabelled, accepting, accepting_run, accepts, is_walk, has_edge,
};
use crate::solver::{Solver, walks_from, is_step, rule_ok, lemma_walk_tree_lengths};

verus! {

/// Some walk of `k` steps from a node of `fa` ends in a halting node.
pub open spec fn has_halting_walk(fa: FA, k: nat) -> bool {
    exists|a: int|
        0 <= a < walks_from(fa.t@, fa.sigma, fa.q@, k).len() && fa.f@.contains(
            (#[trigger] walks_from(fa.t@, fa.sigma, fa.q@, k)[a]).1.last(),
        )
}

/// `r` is what `easy_simplifications` may make of `a`.
pub open spec fn easy_simplified(a: FA, r: FA) -> bool {
    &&& r.wf()
    &&& r.sigma == a.sigma
    &&& r.q0 == a.q0
    &&& forall|ns: Seq<usize>| #[trigger] accepting(r.t@, r.q0, r.f@, ns) <==> accepting(a.t@, a.q0, a.f@, ns)
    &&& forall|ns: Seq<usize>, xs: Seq<usize>|
        #[trigger] accepting_run(r.t@, r.q0, r.f@, ns, xs) <==> accepting_run(a.t@, a.q0, a.f@, ns, xs)
    &&& forall|xs: Seq<usize>| #[trigger] accepts(r.t@, r.q0, r.f@, xs) <==> accepts(a.t@, a.q0, a.f@, xs)
    &&& forall|n: usize| #[trigger] r.q@.contains(n) ==> a.q@.contains(n)
    &&& forall|n: usize| #[trigger] r.q@.contains(n) ==> reachable(r.t@, r.q0, n)
    &&& forall|n: usize| r.q@.contains(n) && n != r.q0 ==> #[trigger] productive(r.t@, r.f@, n)
}

/// `r`, with the node sets `sets`, is what `bs_usize_to_dfa` may make of `a`.
pub open spec fn dfa_of(a: FA, r: FA, sets: Seq<BitSet>) -> bool {
    &&& r.wf()
    &&& r.sigma == a.sigma
    &&& r.q0 == 0
    &&& r.q@ == positions(sets.len() as nat)
    &&& subset_automaton(a, sets, r.t@)
    &&& one_edge_each(r.t@)
    &&& forall|i: int, j: int| 0 <= i < j < r.f@.len() ==> #[trigger] r.f@[i] < #[trigger] r.f@[j]
    &&& forall|i: usize| #[trigger] r.f@.contains(i) <==> i < sets.len() && exists|k: usize|
        #[trigger] sets[i as int].has(k as int) && a.f@.contains(k)
}

/// `r` is what `usize_full_simplify` may make of `a`.
pub open spec fn fully_simplified(a: FA, r: FA) -> bool {
    &&& r.wf()
    &&& r.sigma == a.sigma
    &&& exists|mid: FA, hist: Seq<MinState>|
        #![trigger min_history(start_state(mid), hist)]
        mid.wf() && mid.sigma == a.sigma && mid.q0 == a.q0 && (forall|ns: Seq<usize>|
            #[trigger] accepting(mid.t@, mid.q0, mid.f@, ns) <==> accepting(a.t@, a.q0, a.f@, ns))
            && min_history(start_state(mid), hist) && r.q@ == hist.last().0 && r.t@ == hist.last().1
            && r.f@ == hist.last().2 && r.q0 == hist.last().3
}

/// Every node of `fa` is below the number of its nodes.
pub open spec fn numbered_below_count(fa: FA) -> bool {
    forall|i: int| 0 <= i < fa.q@.len() ==> #[trigger] fa.q@[i] < fa.q@.len()
}

/// `b` is one round on `fa`: the step of `rule` on `neighbors` cells, the
/// easy simplifications, the subset construction, the merging of equal
/// behaviours and the canonical labelling, one after the other.
pub open spec fn round_rel<F: Fn(Vec<usize>) -> usize>(fa: FA, neighbors: usize, rule: F, b: FA) -> bool {
    exists|s1: FA, ws: Seq<Walk>, s2: FA, s3: FA, sets: Seq<BitSet>, s4: FA|
        #![trigger is_step(fa, neighbors, rule, s1, ws), easy_simplified(s1, s2), dfa_of(s2, s3, sets), fully_simplified(s3, s4)]
        is_step(fa, neighbors, rule, s1, ws) && easy_simplified(s1, s2) && dfa_of(s2, s3, sets) && fully_simplified(
            s3,
            s4,
        ) && bfs_relabelled(s4, b)
}

/// A round on `fa` cannot be made: along the way some stage meets an
/// automaton it does not take. The step needs a walk that ends in a halting
/// node; the simplifications need the start to lead to a halting node; the
/// subset construction needs the nodes numbered below their count; the
/// labelling needs an automaton that is deterministic where the start leads
/// and has nothing the start does not reach.
pub open spec fn round_blocked<F: Fn(Vec<usize>) -> usize>(fa: FA, neighbors: usize, rule: F) -> bool {
    ||| !has_halting_walk(fa, (neighbors - 1) as nat)
    ||| exists|s1: FA, ws: Seq<Walk>|
        #[trigger] is_step(fa, neighbors, rule, s1, ws) && (!productive(s1.t@, s1.f@, s1.q0) || exists|s2: FA|
            #[trigger] easy_simplified(s1, s2) && (!numbered_below_count(s2) || s2.q@.len() + 63 > usize::MAX
                || exists|s3: FA, sets: Seq<BitSet>|
                #[trigger] dfa_of(s2, s3, sets) && (!productive(s3.t@, s3.f@, s3.q0) || exists|s4: FA|
                    #[trigger] fully_simplified(s3, s4) && !relabel_ready(s4))))
}

/// The two automata have the same nodes, letters, edges, start and halting
/// nodes, in the same order.
pub open spec fn same_parts(a: FA, b: FA) -> bool {
    &&& a.q@ == b.q@
    &&& a.sigma == b.sigma
    &&& a.t@ == b.t@
    &&& a.q0 == b.q0
    &&& a.f@ == b.f@
}

/// No two of the automata have the same parts.
pub open spec fn all_different(ls: Seq<FA>) -> bool {
    forall|j: int, k: int| 0 <= j < k < ls.len() ==> !same_parts(#[trigger] ls[j], #[trigger] ls[k])
}

/// `hist` starts at `fa` and each automaton in it is a round on the one
/// before; `labels[j]` is the canonical labelling of `hist[j + 1]`.
pub open spec fn rounds_trace<F: Fn(Vec<usize>) -> usize>(
    fa: FA,
    neighbors: usize,
    rule: F,
    hist: Seq<FA>,
    labels: Seq<FA>,
) -> bool {
    &&& hist.len() >= 1
    &&& hist[0] == fa
    &&& forall|j: int| 0 <= j < hist.len() - 1 ==> round_rel(hist[j], neighbors, rule, #[trigger] hist[j + 1])
    &&& labels.len() <= hist.len() - 1
    &&& forall|j: int| 0 <= j < labels.len() ==> bfs_relabelled(hist[j + 1], #[trigger] labels[j])
}

/// Whether `v` holds `x`.
fn holds(v: &Vec<usize>, x: usize) -> (r: bool)
    ensures
        r == v@.contains(x),
{
    let mut i: usize = 0;
    while i < v.len()
        invariant
            i <= v@.len(),
            forall|j: int| 0 <= j < i ==> v@[j] != x,
        decreases v@.len() - i,
    {
        if v[i] == x {
            assert(v@[i as int] == x);
            return true;
        }
        i = i + 1;
    }
    false
}

/// Whether some walk of `k` steps from a node of `fa` ends in a halting node.
pub fn halting_walk_exists(fa: &FA, k: usize) -> (r: bool)
    requires
        fa.wf(),
        1 <= k,
    ensures
        r == has_halting_walk(*fa, k as nat),
{
    let ghost t = fa.t@;
    let ghost q = fa.q@;
    let ghost f = fa.f@;
    let mut found = false;
    let mut i: usize = 0;
    while i < fa.q.len()
        invariant
            fa.wf(),
            1 <= k,
            t == fa.t@,
            q == fa.q@,
            f == fa.f@,
            i <= q.len(),
            found == exists|a: int|
                0 <= a < walks_from(t, fa.sigma, q.take(i as int), k as nat).len() && f.contains(
                    (#[trigger] walks_from(t, fa.sigma, q.take(i as int), k as nat)[a]).1.last(),
                ),
        decreases q.len() - i,
    {
        let ghost before = walks_from(t, fa.sigma, q.take(i as int), k as nat);
        let node = fa.q[i];
        assert(q.contains(node)) by {
            assert(q[i as int] == node);
        }
        let tree = fa.edge_tree_of_node(node, k);
        let ghost tv = walk_tree(t, fa.sigma, (Seq::empty(), seq![node]), k as nat);
        proof {
            lemma_walk_tree_lengths(t, fa.sigma, node, k as nat);
        }
        let mut here = false;
        let mut j: usize = 0;
        while j < tree.len()
            invariant
                walk_views(tree@) == tv,
                forall|a: int| 0 <= a < tv.len() ==> (#[trigger] tv[a]).1.len() == k + 1,
                j <= tree@.len(),
                f == fa.f@,
                here == exists|a: int| 0 <= a < j && f.contains((#[trigger] tv[a]).1.last()),
            decreases tree@.len() - j,
        {
            let w = &tree[j];
            assert(tv[j as int] == (w.0@, w.1@));
            assert(w.1@.len() == k + 1);
            let last = w.1[w.1.len() - 1];
            assert(last == tv[j as int].1.last());
            let ghost was = here;
            if holds(&fa.f, last) {
                here = true;
            }
            proof {
                if here {
                    if !was {
                        assert(f.contains(tv[j as int].1.last()));
                    }
                }
                if exists|a: int| 0 <= a < j + 1 && f.contains((#[trigger] tv[a]).1.last()) {
                    let a = choose|a: int| 0 <= a < j + 1 && f.contains((#[trigger] tv[a]).1.last());
                    if a == j {
                        assert(here);
                    } else {
                        assert(was);
                    }
                }
            }
            j = j + 1;
        }
        let ghost after = walks_from(t, fa.sigma, q.take(i + 1), k as nat);
        assert(q.take(i + 1).drop_last() =~= q.take(i as int));
        assert(q.take(i + 1).last() == node);
        assert(after =~= before + tv);
        if here {
            found = true;
        }
        proof {
            if found {
                if exists|a: int| 0 <= a < before.len() && f.contains((#[trigger] before[a]).1.last()) {
                    let a = choose|a: int| 0 <= a < before.len() && f.contains((#[trigger] before[a]).1.last());
                    assert(after[a] == before[a]);
                } else {
                    let a = choose|a: int| 0 <= a < tv.len() && f.contains((#[trigger] tv[a]).1.last());
                    assert(after[before.len() + a] == tv[a]);
                }
            }
            if exists|a: int| 0 <= a < after.len() && f.contains((#[trigger] after[a]).1.last()) {
                let a = choose|a: int| 0 <= a < after.len() && f.contains((#[trigger] after[a]).1.last());
                if a < before.len() {
                    assert(after[a] == before[a]);
                } else {
                    assert(after[a] == tv[a - before.len()]);
                }
            }
        }
        i = i + 1;
    }
    assert(q.take(q.len() as int) =~= q);
    found
}

/// Whether the start of `fa` leads to a halting node.
pub fn start_productive(fa: &FA) -> (r: bool)
    requires
        fa.wf(),
    ensures
        r == productive(fa.t@, fa.f@, fa.q0),
{
    let p = fa.remove_unproductive_nodes();
    let last = p.q.len() - 1;
    let mut i: usize = 0;
    while i < last
        invariant
            last == p.q@.len() - 1,
            i <= last,
            forall|n: usize| #[trigger] p.q@.drop_last().contains(n) <==> productive(fa.t@, fa.f@, n),
            forall|j: int| 0 <= j < i ==> p.q@[j] != fa.q0,
        decreases p.q@.len() - i,
    {
        if p.q[i] == fa.q0 {
            assert(p.q@.drop_last()[i as int] == fa.q0);
            assert(p.q@.drop_last().contains(fa.q0));
            return true;
        }
        i = i + 1;
    }
    proof {
        if p.q@.drop_last().contains(fa.q0) {
            let j = choose|j: int| 0 <= j < p.q@.drop_last().len() && p.q@.drop_last()[j] == fa.q0;
            assert(p.q@[j] == fa.q0);
        }
    }
    false
}

/// Whether every node of `fa` is below the number of its nodes.
fn nodes_below_count(fa: &FA) -> (r: bool)
    ensures
        r == numbered_below_count(*fa),
{
    let mut i: usize = 0;
    while i < fa.q.len()
        invariant
            i <= fa.q@.len(),
            forall|j: int| 0 <= j < i ==> #[trigger] fa.q@[j] < fa.q@.len(),
        decreases fa.q@.len() - i,
    {
        if fa.q[i] >= fa.q.len() {
            return false;
        }
        i = i + 1;
    }
    true
}

/// A node the start leads to is a node of the automaton.
proof fn lemma_reachable_in_q(fa: FA, n: usize)
    requires
        fa.wf(),
        reachable(fa.t@, fa.q0, n),
    ensures
        fa.q@.contains(n),
{
    let ns = choose|ns: Seq<usize>| #[trigger] is_walk(fa.t@, ns) && ns[0] == fa.q0 && ns.last() == n;
    if ns.len() > 1 {
        assert(has_edge(fa.t@, ns[ns.len() - 2], ns[ns.len() - 2 + 1]));
        let j = choose|j: int| 0 <= j < fa.t@.len() && (#[trigger] fa.t@[j]).0 == ns[ns.len() - 2] && fa.t@[j].2 == ns[ns.len() - 1];
    }
}

/// When the start leads to a halting node, some halting node is reached.
proof fn lemma_productive_reaches_halting(t: Seq<Edge>, f: Seq<usize>, q0: usize)
    requires
        productive(t, f, q0),
    ensures
        exists|i: int| 0 <= i < f.len() && reachable(t, q0, #[trigger] f[i]),
{
    let ns = choose|ns: Seq<usize>| #[trigger] is_walk(t, ns) && ns[0] == q0 && f.contains(ns.last());
    let i = choose|i: int| 0 <= i < f.len() && f[i] == ns.last();
    assert(reachable(t, q0, f[i]));
}

/// Whether `fa` can be labelled canonically: it is deterministic on the nodes
/// the start leads to, and the start leads to every edge and halting node.
pub fn ready_for_labels(fa: &FA) -> (r: bool)
    requires
        fa.wf(),
    ensures
        r == relabel_ready(*fa),
{
    if !start_productive(fa) {
        proof {
            if relabel_ready(*fa) {
                assert(reachable(fa.t@, fa.q0, fa.f@[0]));
                let ns = choose|ns: Seq<usize>| #[trigger] is_walk(fa.t@, ns) && ns[0] == fa.q0 && ns.last() == fa.f@[0];
                assert(fa.f@.contains(ns.last()));
                assert(productive(fa.t@, fa.f@, fa.q0));
            }
        }
        return false;
    }
    proof {
        lemma_productive_reaches_halting(fa.t@, fa.f@, fa.q0);
    }
    let ru = fa.remove_unreachable_nodes();
    let mut i: usize = 0;
    while i < ru.q.len()
        invariant
            fa.wf(),
            i <= ru.q@.len(),
            forall|n: usize| #[trigger] ru.q@.contains(n) <==> reachable(fa.t@, fa.q0, n),
            forall|j: int, x: usize| 0 <= j < i && x < fa.sigma ==> #[trigger] targets(fa.t@, ru.q@[j], x).len() <= 1,
        decreases ru.q@.len() - i,
    {
        let m = ru.q[i];
        assert(ru.q@.contains(m)) by {
            assert(ru.q@[i as int] == m);
        }
        proof {
            lemma_reachable_in_q(*fa, m);
        }
        let mut x: usize = 0;
        while x < fa.sigma
            invariant
                fa.wf(),
                fa.q@.contains(m),
                m == ru.q@[i as int],
                reachable(fa.t@, fa.q0, m),
                x <= fa.sigma,
                forall|y: usize| y < x ==> #[trigger] targets(fa.t@, m, y).len() <= 1,
            decreases fa.sigma - x,
        {
            if fa.edges_of_node_with_state(m, x).len() > 1 {
                proof {
                    if relabel_ready(*fa) {
                        assert(targets(fa.t@, m, x).len() <= 1);
                    }
                }
                return false;
            }
            x = x + 1;
        }
        assert forall|j: int, y: usize| 0 <= j < i + 1 && y < fa.sigma implies #[trigger] targets(fa.t@, ru.q@[j], y).len()
            <= 1 by {
            if j == i {
                assert(targets(fa.t@, m, y).len() <= 1);
            }
        }
        i = i + 1;
    }
    assert forall|n: usize, x: usize| reachable(fa.t@, fa.q0, n) && x < fa.sigma implies #[trigger] targets(
        fa.t@,
        n,
        x,
    ).len() <= 1 by {
        assert(ru.q@.contains(n));
        let j = choose|j: int| 0 <= j < ru.q@.len() && ru.q@[j] == n;
        assert(targets(fa.t@, ru.q@[j], x).len() <= 1);
    }
    let mut j: usize = 0;
    while j < fa.t.len()
        invariant
            j <= fa.t@.len(),
            forall|n: usize| #[trigger] ru.q@.contains(n) <==> reachable(fa.t@, fa.q0, n),
            forall|k: int| 0 <= k < j ==> reachable(fa.t@, fa.q0, (#[trigger] fa.t@[k]).0),
        decreases fa.t@.len() - j,
    {
        if !holds(&ru.q, fa.t[j].0) {
            proof {
                if relabel_ready(*fa) {
                    assert(reachable(fa.t@, fa.q0, fa.t@[j as int].0));
                }
            }
            return false;
        }
        j = j + 1;
    }
    let mut k: usize = 0;
    while k < fa.f.len()
        invariant
            k <= fa.f@.len(),
            forall|n: usize| #[trigger] ru.q@.contains(n) <==> reachable(fa.t@, fa.q0, n),
            forall|l: int| 0 <= l < k ==> reachable(fa.t@, fa.q0, #[trigger] fa.f@[l]),
        decreases fa.f@.len() - k,
    {
        if !holds(&ru.q, fa.f[k]) {
            proof {
                if relabel_ready(*fa) {
                    assert(reachable(fa.t@, fa.q0, fa.f@[k as int]));
                }
            }
            return false;
        }
        k = k + 1;
    }
    true
}

/// Whether two lists of numbers are equal.
fn same_numbers(a: &Vec<usize>, b: &Vec<usize>) -> (r: bool)
    ensures
        r == (a@ == b@),
{
    if a.len() != b.len() {
        return false;
    }
    let mut i: usize = 0;
    while i < a.len()
        invariant
            a@.len() == b@.len(),
            i <= a@.len(),
            forall|j: int| 0 <= j < i ==> a@[j] == b@[j],
        decreases a@.len() - i,
    {
        if a[i] != b[i] {
            return false;
        }
        i = i + 1;
    }
    assert(a@ =~= b@);
    true
}

/// Whether two lists of edges are equal.
fn same_edges(a: &Vec<Edge>, b: &Vec<Edge>) -> (r: bool)
    ensures
        r == (a@ == b@),
{
    if a.len() != b.len() {
        return false;
    }
    let mut i: usize = 0;
    while i < a.len()
        invariant
            a@.len() == b@.len(),
            i <= a@.len(),
            forall|j: int| 0 <= j < i ==> a@[j] == b@[j],
        decreases a@.len() - i,
    {
        let e = a[i];
        let g = b[i];
        if e.0 != g.0 || e.1 != g.1 || e.2 != g.2 {
            return false;
        }
        i = i + 1;
    }
    assert(a@ =~= b@);
    true
}

/// Whether the two automata have the same parts.
pub fn same_automaton(a: &FA, b: &FA) -> (r: bool)
    ensures
        r == same_parts(*a, *b),
{
    same_numbers(&a.q, &b.q) && a.sigma == b.sigma && same_edges(&a.t, &b.t) && a.q0 == b.q0 && same_numbers(
        &a.f,
        &b.f,
    )
}

/// One round on `fa`: the step of `rule` on `neighbors` cells, the easy
/// simplifications, the subset construction, the merging of equal behaviours
/// and the canonical labelling. `None` when some stage meets an automaton it
/// does not take.
pub fn round<F: Fn(Vec<usize>) -> usize>(fa: &FA, neighbors: usize, rule: &F) -> (r: Option<FA>)
    requires
        fa.wf(),
        2 <= neighbors,
        rule_ok(*rule, neighbors as nat, fa.sigma as nat),
    ensures
        r matches Some(b) ==> round_rel(*fa, neighbors, *rule, b) && b.wf() && b.sigma == 2,
        r is None ==> round_blocked(*fa, neighbors, *rule),
{
    if !halting_walk_exists(fa, neighbors - 1) {
        return None;
    }
    assert(fa.q@.contains(fa.q0));
    proof {
        let k = (neighbors - 1) as nat;
        let a = choose|a: int|
            0 <= a < walks_from(fa.t@, fa.sigma, fa.q@, k).len() && fa.f@.contains(
                (#[trigger] walks_from(fa.t@, fa.sigma, fa.q@, k)[a]).1.last(),
            );
        assert(fa.f@.contains(walks_from(fa.t@, fa.sigma, fa.q@, (neighbors - 1) as nat)[a].1.last()));
    }
    let (s1, ws) = fa.step(neighbors, rule);
    if !start_productive(&s1) {
        assert(round_blocked(*fa, neighbors, *rule)) by {
            assert(is_step(*fa, neighbors, *rule, s1, ws@));
        }
        return None;
    }
    let s2 = s1.easy_simplifications();
    assert(easy_simplified(s1, s2));
    if !nodes_below_count(&s2) || s2.q.len() > usize::MAX - 63 {
        assert(round_blocked(*fa, neighbors, *rule)) by {
            assert(is_step(*fa, neighbors, *rule, s1, ws@));
        }
        return None;
    }
    proof {
        let ns = choose|ns: Seq<usize>| #[trigger] is_walk(s1.t@, ns) && ns[0] == s1.q0 && s1.f@.contains(ns.last());
        assert(accepting(s1.t@, s1.q0, s1.f@, ns));
        assert(accepting(s2.t@, s2.q0, s2.f@, ns));
        assert(productive(s2.t@, s2.f@, s2.q0));
        lemma_productive_reaches_halting(s2.t@, s2.f@, s2.q0);
    }
    let (s3, sets) = s2.bs_usize_to_dfa();
    assert(dfa_of(s2, s3, sets@));
    if !start_productive(&s3) {
        assert(round_blocked(*fa, neighbors, *rule)) by {
            assert(is_step(*fa, neighbors, *rule, s1, ws@));
        }
        return None;
    }
    let s4 = s3.usize_full_simplify();
    assert(fully_simplified(s3, s4));
    if !ready_for_labels(&s4) {
        assert(round_blocked(*fa, neighbors, *rule)) by {
            assert(is_step(*fa, neighbors, *rule, s1, ws@));
        }
        return None;
    }
    let b = s4.canonical_label();
    assert(round_rel(*fa, neighbors, *rule, b)) by {
        assert(is_step(*fa, neighbors, *rule, s1, ws@));
    }
    Some(b)
}

/// How a run of rounds ended.
#[derive(Clone, Copy, Debug, PartialEq, Eq, Structural)]
pub enum RoundsEnd {
    /// The labelling after this round came up after an earlier round.
    Repeat(usize),
    /// Every allowed round was made and no labelling came up twice.
    NoRepeat,
    /// A round could not be made, or its result could not be labelled.
    Stuck,
}

/// Runs rounds on the solver's automaton, at most `max_rounds` of them, and
/// after each labels the new automaton canonically; stops at the first
/// labelling that came up after an earlier round. The solver is left with
/// the automaton of the last round made.
pub fn iterate_until_repeat<F: Fn(Vec<usize>) -> usize>(s: &mut Solver<F>, max_rounds: usize) -> (r: RoundsEnd)
    requires
        old(s).fa.wf(),
        2 <= old(s).n,
        rule_ok(old(s).rule, old(s).n as nat, old(s).fa.sigma as nat),
        rule_ok(old(s).rule, old(s).n as nat, 2),
    ensures
        final(s).n == old(s).n,
        final(s).rule == old(s).rule,
        final(s).fa.wf(),
        exists|hist: Seq<FA>, labels: Seq<FA>|
            #[trigger] rounds_trace(old(s).fa, old(s).n, old(s).rule, hist, labels) && final(s).fa == hist.last()
                && match r {
                RoundsEnd::Repeat(i) => {
                    &&& 1 <= i <= max_rounds
                    &&& hist.len() == i + 1
                    &&& labels.len() == i
                    &&& all_different(labels.drop_last())
                    &&& exists|j: int| 0 <= j < i - 1 && same_parts(#[trigger] labels[j], labels[i - 1])
                },
                RoundsEnd::NoRepeat => {
                    &&& all_different(labels)
                    &&& hist.len() == max_rounds + 1
                    &&& labels.len() == max_rounds
                },
                RoundsEnd::Stuck => {
                    &&& all_different(labels)
                    &&& {
                        ||| hist.len() == labels.len() + 1 && hist.len() <= max_rounds && round_blocked(
                            hist.last(),
                            old(s).n,
                            old(s).rule,
                        )
                        ||| hist.len() == labels.len() + 2 && hist.len() <= max_rounds + 1 && !relabel_ready(
                            hist.last(),
                        )
                    }
                },
            },
{
    let ghost fa0 = s.fa;
    let ghost hist: Seq<FA> = seq![s.fa];
    let mut seen: Vec<FA> = Vec::new();
    let mut done: usize = 0;
    while done < max_rounds
        invariant
            s.n == old(s).n,
            s.rule == old(s).rule,
            fa0 == old(s).fa,
            2 <= s.n,
            rule_ok(s.rule, s.n as nat, 2),
            s.fa.wf(),
            rule_ok(s.rule, s.n as nat, s.fa.sigma as nat),
            done <= max_rounds,
            hist.len() == done + 1,
            seen@.len() == done,
            rounds_trace(fa0, s.n, s.rule, hist, seen@),
            s.fa == hist.last(),
            all_different(seen@),
        decreases max_rounds - done,
    {
        let next = round(&s.fa, s.n, &s.rule);
        match next {
            None => {
                assert(rounds_trace(fa0, s.n, s.rule, hist, seen@));
                return RoundsEnd::Stuck;
            },
            Some(b) => {
                s.fa = b;
                proof {
                    hist = hist.push(b);
                    assert forall|j: int| 0 <= j < hist.len() - 1 implies round_rel(
                        hist[j],
                        s.n,
                        s.rule,
                        #[trigger] hist[j + 1],
                    ) by {
                        if j < hist.len() - 2 {
                            assert(hist[j] == hist.drop_last()[j]);
                            assert(hist[j + 1] == hist.drop_last()[j + 1]);
                        }
                    }
                    assert forall|j: int| 0 <= j < seen@.len() implies bfs_relabelled(
                        hist[j + 1],
                        #[trigger] seen@[j],
                    ) by {
                        assert(hist[j + 1] == hist.drop_last()[j + 1]);
                    }
                }
                if !ready_for_labels(&s.fa) {
                    assert(rounds_trace(fa0, s.n, s.rule, hist, seen@));
                    return RoundsEnd::Stuck;
                }
                let label = s.fa.canonical_label();
                let mut k: usize = 0;
                let mut hit = false;
                while k < seen.len() && !hit
                    invariant
                        k <= seen@.len(),
                        hit ==> 0 < k && same_parts(seen@[k - 1], label),
                        !hit ==> forall|j: int| 0 <= j < k ==> !same_parts(#[trigger] seen@[j], label),
                    decreases seen@.len() - k,
                {
                    if same_automaton(&seen[k], &label) {
                        hit = true;
                    }
                    k = k + 1;
                }
                if hit {
                    proof {
                        let labels = seen@.push(label);
                        assert(labels.drop_last() =~= seen@);
                        assert(labels[k - 1] == seen@[k - 1]);
                        assert(labels[done as int] == label);
                        assert(same_parts(labels[k - 1], labels[done as int]));
                        assert(rounds_trace(fa0, s.n, s.rule, hist, labels)) by {
                            assert forall|j: int| 0 <= j < labels.len() implies bfs_relabelled(
                                hist[j + 1],
                                #[trigger] labels[j],
                            ) by {
                                if j < seen@.len() {
                                    assert(labels[j] == seen@[j]);
                                }
                            }
                        }
                    }
                    return RoundsEnd::Repeat(done + 1);
                }
                let ghost old_seen = seen@;
                seen.push(label);
                proof {
                    assert forall|j: int| 0 <= j < seen@.len() implies bfs_relabelled(
                        hist[j + 1],
                        #[trigger] seen@[j],
                    ) by {
                        if j < old_seen.len() {
                            assert(seen@[j] == old_seen[j]);
                        }
                    }
                    assert forall|j: int, l: int| 0 <= j < l < seen@.len() implies !same_parts(
                        #[trigger] seen@[j],
                        #[trigger] seen@[l],
                    ) by {
                        assert(seen@[j] == old_seen[j]);
                        if l < old_seen.len() {
                            assert(seen@[l] == old_seen[l]);
                        }
                    }
                }
                done = done + 1;
            },
        }
    }
    assert(rounds_trace(fa0, s.n, s.rule, hist, seen@));
    RoundsEnd::NoRepeat
}

} // verus!
