//! Minimization of an automaton by merging nodes of equal behaviour, round
//! after round, until a round merges nothing.
//!
//! The behaviour of a node is whether it halts together with its list of
//! outgoing `(letter, follower)` pairs. A round numbers the behaviours in the
//! order in which the nodes first show them, renames every node by the number
//! of its behaviour, and keeps each renamed edge and halting node once.
use vstd::prelude::*;
use std::collections::HashMap;
use crate::fa::{FA, Edge, captures, parts_valid, positions, contains};
use crate::minimization::{productive, accepting};

verus! {

broadcast use vstd::std_specs::hash::group_hash_axioms;

/// An outgoing edge: the letter read and the follower.
pub type Pair = (usize, usize);

/// A behaviour: whether the node halts, and its outgoing pairs.
pub type Beh = (bool, Seq<Pair>);

/// The state of the minimization: nodes, edges, halting nodes, start, and the
/// outgoing pairs of each node.
pub type MinState = (Seq<usize>, Seq<Edge>, Seq<usize>, usize, Map<usize, Seq<Pair>>);

/// `a` comes before `b`: by letter, then by follower.
pub open spec fn pair_lt(a: Pair, b: Pair) -> bool {
    a.0 < b.0 || (a.0 == b.0 && a.1 < b.1)
}

/// The pairs are strictly ascending.
pub open spec fn pairs_sorted(s: Seq<Pair>) -> bool {
    forall|i: int, j: int| 0 <= i < j < s.len() ==> pair_lt(#[trigger] s[i], #[trigger] s[j])
}

/// `s` with every element after its first occurrence dropped.
pub open spec fn dedup_first<A>(s: Seq<A>) -> Seq<A>
    decreases s.len(),
{
    if s.len() == 0 {
        Seq::empty()
    } else {
        let p = dedup_first(s.drop_last());
        if p.contains(s.last()) {
            p
        } else {
            p.push(s.last())
        }
    }
}

/// The behaviour of node `n`.
pub open spec fn beh(st: MinState, n: usize) -> Beh {
    (st.2.contains(n), st.4[n])
}

/// The behaviours of the first `k` nodes, each once, in order of first showing.
pub open spec fn first_behs(st: MinState, k: nat) -> Seq<Beh>
    decreases k,
{
    if k == 0 {
        Seq::empty()
    } else {
        let p = first_behs(st, (k - 1) as nat);
        let b = beh(st, st.0[k - 1]);
        if p.contains(b) {
            p
        } else {
            p.push(b)
        }
    }
}

/// The behaviours of all nodes, each once, in order of first showing.
pub open spec fn behaviours(st: MinState) -> Seq<Beh> {
    first_behs(st, st.0.len())
}

/// The last position of `b` in `s`; -1 when it does not occur.
pub open spec fn pos_of(s: Seq<Beh>, b: Beh) -> int
    decreases s.len(),
{
    if s.len() == 0 {
        -1
    } else if s.last() == b {
        s.len() - 1
    } else {
        pos_of(s.drop_last(), b)
    }
}

/// A node renamed by the number of its behaviour.
pub open spec fn ren(st: MinState) -> spec_fn(usize) -> usize {
    |n: usize| pos_of(behaviours(st), beh(st, n)) as usize
}

/// An edge with both ends renamed.
pub open spec fn ren_edge(st: MinState) -> spec_fn(Edge) -> Edge {
    |e: Edge| (ren(st)(e.0), e.1, ren(st)(e.2))
}

/// An outgoing pair with its follower renamed.
pub open spec fn ren_pair(st: MinState) -> spec_fn(Pair) -> Pair {
    |p: Pair| (p.0, ren(st)(p.1))
}

/// One round from `st` to `st2`: the nodes become the numbers of the
/// behaviours; edges, halting nodes and start are renamed, each edge and
/// halting node kept once, first occurrence first; the outgoing pairs of
/// number `j` are those of behaviour `j` renamed, in ascending order, each once.
pub open spec fn round(st: MinState, st2: MinState) -> bool {
    let rp = behaviours(st);
    &&& st2.0 == positions(rp.len())
    &&& st2.1 == dedup_first(st.1.map_values(ren_edge(st)))
    &&& st2.2 == dedup_first(st.2.map_values(ren(st)))
    &&& st2.3 == ren(st)(st.3)
    &&& forall|j: usize| #[trigger] st2.4.contains_key(j) <==> j < rp.len()
    &&& forall|j: usize|
        j < rp.len() ==> pairs_sorted(#[trigger] st2.4[j]) && forall|p: Pair|
            #[trigger] st2.4[j].contains(p) <==> rp[j as int].1.map_values(ren_pair(st)).contains(p)
}

/// The state is consistent: the parts are, every node has its outgoing pairs,
/// and every follower is a node.
pub open spec fn min_ok(st: MinState, sigma: usize) -> bool {
    &&& parts_valid(st.0, sigma, st.1, st.3, st.2)
    &&& forall|n: usize| #[trigger] st.0.contains(n) ==> st.4.contains_key(n)
    &&& forall|n: usize, p: Pair| #[trigger] st.0.contains(n) && #[trigger] st.4[n].contains(p) ==> st.0.contains(p.1)
}

/// The outgoing pairs of each node, as sequences.
pub open spec fn out_view(m: Map<usize, Vec<Pair>>) -> Map<usize, Seq<Pair>> {
    m.map_values(|v: Vec<Pair>| v@)
}

/// Behaviours held as values, as sequences.
pub open spec fn behs_view(v: Seq<(bool, Vec<Pair>)>) -> Seq<Beh> {
    v.map_values(|b: (bool, Vec<Pair>)| (b.0, b.1@))
}

/// What a sequence holds after a push.
pub proof fn lemma_push_contains_any<A>(s: Seq<A>, a: A, x: A)
    ensures
        s.push(a).contains(x) <==> s.contains(x) || x == a,
{
    if s.contains(x) {
        let j = choose|j: int| 0 <= j < s.len() && s[j] == x;
        assert(s.push(a)[j] == x);
    }
    if x == a {
        assert(s.push(a)[s.len() as int] == x);
    }
    if s.push(a).contains(x) {
        let j = choose|j: int| 0 <= j < s.push(a).len() && s.push(a)[j] == x;
        if j < s.len() {
            assert(s[j] == x);
        }
    }
}

/// The first `k` nodes show exactly the behaviours of `first_behs(st, k)`,
/// each listed once, and there are at most `k` of them.
pub proof fn lemma_first_behs(st: MinState, k: nat)
    requires
        k <= st.0.len(),
    ensures
        first_behs(st, k).no_duplicates(),
        first_behs(st, k).len() <= k,
        forall|i: int| 0 <= i < k ==> #[trigger] first_behs(st, k).contains(beh(st, st.0[i])),
        forall|j: int| 0 <= j < first_behs(st, k).len() ==> exists|i: int| 0 <= i < k && #[trigger] first_behs(st, k)[j] == beh(st, st.0[i]),
    decreases k,
{
    if k > 0 {
        lemma_first_behs(st, (k - 1) as nat);
        let p = first_behs(st, (k - 1) as nat);
        let b = beh(st, st.0[k - 1]);
        assert forall|i: int| 0 <= i < k implies #[trigger] first_behs(st, k).contains(beh(st, st.0[i])) by {
            if i < k - 1 {
                assert(p.contains(beh(st, st.0[i])));
                lemma_push_contains_any(p, b, beh(st, st.0[i]));
            } else {
                lemma_push_contains_any(p, b, b);
            }
        }
        assert forall|j: int| 0 <= j < first_behs(st, k).len() implies exists|i: int| 0 <= i < k && #[trigger] first_behs(st, k)[j] == beh(st, st.0[i]) by {
            if j < p.len() {
                assert(first_behs(st, k)[j] == p[j]);
                let i = choose|i: int| 0 <= i < k - 1 && #[trigger] p[j] == beh(st, st.0[i]);
                assert(first_behs(st, k)[j] == beh(st, st.0[i]));
            } else {
                assert(first_behs(st, k)[j] == beh(st, st.0[k - 1]));
            }
        }
    }
}

/// Where `b` occurs in `s`, its last position holds it; in a sequence without
/// repeats, the position of an element is where it stands.
pub proof fn lemma_pos_of(s: Seq<Beh>, b: Beh)
    ensures
        s.contains(b) ==> 0 <= pos_of(s, b) < s.len() && s[pos_of(s, b)] == b,
        s.no_duplicates() ==> forall|j: int| 0 <= j < s.len() ==> #[trigger] pos_of(s, s[j]) == j,
    decreases s.len(),
{
    if s.len() > 0 {
        lemma_pos_of(s.drop_last(), b);
        if s.contains(b) && s.last() != b {
            let j = choose|j: int| 0 <= j < s.len() && s[j] == b;
            assert(s.drop_last()[j] == b);
        }
        if s.no_duplicates() {
            assert(s.drop_last().no_duplicates());
            assert forall|j: int| 0 <= j < s.len() implies #[trigger] pos_of(s, s[j]) == j by {
                if j < s.len() - 1 {
                    lemma_pos_of(s.drop_last(), s[j]);
                    assert(s.drop_last()[j] == s[j]);
                    assert(s.last() != s[j]);
                }
            }
        }
    }
}

/// Dropping repeats keeps what occurs, and leaves no repeats.
pub proof fn lemma_dedup_first<A>(s: Seq<A>)
    ensures
        forall|x: A| #[trigger] dedup_first(s).contains(x) <==> s.contains(x),
        dedup_first(s).no_duplicates(),
    decreases s.len(),
{
    if s.len() > 0 {
        lemma_dedup_first(s.drop_last());
        let p = dedup_first(s.drop_last());
        assert(s =~= s.drop_last().push(s.last()));
        assert forall|x: A| #[trigger] dedup_first(s).contains(x) <==> s.contains(x) by {
            lemma_push_contains_any(s.drop_last(), s.last(), x);
            lemma_push_contains_any(p, s.last(), x);
        }
        if !p.contains(s.last()) {
            assert forall|i: int, j: int| 0 <= i < p.len() + 1 && 0 <= j < p.len() + 1 && i != j implies p.push(s.last())[i]
                != p.push(s.last())[j] by {
                if i == p.len() as int {
                    assert(p[j] == p.push(s.last())[j]);
                } else if j == p.len() as int {
                    assert(p[i] == p.push(s.last())[i]);
                }
            }
        }
    }
}

/// The nodes `0..k` are exactly the numbers below `k`.
pub proof fn lemma_positions(k: nat)
    ensures
        forall|x: usize| #[trigger] positions(k).contains(x) <==> x < k,
{
    assert forall|x: usize| #[trigger] positions(k).contains(x) <==> x < k by {
        if x < k {
            assert(positions(k)[x as int] == x);
        }
    }
}

/// In a consistent state every node is renamed to a number below the count of
/// behaviours, the number of its behaviour.
pub proof fn lemma_ren(st: MinState, n: usize)
    requires
        st.0.contains(n),
        st.0.len() <= usize::MAX,
    ensures
        0 <= pos_of(behaviours(st), beh(st, n)) < behaviours(st).len(),
        ren(st)(n) == pos_of(behaviours(st), beh(st, n)),
        behaviours(st)[ren(st)(n) as int] == beh(st, n),
{
    lemma_first_behs(st, st.0.len());
    let i = choose|i: int| 0 <= i < st.0.len() && st.0[i] == n;
    assert(behaviours(st).contains(beh(st, st.0[i])));
    lemma_pos_of(behaviours(st), beh(st, n));
}

/// Whether two lists of pairs are equal.
fn pairs_eq(a: &Vec<Pair>, b: &Vec<Pair>) -> (r: bool)
    ensures
        r == (a@ == b@),
{
    if a.len() != b.len() {
        return false;
    }
    let mut i: usize = 0;
    while i < a.len()
        invariant
            a@.len() == b@.len(),
            i <= a@.len(),
            forall|j: int| 0 <= j < i ==> a@[j] == b@[j],
        decreases a@.len() - i,
    {
        if a[i].0 != b[i].0 || a[i].1 != b[i].1 {
            return false;
        }
        i = i + 1;
    }
    assert(a@ =~= b@);
    true
}

/// A copy of a list of pairs.
fn copy_pairs(a: &Vec<Pair>) -> (r: Vec<Pair>)
    ensures
        r@ == a@,
{
    let mut r: Vec<Pair> = Vec::new();
    let mut i: usize = 0;
    while i < a.len()
        invariant
            i <= a@.len(),
            r@ == a@.take(i as int),
        decreases a@.len() - i,
    {
        r.push(a[i]);
        assert(a@.take(i + 1) =~= a@.take(i as int).push(a@[i as int]));
        i = i + 1;
    }
    assert(a@.take(a@.len() as int) =~= a@);
    r
}

/// A copy of a list of edges.
fn copy_edges(a: &Vec<Edge>) -> (r: Vec<Edge>)
    ensures
        r@ == a@,
{
    let mut r: Vec<Edge> = Vec::new();
    let mut i: usize = 0;
    while i < a.len()
        invariant
            i <= a@.len(),
            r@ == a@.take(i as int),
        decreases a@.len() - i,
    {
        r.push(a[i]);
        assert(a@.take(i + 1) =~= a@.take(i as int).push(a@[i as int]));
        i = i + 1;
    }
    assert(a@.take(a@.len() as int) =~= a@);
    r
}

/// The position of behaviour `b` in `reps`, if it occurs.
fn find_beh(reps: &Vec<(bool, Vec<Pair>)>, b: &(bool, Vec<Pair>)) -> (r: Option<usize>)
    ensures
        match r {
            Some(j) => j < reps@.len() && behs_view(reps@)[j as int] == (b.0, b.1@),
            None => !behs_view(reps@).contains((b.0, b.1@)),
        },
{
    let mut i: usize = 0;
    while i < reps.len()
        invariant
            i <= reps@.len(),
            forall|j: int| 0 <= j < i ==> behs_view(reps@)[j] != (b.0, b.1@),
        decreases reps@.len() - i,
    {
        if reps[i].0 == b.0 && pairs_eq(&reps[i].1, &b.1) {
            return Some(i);
        }
        i = i + 1;
    }
    None
}


/// The pairs of `v`, each once, in ascending order.
fn sort_dedup_pairs(v: &Vec<Pair>) -> (r: Vec<Pair>)
    ensures
        pairs_sorted(r@),
        forall|p: Pair| #[trigger] r@.contains(p) <==> v@.contains(p),
{
    let mut out: Vec<Pair> = Vec::new();
    let mut k: usize = 0;
    while k < v.len()
        invariant
            k <= v@.len(),
            pairs_sorted(out@),
            forall|p: Pair| #[trigger] out@.contains(p) <==> v@.take(k as int).contains(p),
        decreases v@.len() - k,
    {
        let e = v[k];
        let mut p: usize = 0;
        while p < out.len() && (out[p].0 < e.0 || (out[p].0 == e.0 && out[p].1 < e.1))
            invariant
                p <= out@.len(),
                forall|i: int| 0 <= i < p ==> pair_lt(#[trigger] out@[i], e),
            decreases out@.len() - p,
        {
            p = p + 1;
        }
        let ghost before = out@;
        proof {
            assert(v@.take(k + 1) =~= v@.take(k as int).push(e));
            assert forall|x: Pair| #[trigger] v@.take(k + 1).contains(x) <==> v@.take(k as int).contains(x) || x == e by {
                lemma_push_contains_any(v@.take(k as int), e, x);
            }
        }
        if p < out.len() && out[p].0 == e.0 && out[p].1 == e.1 {
            assert(out@[p as int] == e);
        } else {
            out.insert(p, e);
            proof {
                assert(out@ =~= before.take(p as int).push(e) + before.skip(p as int));
                assert forall|i: int, j: int| 0 <= i < j < out@.len() implies pair_lt(#[trigger] out@[i], #[trigger] out@[j]) by {
                    if j < p {
                        assert(out@[i] == before[i] && out@[j] == before[j]);
                    } else if j == p {
                        assert(out@[i] == before[i]);
                    } else if i < p {
                        assert(out@[i] == before[i] && out@[j] == before[j - 1]);
                        assert(!pair_lt(before[p as int], e));
                        if p < j - 1 {
                            assert(pair_lt(before[p as int], before[j - 1]));
                        }
                    } else if i == p {
                        assert(out@[j] == before[j - 1]);
                        assert(!pair_lt(before[p as int], e));
                        assert(before[p as int] != e);
                        if p < j - 1 {
                            assert(pair_lt(before[p as int], before[j - 1]));
                        }
                    } else {
                        assert(out@[i] == before[i - 1] && out@[j] == before[j - 1]);
                    }
                }
                assert forall|x: Pair| #[trigger] out@.contains(x) <==> before.contains(x) || x == e by {
                    if out@.contains(x) {
                        let i = choose|i: int| 0 <= i < out@.len() && out@[i] == x;
                        if i < p {
                            assert(before[i] == x);
                        } else if i > p {
                            assert(before[i - 1] == x);
                        }
                    }
                    if before.contains(x) {
                        let i = choose|i: int| 0 <= i < before.len() && before[i] == x;
                        if i < p {
                            assert(out@[i] == x);
                        } else {
                            assert(out@[i + 1] == x);
                        }
                    }
                    if x == e {
                        assert(out@[p as int] == x);
                    }
                }
            }
        }
        k = k + 1;
    }
    assert(v@.take(v@.len() as int) =~= v@);
    out
}


/// Whether edge `e` occurs in `v`.
fn contains_edge(v: &Vec<Edge>, e: Edge) -> (r: bool)
    ensures
        r == v@.contains(e),
{
    let mut i: usize = 0;
    while i < v.len()
        invariant
            i <= v@.len(),
            forall|j: int| 0 <= j < i ==> v@[j] != e,
        decreases v@.len() - i,
    {
        if v[i].0 == e.0 && v[i].1 == e.1 && v[i].2 == e.2 {
            return true;
        }
        i = i + 1;
    }
    false
}

/// The state held by the parts.
pub open spec fn state_of(q: Seq<usize>, t: Seq<Edge>, f: Seq<usize>, q0: usize, out: Map<usize, Vec<Pair>>) -> MinState {
    (q, t, f, q0, out_view(out))
}

/// The behaviours of the nodes of `q`, each once, in order of first showing.
fn build_reps(q: &Vec<usize>, f: &Vec<usize>, out: &HashMap<usize, Vec<Pair>>, Ghost(st): Ghost<MinState>) -> (reps: Vec<(bool, Vec<Pair>)>)
    requires
        st.0 == q@,
        st.2 == f@,
        st.4 == out_view(out@),
        forall|n: usize| #[trigger] st.0.contains(n) ==> st.4.contains_key(n),
    ensures
        behs_view(reps@) == behaviours(st),
        reps@.len() <= q@.len(),
{
    let mut reps: Vec<(bool, Vec<Pair>)> = Vec::new();
    let mut i: usize = 0;
    while i < q.len()
        invariant
            st.0 == q@,
            st.2 == f@,
            st.4 == out_view(out@),
            forall|n: usize| #[trigger] st.0.contains(n) ==> st.4.contains_key(n),
            i <= q@.len(),
            behs_view(reps@) == first_behs(st, i as nat),
            reps@.len() <= i,
        decreases q@.len() - i,
    {
        let n = q[i];
        assert(st.0.contains(n));
        let halts = contains(f, n);
        let pairs = copy_pairs(out.get(&n).unwrap());
        let b = (halts, pairs);
        assert((b.0, b.1@) == beh(st, st.0[i as int]));
        match find_beh(&reps, &b) {
            Some(_) => {
                assert(first_behs(st, (i + 1) as nat) == first_behs(st, i as nat));
            },
            None => {
                let ghost before = reps@;
                reps.push(b);
                assert(behs_view(reps@) =~= behs_view(before).push((b.0, b.1@)));
            },
        }
        i = i + 1;
    }
    reps
}

/// The number of the behaviour of node `n`.
fn ren_exec(reps: &Vec<(bool, Vec<Pair>)>, f: &Vec<usize>, out: &HashMap<usize, Vec<Pair>>, n: usize, Ghost(st): Ghost<MinState>) -> (r: usize)
    requires
        st.2 == f@,
        st.4 == out_view(out@),
        behs_view(reps@) == behaviours(st),
        st.0.contains(n),
        st.0.len() <= usize::MAX,
        forall|m: usize| #[trigger] st.0.contains(m) ==> st.4.contains_key(m),
    ensures
        r == ren(st)(n),
        r < reps@.len(),
{
    proof {
        lemma_ren(st, n);
        lemma_first_behs(st, st.0.len());
        lemma_pos_of(behaviours(st), beh(st, n));
    }
    let halts = contains(f, n);
    let pairs = copy_pairs(out.get(&n).unwrap());
    let b = (halts, pairs);
    assert((b.0, b.1@) == beh(st, n));
    match find_beh(reps, &b) {
        Some(j) => {
            assert(behaviours(st)[j as int] == beh(st, n));
            assert(pos_of(behaviours(st), behaviours(st)[j as int]) == j);
            j
        },
        None => {
            assert(behaviours(st).contains(beh(st, n)));
            0
        },
    }
}

/// The edges renamed, each kept once, first occurrence first.
fn ren_edges(t: &Vec<Edge>, reps: &Vec<(bool, Vec<Pair>)>, f: &Vec<usize>, out: &HashMap<usize, Vec<Pair>>, Ghost(st): Ghost<MinState>) -> (t2: Vec<Edge>)
    requires
        st.1 == t@,
        st.2 == f@,
        st.4 == out_view(out@),
        behs_view(reps@) == behaviours(st),
        st.0.len() <= usize::MAX,
        forall|m: usize| #[trigger] st.0.contains(m) ==> st.4.contains_key(m),
        forall|i: int| 0 <= i < t@.len() ==> st.0.contains((#[trigger] t@[i]).0) && st.0.contains(t@[i].2),
    ensures
        t2@ == dedup_first(t@.map_values(ren_edge(st))),
{
    let mut t2: Vec<Edge> = Vec::new();
    let mut k: usize = 0;
    while k < t.len()
        invariant
            st.1 == t@,
            st.2 == f@,
            st.4 == out_view(out@),
            behs_view(reps@) == behaviours(st),
            st.0.len() <= usize::MAX,
            forall|m: usize| #[trigger] st.0.contains(m) ==> st.4.contains_key(m),
            forall|i: int| 0 <= i < t@.len() ==> st.0.contains((#[trigger] t@[i]).0) && st.0.contains(t@[i].2),
            k <= t@.len(),
            t2@ == dedup_first(t@.take(k as int).map_values(ren_edge(st))),
        decreases t@.len() - k,
    {
        let e = t[k];
        assert(st.0.contains(t@[k as int].0) && st.0.contains(t@[k as int].2));
        let a = ren_exec(reps, f, out, e.0, Ghost(st));
        let b = ren_exec(reps, f, out, e.2, Ghost(st));
        let e2: Edge = (a, e.1, b);
        let ghost m0 = t@.take(k as int).map_values(ren_edge(st));
        let ghost m1 = t@.take(k + 1).map_values(ren_edge(st));
        assert(m1 =~= m0.push(e2));
        assert(m1.drop_last() =~= m0);
        if !contains_edge(&t2, e2) {
            t2.push(e2);
        }
        k = k + 1;
    }
    assert(t@.take(t@.len() as int) =~= t@);
    t2
}

/// The halting nodes renamed, each kept once, first occurrence first.
fn ren_nums(v: &Vec<usize>, reps: &Vec<(bool, Vec<Pair>)>, f: &Vec<usize>, out: &HashMap<usize, Vec<Pair>>, Ghost(st): Ghost<MinState>) -> (v2: Vec<usize>)
    requires
        st.2 == f@,
        st.4 == out_view(out@),
        behs_view(reps@) == behaviours(st),
        st.0.len() <= usize::MAX,
        forall|m: usize| #[trigger] st.0.contains(m) ==> st.4.contains_key(m),
        forall|i: int| 0 <= i < v@.len() ==> st.0.contains(#[trigger] v@[i]),
    ensures
        v2@ == dedup_first(v@.map_values(ren(st))),
{
    let mut v2: Vec<usize> = Vec::new();
    let mut k: usize = 0;
    while k < v.len()
        invariant
            st.2 == f@,
            st.4 == out_view(out@),
            behs_view(reps@) == behaviours(st),
            st.0.len() <= usize::MAX,
            forall|m: usize| #[trigger] st.0.contains(m) ==> st.4.contains_key(m),
            forall|i: int| 0 <= i < v@.len() ==> st.0.contains(#[trigger] v@[i]),
            k <= v@.len(),
            v2@ == dedup_first(v@.take(k as int).map_values(ren(st))),
        decreases v@.len() - k,
    {
        assert(st.0.contains(v@[k as int]));
        let a = ren_exec(reps, f, out, v[k], Ghost(st));
        let ghost m0 = v@.take(k as int).map_values(ren(st));
        let ghost m1 = v@.take(k + 1).map_values(ren(st));
        assert(m1 =~= m0.push(a));
        assert(m1.drop_last() =~= m0);
        if !contains(&v2, a) {
            v2.push(a);
        }
        k = k + 1;
    }
    assert(v@.take(v@.len() as int) =~= v@);
    v2
}


/// For each behaviour number `j`, its outgoing pairs renamed, in ascending
/// order, each once.
fn build_out(reps: &Vec<(bool, Vec<Pair>)>, f: &Vec<usize>, out: &HashMap<usize, Vec<Pair>>, Ghost(st): Ghost<MinState>) -> (out2: HashMap<usize, Vec<Pair>>)
    requires
        st.2 == f@,
        st.4 == out_view(out@),
        behs_view(reps@) == behaviours(st),
        st.0.len() <= usize::MAX,
        forall|m: usize| #[trigger] st.0.contains(m) ==> st.4.contains_key(m),
        forall|n: usize, p: Pair| #[trigger] st.0.contains(n) && #[trigger] st.4[n].contains(p) ==> st.0.contains(p.1),
    ensures
        forall|j: usize| #[trigger] out2@.contains_key(j) <==> j < reps@.len(),
        forall|j: usize|
            j < reps@.len() ==> pairs_sorted((#[trigger] out2@[j])@) && forall|p: Pair|
                #[trigger] out2@[j]@.contains(p) <==> behaviours(st)[j as int].1.map_values(ren_pair(st)).contains(p),
{
    proof {
        lemma_first_behs(st, st.0.len());
    }
    let mut out2: HashMap<usize, Vec<Pair>> = HashMap::new();
    let mut j: usize = 0;
    while j < reps.len()
        invariant
            st.2 == f@,
            st.4 == out_view(out@),
            behs_view(reps@) == behaviours(st),
            st.0.len() <= usize::MAX,
            forall|m: usize| #[trigger] st.0.contains(m) ==> st.4.contains_key(m),
            forall|n: usize, p: Pair| #[trigger] st.0.contains(n) && #[trigger] st.4[n].contains(p) ==> st.0.contains(p.1),
            forall|jj: int| 0 <= jj < behaviours(st).len() ==> exists|i: int| 0 <= i < st.0.len() && #[trigger] behaviours(st)[jj] == beh(st, st.0[i]),
            j <= reps@.len(),
            forall|k: usize| #[trigger] out2@.contains_key(k) <==> k < j,
            forall|k: usize|
                k < j ==> pairs_sorted((#[trigger] out2@[k])@) && forall|p: Pair|
                    #[trigger] out2@[k]@.contains(p) <==> behaviours(st)[k as int].1.map_values(ren_pair(st)).contains(p),
        decreases reps@.len() - j,
    {
        let list = &reps[j].1;
        let ghost bj = behaviours(st)[j as int];
        assert(list@ == bj.1);
        let ghost i0 = choose|i: int| 0 <= i < st.0.len() && #[trigger] behaviours(st)[j as int] == beh(st, st.0[i]);
        let ghost n0 = st.0[i0];
        assert(st.0.contains(n0));
        assert(bj.1 == st.4[n0]);
        let mut mapped: Vec<Pair> = Vec::new();
        let mut p: usize = 0;
        while p < list.len()
            invariant
                st.2 == f@,
                st.4 == out_view(out@),
                behs_view(reps@) == behaviours(st),
                st.0.len() <= usize::MAX,
                forall|m: usize| #[trigger] st.0.contains(m) ==> st.4.contains_key(m),
                forall|n: usize, pp: Pair| #[trigger] st.0.contains(n) && #[trigger] st.4[n].contains(pp) ==> st.0.contains(pp.1),
                st.0.contains(n0),
                list@ == st.4[n0],
                p <= list@.len(),
                mapped@ == list@.take(p as int).map_values(ren_pair(st)),
            decreases list@.len() - p,
        {
            let pr = list[p];
            assert(st.4[n0].contains(list@[p as int]));
            let y = ren_exec(reps, f, out, pr.1, Ghost(st));
            mapped.push((pr.0, y));
            assert(list@.take(p + 1).map_values(ren_pair(st)) =~= list@.take(p as int).map_values(ren_pair(st)).push((pr.0, y)));
            p = p + 1;
        }
        assert(list@.take(list@.len() as int) =~= list@);
        let sorted = sort_dedup_pairs(&mapped);
        out2.insert(j, sorted);
        j = j + 1;
    }
    out2
}

/// One round of merging: see `round`.
fn min_round(
    q: &Vec<usize>,
    t: &Vec<Edge>,
    f: &Vec<usize>,
    q0: usize,
    out: &HashMap<usize, Vec<Pair>>,
    sigma: usize,
) -> (res: (Vec<usize>, Vec<Edge>, Vec<usize>, usize, HashMap<usize, Vec<Pair>>))
    requires
        min_ok(state_of(q@, t@, f@, q0, out@), sigma),
    ensures
        round(state_of(q@, t@, f@, q0, out@), state_of(res.0@, res.1@, res.2@, res.3, res.4@)),
        min_ok(state_of(res.0@, res.1@, res.2@, res.3, res.4@), sigma),
        res.0@.len() <= q@.len(),
{
    let ghost st = state_of(q@, t@, f@, q0, out@);
    let qlen = q.len();
    let reps = build_reps(q, f, out, Ghost(st));
    let t2 = ren_edges(t, &reps, f, out, Ghost(st));
    let f2 = ren_nums(f, &reps, f, out, Ghost(st));
    assert(st.0.contains(q0));
    let q02 = ren_exec(&reps, f, out, q0, Ghost(st));
    let out2 = build_out(&reps, f, out, Ghost(st));
    let k = reps.len();
    let mut q2: Vec<usize> = Vec::new();
    let mut i: usize = 0;
    while i < k
        invariant
            i <= k,
            q2@ == positions(i as nat),
        decreases k - i,
    {
        q2.push(i);
        assert(q2@ =~= positions((i + 1) as nat));
        i = i + 1;
    }
    let ghost st2 = state_of(q2@, t2@, f2@, q02, out2@);
    proof {
        lemma_positions(k as nat);
        lemma_dedup_first(t@.map_values(ren_edge(st)));
        lemma_dedup_first(f@.map_values(ren(st)));
        assert forall|j: usize| #[trigger] st2.4.contains_key(j) <==> j < behaviours(st).len() by {}
        assert forall|j: usize|
            j < behaviours(st).len() implies pairs_sorted(#[trigger] st2.4[j]) && forall|p: Pair|
                #[trigger] st2.4[j].contains(p) <==> behaviours(st)[j as int].1.map_values(ren_pair(st)).contains(p) by {
            assert(st2.4[j] == out2@[j]@);
        }
        assert(round(st, st2));
        // the new state is consistent
        assert(positions(k as nat).contains(q02));
        assert forall|i: int| 0 <= i < f2@.len() implies positions(k as nat).contains(#[trigger] f2@[i]) by {
            assert(dedup_first(f@.map_values(ren(st))).contains(f2@[i]));
            let j = choose|j: int| 0 <= j < f@.len() && f@.map_values(ren(st))[j] == f2@[i];
            assert(st.0.contains(f@[j]));
            lemma_ren(st, f@[j]);
        }
        assert forall|i: int| 0 <= i < t2@.len() implies positions(k as nat).contains((#[trigger] t2@[i]).0)
            && positions(k as nat).contains(t2@[i].2) && t2@[i].1 < sigma by {
            assert(dedup_first(t@.map_values(ren_edge(st))).contains(t2@[i]));
            let j = choose|j: int| 0 <= j < t@.len() && t@.map_values(ren_edge(st))[j] == t2@[i];
            assert(st.0.contains(t@[j].0) && st.0.contains(t@[j].2));
            lemma_ren(st, t@[j].0);
            lemma_ren(st, t@[j].2);
        }
        assert(f@.len() != 0);
        assert(f@.map_values(ren(st)).contains(f@.map_values(ren(st))[0]));
        assert(f2@.len() != 0);
        assert(parts_valid(st2.0, sigma, st2.1, st2.3, st2.2));
        assert forall|n: usize, p: Pair| #[trigger] st2.0.contains(n) && #[trigger] st2.4[n].contains(p) implies st2.0.contains(p.1) by {
            assert(st2.4[n] == out2@[n]@);
            let m = behaviours(st)[n as int].1.map_values(ren_pair(st));
            assert(m.contains(p));
            let j = choose|j: int| 0 <= j < m.len() && m[j] == p;
            lemma_first_behs(st, st.0.len());
            let i0 = choose|i: int| 0 <= i < st.0.len() && #[trigger] behaviours(st)[n as int] == beh(st, st.0[i]);
            assert(st.0.contains(st.0[i0]));
            assert(st.4[st.0[i0]].contains(behaviours(st)[n as int].1[j]));
            lemma_ren(st, behaviours(st)[n as int].1[j].1);
        }
        assert(min_ok(st2, sigma));
    }
    (q2, t2, f2, q02, out2)
}


/// The state minimization starts from: the parts of `fa`, with the outgoing
/// pairs of each node listed letter by letter.
pub open spec fn start_state(fa: FA) -> MinState {
    (
        fa.q@,
        fa.t@,
        fa.f@,
        fa.q0,
        Map::new(|n: usize| fa.q@.contains(n), |n: usize| captures(fa.t@, n, fa.sigma as nat)),
    )
}

/// Round `i` of `hist` leads to state `i + 1`.
pub open spec fn round_at(hist: Seq<MinState>, i: int) -> bool {
    round(hist[i], hist[i + 1])
}

/// Round `i` of `hist` changed the number of nodes.
pub open spec fn size_changed(hist: Seq<MinState>, i: int) -> bool {
    hist[i + 1].0.len() != hist[i].0.len()
}

/// `hist` is the run of the minimization from `s0`: rounds follow one another
/// while they change the number of nodes, and the run stops after the first
/// round that does not (or at once when there is no node).
pub open spec fn min_history(s0: MinState, hist: Seq<MinState>) -> bool {
    &&& hist.len() >= 1
    &&& hist[0] == s0
    &&& forall|i: int| 0 <= i < hist.len() - 1 ==> #[trigger] round_at(hist, i)
    &&& forall|i: int| 0 <= i < hist.len() - 2 ==> #[trigger] size_changed(hist, i)
    &&& hist.len() == 1 ==> s0.0.len() == 0
    &&& hist.len() >= 2 ==> !size_changed(hist, hist.len() - 2)
}

impl FA {
    /// Merges nodes of equal behaviour, round after round, until a round
    /// leaves the number of nodes unchanged.
    pub fn usize_dfa_minimize(&self) -> (r: FA)
        requires
            self.wf(),
        ensures
            r.wf(),
            r.sigma == self.sigma,
            exists|hist: Seq<MinState>|
                #![trigger min_history(start_state(*self), hist)]
                min_history(start_state(*self), hist) && r.q@ == hist.last().0 && r.t@ == hist.last().1 && r.f@
                    == hist.last().2 && r.q0 == hist.last().3,
    {
        let sigma = self.sigma;
        let mut out: HashMap<usize, Vec<Pair>> = HashMap::new();
        let mut i: usize = 0;
        while i < self.q.len()
            invariant
                self.wf(),
                i <= self.q@.len(),
                forall|n: usize| #[trigger] out@.contains_key(n) <==> self.q@.take(i as int).contains(n),
                forall|n: usize| #[trigger] out@.contains_key(n) ==> out@[n]@ == captures(self.t@, n, self.sigma as nat),
            decreases self.q@.len() - i,
        {
            let n = self.q[i];
            assert(self.q@.contains(n));
            let c = self.edges_of_node_capturing(n);
            out.insert(n, c);
            proof {
                assert(self.q@.take(i + 1) =~= self.q@.take(i as int).push(n));
                assert forall|m: usize| #[trigger] out@.contains_key(m) <==> self.q@.take(i + 1).contains(m) by {
                    crate::fa::lemma_push_contains(self.q@.take(i as int), n, m);
                }
            }
            i = i + 1;
        }
        assert(self.q@.take(self.q@.len() as int) =~= self.q@);
        let ghost s0 = start_state(*self);
        proof {
            assert(out_view(out@) =~= s0.4);
            assert forall|n: usize, p: Pair| #[trigger] s0.0.contains(n) && #[trigger] s0.4[n].contains(p) implies s0.0.contains(p.1) by {
                let j = choose|j: int| 0 <= j < s0.4[n].len() && s0.4[n][j] == p;
                crate::fa::lemma_captures_edge(self.t@, n, self.sigma as nat, j);
                let k = choose|k: int| 0 <= k < self.t@.len() && #[trigger] self.t@[k] == (n, captures(self.t@, n, self.sigma as nat)[j].0, captures(self.t@, n, self.sigma as nat)[j].1);
                assert(self.q@.contains(self.t@[k].2));
            }
            assert(min_ok(s0, sigma));
        }
        let mut q = self.q.clone();
        let mut t = copy_edges(&self.t);
        let mut f = self.f.clone();
        let mut q0 = self.q0;
        assert(q@ =~= self.q@ && t@ == self.t@ && f@ =~= self.f@);
        let ghost mut hist: Seq<MinState> = seq![s0];
        let mut prev: usize = 0;
        let mut size: usize = q.len();
        while prev != size
            invariant
                min_ok(state_of(q@, t@, f@, q0, out@), sigma),
                hist.len() >= 1,
                hist[0] == s0,
                hist.last() == state_of(q@, t@, f@, q0, out@),
                forall|i: int| 0 <= i < hist.len() - 1 ==> #[trigger] round_at(hist, i),
                forall|i: int| 0 <= i < hist.len() - 2 ==> #[trigger] size_changed(hist, i),
                hist.len() == 1 ==> prev == 0,
                hist.len() >= 2 ==> prev == hist[hist.len() - 2].0.len(),
                size == q@.len(),
                s0.0.len() == self.q@.len(),
            decreases 2 * size + (if prev != size { 1int } else { 0int }),
        {
            let ghost before = hist;
            let res = min_round(&q, &t, &f, q0, &out, sigma);
            let (q2, t2, f2, q02, out2) = res;
            q = q2;
            t = t2;
            f = f2;
            q0 = q02;
            out = out2;
            proof {
                hist = hist.push(state_of(q@, t@, f@, q0, out@));
                assert forall|i: int| 0 <= i < hist.len() - 1 implies #[trigger] round_at(hist, i) by {
                    if i < before.len() - 1 {
                        assert(round_at(before, i));
                        assert(hist[i] == before[i] && hist[i + 1] == before[i + 1]);
                    } else {
                        assert(hist[i] == before.last());
                    }
                }
                assert forall|i: int| 0 <= i < hist.len() - 2 implies #[trigger] size_changed(hist, i) by {
                    if i < before.len() - 2 {
                        assert(size_changed(before, i));
                        assert(hist[i] == before[i] && hist[i + 1] == before[i + 1]);
                    } else {
                        assert(hist[i + 1] == before.last());
                        assert(hist[i] == before[before.len() - 2]);
                    }
                }
            }
            prev = size;
            size = q.len();
        }
        proof {
            if hist.len() >= 2 {
                assert(!size_changed(hist, hist.len() - 2));
            }
            assert(min_history(s0, hist));
        }
        FA::from(q, sigma, t, q0, f)
    }

    /// The easy simplifications, then the merging of nodes of equal behaviour.
    pub fn usize_full_simplify(&self) -> (r: FA)
        requires
            self.wf(),
            productive(self.t@, self.f@, self.q0),
        ensures
            r.wf(),
            r.sigma == self.sigma,
            exists|mid: FA, hist: Seq<MinState>|
                #![trigger min_history(start_state(mid), hist)]
                mid.wf() && mid.sigma == self.sigma && mid.q0 == self.q0 && (forall|ns: Seq<usize>|
                    #[trigger] accepting(mid.t@, mid.q0, mid.f@, ns) <==> accepting(self.t@, self.q0, self.f@, ns))
                    && min_history(start_state(mid), hist) && r.q@ == hist.last().0 && r.t@ == hist.last().1
                    && r.f@ == hist.last().2 && r.q0 == hist.last().3,
    {
        let mid = self.easy_simplifications();
        let r = mid.usize_dfa_minimize();
        proof {
            let hist = choose|hist: Seq<MinState>| #![trigger min_history(start_state(mid), hist)]
                min_history(start_state(mid), hist) && r.q@ == hist.last().0 && r.t@ == hist.last().1 && r.f@
                    == hist.last().2 && r.q0 == hist.last().3;
            assert(min_history(start_state(mid), hist));
        }
        r
    }

}

} // verus!
