//! The words an automaton spells along its walks from the start, found breadth
//! first, with limits on how far the search goes.
use vstd::prelude::*;
use crate::fa::{FA, captures};

verus! {

/// A walk being searched: the nodes visited and the letters read.
pub type Searcher = (Seq<usize>, Seq<usize>);

/// How often `n` occurs in `s`.
pub open spec fn count_of(s: Seq<usize>, n: usize) -> nat
    decreases s.len(),
{
    if s.len() == 0 {
        0
    } else {
        count_of(s.drop_last(), n) + if s.last() == n {
            1nat
        } else {
            0nat
        }
    }
}

/// The steps out of the last node of walk `s`: letter and follower.
pub open spec fn caps_of(fa: FA, s: Searcher) -> Seq<(usize, usize)> {
    captures(fa.t@, s.0.last(), fa.sigma as nat)
}

/// The walk `s` goes on by step `c` when the follower has been visited at
/// most `max_loops` times.
pub open spec fn goes_on(s: Searcher, c: (usize, usize), max_loops: usize) -> bool {
    count_of(s.0, c.1) <= max_loops
}

/// The word of `s` followed by the letter of `c` is found when the follower
/// was visited too often or halts.
pub open spec fn is_found(fa: FA, s: Searcher, c: (usize, usize), max_loops: usize) -> bool {
    count_of(s.0, c.1) > max_loops || fa.f@.contains(c.1)
}

/// `s` continued by step `c`.
pub open spec fn continued(s: Searcher, c: (usize, usize)) -> Searcher {
    (s.0.push(c.1), s.1.push(c.0))
}

/// The walks of the next round: every walk of `ss` continued by every step it
/// can go on by.
pub open spec fn next_searchers(fa: FA, ss: Set<Searcher>, max_loops: usize) -> Set<Searcher> {
    Set::new(
        |p: Searcher|
            exists|s: Searcher, c: (usize, usize)|
                #[trigger] ss.contains(s) && #[trigger] caps_of(fa, s).contains(c) && goes_on(s, c, max_loops) && p == continued(s, c),
    )
}

/// The words found so far, with those of the steps of this round.
pub open spec fn next_found(fa: FA, ss: Set<Searcher>, found: Set<Seq<usize>>, max_loops: usize) -> Set<Seq<usize>> {
    found.union(
        Set::new(
            |o: Seq<usize>|
                exists|s: Searcher, c: (usize, usize)|
                    #[trigger] ss.contains(s) && #[trigger] caps_of(fa, s).contains(c) && is_found(fa, s, c, max_loops) && o == s.1.push(c.0),
        ),
    )
}

/// The walks and the words found after `k` rounds.
pub open spec fn word_states(fa: FA, max_loops: usize, k: nat) -> (Set<Searcher>, Set<Seq<usize>>)
    decreases k,
{
    if k == 0 {
        (set![(seq![fa.q0], Seq::<usize>::empty())], Set::empty())
    } else {
        let p = word_states(fa, max_loops, (k - 1) as nat);
        (next_searchers(fa, p.0, max_loops), next_found(fa, p.0, p.1, max_loops))
    }
}

/// The search goes on after `k` rounds: walks are left, fewer than
/// `max_paths` of them, fewer than `max_iters` rounds were made and fewer than
/// `max_solutions` words were found; a limit of 0 is no limit.
pub open spec fn keeps_going(st: (Set<Searcher>, Set<Seq<usize>>), k: nat, max_paths: usize, max_iters: usize, max_solutions: usize) -> bool {
    &&& st.0.len() != 0
    &&& (st.0.len() < max_paths || max_paths == 0)
    &&& (k < max_iters || max_iters == 0)
    &&& (st.1.len() < max_solutions || max_solutions == 0)
}

/// The lists as sequences.
pub open spec fn lists_view(v: Seq<Vec<usize>>) -> Seq<Seq<usize>> {
    v.map_values(|w: Vec<usize>| w@)
}

/// The walks as pairs of sequences.
pub open spec fn searchers_view(v: Seq<(Vec<usize>, Vec<usize>)>) -> Seq<Searcher> {
    v.map_values(|p: (Vec<usize>, Vec<usize>)| (p.0@, p.1@))
}

/// Whether two lists are equal.
fn same_list(a: &Vec<usize>, b: &Vec<usize>) -> (r: bool)
    ensures
        r == (a@ == b@),
{
    if a.len() != b.len() {
        return false;
    }
    let mut i: usize = 0;
    while i < a.len()
        invariant
            a@.len() == b@.len(),
            i <= a@.len(),
            forall|j: int| 0 <= j < i ==> a@[j] == b@[j],
        decreases a@.len() - i,
    {
        if a[i] != b[i] {
            return false;
        }
        i = i + 1;
    }
    assert(a@ =~= b@);
    true
}

/// Adds the word `w` to `v` unless it is there.
fn add_word(v: &mut Vec<Vec<usize>>, w: Vec<usize>)
    requires
        lists_view(old(v)@).no_duplicates(),
    ensures
        lists_view(final(v)@).no_duplicates(),
        lists_view(final(v)@).to_set() == lists_view(old(v)@).to_set().insert(w@),
{
    let ghost v0 = lists_view(v@);
    let mut i: usize = 0;
    while i < v.len()
        invariant
            v0 == lists_view(v@),
            v0.no_duplicates(),
            i <= v@.len(),
            forall|j: int| 0 <= j < i ==> v0[j] != w@,
        decreases v@.len() - i,
    {
        if same_list(&v[i], &w) {
            proof {
                assert(v0.contains(w@)) by {
                    assert(v0[i as int] == w@);
                }
                assert(v0.to_set().insert(w@) =~= v0.to_set());
            }
            return;
        }
        i = i + 1;
    }
    let ghost wv = w@;
    v.push(w);
    proof {
        assert(lists_view(v@) =~= v0.push(wv));
        assert(!v0.contains(wv));
        assert(v0.push(wv).to_set() =~= v0.to_set().insert(wv)) by {
            assert forall|x: Seq<usize>| v0.push(wv).to_set().contains(x) <==> v0.to_set().insert(wv).contains(x) by {
                crate::dfa_min::lemma_push_contains_any(v0, wv, x);
            }
        }
        assert forall|a: int, b: int| 0 <= a < v0.len() + 1 && 0 <= b < v0.len() + 1 && a != b implies v0.push(wv)[a]
            != v0.push(wv)[b] by {
            if a == v0.len() as int {
                assert(v0.push(wv)[b] == v0[b]);
            } else if b == v0.len() as int {
                assert(v0.push(wv)[a] == v0[a]);
            }
        }
    }
}

/// Adds the walk `p` to `v` unless it is there.
fn add_searcher(v: &mut Vec<(Vec<usize>, Vec<usize>)>, p: (Vec<usize>, Vec<usize>))
    requires
        searchers_view(old(v)@).no_duplicates(),
    ensures
        searchers_view(final(v)@).no_duplicates(),
        searchers_view(final(v)@).to_set() == searchers_view(old(v)@).to_set().insert((p.0@, p.1@)),
        final(v)@ == old(v)@ || final(v)@ == old(v)@.push(p),
{
    let ghost v0 = searchers_view(v@);
    let ghost pv = (p.0@, p.1@);
    let mut i: usize = 0;
    while i < v.len()
        invariant
            v0 == searchers_view(v@),
            v0.no_duplicates(),
            pv == (p.0@, p.1@),
            i <= v@.len(),
            forall|j: int| 0 <= j < i ==> v0[j] != pv,
        decreases v@.len() - i,
    {
        if same_list(&v[i].0, &p.0) && same_list(&v[i].1, &p.1) {
            proof {
                assert(v0.contains(pv)) by {
                    assert(v0[i as int] == pv);
                }
                assert(v0.to_set().insert(pv) =~= v0.to_set());
            }
            return;
        }
        i = i + 1;
    }
    let ghost vold = v@;
    v.push(p);
    proof {
        assert(searchers_view(v@) =~= v0.push(pv));
        assert(!v0.contains(pv));
        assert(v0.push(pv).to_set() =~= v0.to_set().insert(pv)) by {
            assert forall|x: Searcher| v0.push(pv).to_set().contains(x) <==> v0.to_set().insert(pv).contains(x) by {
                crate::dfa_min::lemma_push_contains_any(v0, pv, x);
            }
        }
        assert forall|a: int, b: int| 0 <= a < v0.len() + 1 && 0 <= b < v0.len() + 1 && a != b implies v0.push(pv)[a]
            != v0.push(pv)[b] by {
            if a == v0.len() as int {
                assert(v0.push(pv)[b] == v0[b]);
            } else if b == v0.len() as int {
                assert(v0.push(pv)[a] == v0[a]);
            }
        }
    }
}

/// How often `n` occurs in `s`.
fn count_exec(s: &Vec<usize>, n: usize) -> (r: usize)
    ensures
        r == count_of(s@, n),
{
    let mut r: usize = 0;
    let mut i: usize = 0;
    while i < s.len()
        invariant
            i <= s@.len(),
            r == count_of(s@.take(i as int), n),
            r <= i,
        decreases s@.len() - i,
    {
        assert(s@.take(i + 1).drop_last() =~= s@.take(i as int));
        if s[i] == n {
            r = r + 1;
        }
        i = i + 1;
    }
    assert(s@.take(s@.len() as int) =~= s@);
    r
}


/// `s` with every `x` dropped.
pub open spec fn remove_all(s: Seq<usize>, x: usize) -> Seq<usize>
    decreases s.len(),
{
    if s.len() == 0 {
        Seq::empty()
    } else {
        let p = remove_all(s.drop_last(), x);
        if s.last() == x {
            p
        } else {
            p.push(s.last())
        }
    }
}

/// Dropping every `x` takes away `count_of(s, x)` members and leaves the other
/// counts as they were.
proof fn lemma_remove_all(s: Seq<usize>, x: usize)
    ensures
        s.len() == remove_all(s, x).len() + count_of(s, x),
        forall|y: usize| #[trigger] remove_all(s, x).contains(y) ==> s.contains(y) && y != x,
        forall|n: usize| n != x ==> #[trigger] count_of(remove_all(s, x), n) == count_of(s, n),
    decreases s.len(),
{
    if s.len() > 0 {
        lemma_remove_all(s.drop_last(), x);
        let p = remove_all(s.drop_last(), x);
        assert forall|y: usize| #[trigger] remove_all(s, x).contains(y) implies s.contains(y) && y != x by {
            crate::dfa_min::lemma_push_contains_any(p, s.last(), y);
            crate::dfa_min::lemma_push_contains_any(s.drop_last(), s.last(), y);
            assert(s =~= s.drop_last().push(s.last()));
        }
        assert forall|n: usize| n != x implies #[trigger] count_of(remove_all(s, x), n) == count_of(s, n) by {
            if s.last() != x {
                assert(p.push(s.last()).drop_last() =~= p);
                assert(remove_all(s, x) == p.push(s.last()));
                assert(count_of(p.push(s.last()), n) == count_of(p, n) + if s.last() == n {
                    1nat
                } else {
                    0nat
                });
            } else {
                assert(remove_all(s, x) == p);
            }
            assert(count_of(s, n) == count_of(s.drop_last(), n) + if s.last() == n {
                1nat
            } else {
                0nat
            });
        }
        if s.last() != x {
            assert(p.push(s.last()).drop_last() =~= p);
        }
    }
}

/// A walk through the nodes `qs` that visits no node more than `c` times has
/// at most `c` times as many members as `qs`.
proof fn lemma_count_bound(ns: Seq<usize>, qs: Set<usize>, c: nat)
    requires
        qs.finite(),
        forall|i: int| 0 <= i < ns.len() ==> qs.contains(#[trigger] ns[i]),
        forall|n: usize| #[trigger] count_of(ns, n) <= c,
    ensures
        ns.len() <= c * qs.len(),
    decreases qs.len(),
{
    if qs.len() == 0 {
        if ns.len() > 0 {
            assert(qs.contains(ns[0]));
        }
    } else {
        let x = qs.choose();
        let rest = remove_all(ns, x);
        lemma_remove_all(ns, x);
        assert forall|i: int| 0 <= i < rest.len() implies qs.remove(x).contains(#[trigger] rest[i]) by {
            assert(rest.contains(rest[i]));
            let j = choose|j: int| 0 <= j < ns.len() && ns[j] == rest[i];
        }
        assert forall|n: usize| #[trigger] count_of(rest, n) <= c by {
            if n == x {
                lemma_count_absent(rest, x);
            }
        }
        lemma_count_bound(rest, qs.remove(x), c);
        assert(count_of(ns, x) <= c);
        assert(c * (qs.len() - 1) + c == c * qs.len()) by (nonlinear_arith);
    }
}

/// A value that does not occur is counted zero times.
proof fn lemma_count_absent(s: Seq<usize>, x: usize)
    requires
        !s.contains(x),
    ensures
        count_of(s, x) == 0,
    decreases s.len(),
{
    if s.len() > 0 {
        if s.drop_last().contains(x) {
            let j = choose|j: int| 0 <= j < s.drop_last().len() && s.drop_last()[j] == x;
            assert(s[j] == x);
        }
        assert(s.last() != x) by {
            assert(s[s.len() - 1] == s.last());
        }
        lemma_count_absent(s.drop_last(), x);
    }
}

/// Step `c` of walk `a` is among the first `j` steps of walk `i`, or among
/// those of the walks before it.
pub open spec fn stepped(fa: FA, sv: Seq<Searcher>, i: int, j: int, a: int, c: (usize, usize)) -> bool {
    ||| 0 <= a < i && a < sv.len() && caps_of(fa, sv[a]).contains(c)
    ||| a == i && 0 <= i < sv.len() && caps_of(fa, sv[a]).take(j).contains(c)
}

/// The walks of the next round made so far.
pub open spec fn next_upto(fa: FA, sv: Seq<Searcher>, max_loops: usize, i: int, j: int) -> Set<Searcher> {
    Set::new(
        |p: Searcher|
            exists|a: int, c: (usize, usize)|
                #[trigger] stepped(fa, sv, i, j, a, c) && goes_on(sv[a], c, max_loops) && p == continued(sv[a], c),
    )
}

/// The words found so far.
pub open spec fn found_upto(fa: FA, sv: Seq<Searcher>, found: Set<Seq<usize>>, max_loops: usize, i: int, j: int) -> Set<Seq<usize>> {
    found.union(
        Set::new(
            |o: Seq<usize>|
                exists|a: int, c: (usize, usize)|
                    #[trigger] stepped(fa, sv, i, j, a, c) && is_found(fa, sv[a], c, max_loops) && o == sv[a].1.push(c.0),
        ),
    )
}

/// One more step of walk `i`.
proof fn lemma_step_more(fa: FA, sv: Seq<Searcher>, found: Set<Seq<usize>>, ml: usize, i: int, j: int)
    requires
        0 <= i < sv.len(),
        0 <= j < caps_of(fa, sv[i]).len(),
    ensures
        ({
            let c = caps_of(fa, sv[i])[j];
            &&& next_upto(fa, sv, ml, i, j + 1) == (if goes_on(sv[i], c, ml) {
                next_upto(fa, sv, ml, i, j).insert(continued(sv[i], c))
            } else {
                next_upto(fa, sv, ml, i, j)
            })
            &&& found_upto(fa, sv, found, ml, i, j + 1) == (if is_found(fa, sv[i], c, ml) {
                found_upto(fa, sv, found, ml, i, j).insert(sv[i].1.push(c.0))
            } else {
                found_upto(fa, sv, found, ml, i, j)
            })
        }),
{
    let cs = caps_of(fa, sv[i]);
    let c = cs[j];
    assert(cs.take(j + 1) =~= cs.take(j).push(c));
    assert forall|a: int, d: (usize, usize)| #[trigger] stepped(fa, sv, i, j + 1, a, d) <==> stepped(fa, sv, i, j, a, d) || (a == i && d == c) by {
        crate::dfa_min::lemma_push_contains_any(cs.take(j), c, d);
    }
    assert(stepped(fa, sv, i, j + 1, i, c));
    let lhs = next_upto(fa, sv, ml, i, j + 1);
    let rhs = if goes_on(sv[i], c, ml) {
        next_upto(fa, sv, ml, i, j).insert(continued(sv[i], c))
    } else {
        next_upto(fa, sv, ml, i, j)
    };
    assert forall|p: Searcher| lhs.contains(p) <==> rhs.contains(p) by {
        if lhs.contains(p) {
            let (a, d) = choose|a: int, d: (usize, usize)| #[trigger] stepped(fa, sv, i, j + 1, a, d) && goes_on(sv[a], d, ml) && p == continued(sv[a], d);
            if !(a == i && d == c) {
                assert(stepped(fa, sv, i, j, a, d));
            }
        }
        if next_upto(fa, sv, ml, i, j).contains(p) {
            let (a, d) = choose|a: int, d: (usize, usize)| #[trigger] stepped(fa, sv, i, j, a, d) && goes_on(sv[a], d, ml) && p == continued(sv[a], d);
            assert(stepped(fa, sv, i, j + 1, a, d));
        }
    }
    assert(lhs =~= rhs);
    let lf = found_upto(fa, sv, found, ml, i, j + 1);
    let rf = if is_found(fa, sv[i], c, ml) {
        found_upto(fa, sv, found, ml, i, j).insert(sv[i].1.push(c.0))
    } else {
        found_upto(fa, sv, found, ml, i, j)
    };
    assert forall|o: Seq<usize>| lf.contains(o) <==> rf.contains(o) by {
        if lf.contains(o) && !found.contains(o) {
            let (a, d) = choose|a: int, d: (usize, usize)| #[trigger] stepped(fa, sv, i, j + 1, a, d) && is_found(fa, sv[a], d, ml) && o == sv[a].1.push(d.0);
            if !(a == i && d == c) {
                assert(stepped(fa, sv, i, j, a, d));
            }
        }
        if found_upto(fa, sv, found, ml, i, j).contains(o) && !found.contains(o) {
            let (a, d) = choose|a: int, d: (usize, usize)| #[trigger] stepped(fa, sv, i, j, a, d) && is_found(fa, sv[a], d, ml) && o == sv[a].1.push(d.0);
            assert(stepped(fa, sv, i, j + 1, a, d));
        }
    }
    assert(lf =~= rf);
}

/// Two points of a round that have stepped the same steps have made the same
/// walks and found the same words.
proof fn lemma_same_steps(fa: FA, sv: Seq<Searcher>, found: Set<Seq<usize>>, ml: usize, i1: int, j1: int, i2: int, j2: int)
    requires
        forall|a: int, d: (usize, usize)| #[trigger] stepped(fa, sv, i1, j1, a, d) <==> stepped(fa, sv, i2, j2, a, d),
    ensures
        next_upto(fa, sv, ml, i1, j1) == next_upto(fa, sv, ml, i2, j2),
        found_upto(fa, sv, found, ml, i1, j1) == found_upto(fa, sv, found, ml, i2, j2),
{
    assert forall|p: Searcher| next_upto(fa, sv, ml, i1, j1).contains(p) <==> next_upto(fa, sv, ml, i2, j2).contains(p) by {
        if next_upto(fa, sv, ml, i1, j1).contains(p) {
            let (a, d) = choose|a: int, d: (usize, usize)| #[trigger] stepped(fa, sv, i1, j1, a, d) && goes_on(sv[a], d, ml) && p == continued(sv[a], d);
            assert(stepped(fa, sv, i2, j2, a, d));
        }
        if next_upto(fa, sv, ml, i2, j2).contains(p) {
            let (a, d) = choose|a: int, d: (usize, usize)| #[trigger] stepped(fa, sv, i2, j2, a, d) && goes_on(sv[a], d, ml) && p == continued(sv[a], d);
            assert(stepped(fa, sv, i1, j1, a, d));
        }
    }
    assert(next_upto(fa, sv, ml, i1, j1) =~= next_upto(fa, sv, ml, i2, j2));
    assert forall|o: Seq<usize>| found_upto(fa, sv, found, ml, i1, j1).contains(o) <==> found_upto(fa, sv, found, ml, i2, j2).contains(o) by {
        if found_upto(fa, sv, found, ml, i1, j1).contains(o) && !found.contains(o) {
            let (a, d) = choose|a: int, d: (usize, usize)| #[trigger] stepped(fa, sv, i1, j1, a, d) && is_found(fa, sv[a], d, ml) && o == sv[a].1.push(d.0);
            assert(stepped(fa, sv, i2, j2, a, d));
        }
        if found_upto(fa, sv, found, ml, i2, j2).contains(o) && !found.contains(o) {
            let (a, d) = choose|a: int, d: (usize, usize)| #[trigger] stepped(fa, sv, i2, j2, a, d) && is_found(fa, sv[a], d, ml) && o == sv[a].1.push(d.0);
            assert(stepped(fa, sv, i1, j1, a, d));
        }
    }
    assert(found_upto(fa, sv, found, ml, i1, j1) =~= found_upto(fa, sv, found, ml, i2, j2));
}

/// The last step of walk `i` done, the next walk starts.
proof fn lemma_walk_done(fa: FA, sv: Seq<Searcher>, found: Set<Seq<usize>>, ml: usize, i: int)
    requires
        0 <= i < sv.len(),
    ensures
        next_upto(fa, sv, ml, i, caps_of(fa, sv[i]).len() as int) == next_upto(fa, sv, ml, i + 1, 0),
        found_upto(fa, sv, found, ml, i, caps_of(fa, sv[i]).len() as int) == found_upto(fa, sv, found, ml, i + 1, 0),
{
    let cs = caps_of(fa, sv[i]);
    assert(cs.take(cs.len() as int) =~= cs);
    assert forall|a: int, d: (usize, usize)| #[trigger] stepped(fa, sv, i, cs.len() as int, a, d) <==> stepped(fa, sv, i + 1, 0, a, d) by {
        if a == i + 1 && 0 <= i + 1 < sv.len() {
            assert(caps_of(fa, sv[a]).take(0) =~= Seq::<(usize, usize)>::empty());
        }
    }
    lemma_same_steps(fa, sv, found, ml, i, cs.len() as int, i + 1, 0);
}

/// Nothing is stepped before the first walk.
proof fn lemma_round_start(fa: FA, sv: Seq<Searcher>, found: Set<Seq<usize>>, ml: usize)
    ensures
        next_upto(fa, sv, ml, 0, 0) == Set::<Searcher>::empty(),
        found_upto(fa, sv, found, ml, 0, 0) == found,
{
    assert forall|a: int, d: (usize, usize)| !#[trigger] stepped(fa, sv, 0, 0, a, d) by {
        if a == 0 && 0 < sv.len() {
            assert(caps_of(fa, sv[a]).take(0) =~= Seq::<(usize, usize)>::empty());
        }
    }
    assert(next_upto(fa, sv, ml, 0, 0) =~= Set::<Searcher>::empty());
    assert(found_upto(fa, sv, found, ml, 0, 0) =~= found);
}

/// All walks stepped: the next round.
proof fn lemma_round_done(fa: FA, sv: Seq<Searcher>, found: Set<Seq<usize>>, ml: usize)
    ensures
        next_upto(fa, sv, ml, sv.len() as int, 0) == next_searchers(fa, sv.to_set(), ml),
        found_upto(fa, sv, found, ml, sv.len() as int, 0) == next_found(fa, sv.to_set(), found, ml),
{
    let n = sv.len() as int;
    assert forall|p: Searcher| next_upto(fa, sv, ml, n, 0).contains(p) <==> next_searchers(fa, sv.to_set(), ml).contains(p) by {
        if next_upto(fa, sv, ml, n, 0).contains(p) {
            let (a, d) = choose|a: int, d: (usize, usize)| #[trigger] stepped(fa, sv, n, 0, a, d) && goes_on(sv[a], d, ml) && p == continued(sv[a], d);
            assert(sv.to_set().contains(sv[a]));
        }
        if next_searchers(fa, sv.to_set(), ml).contains(p) {
            let (s, d) = choose|s: Searcher, d: (usize, usize)| #[trigger] sv.to_set().contains(s) && #[trigger] caps_of(fa, s).contains(d) && goes_on(s, d, ml) && p == continued(s, d);
            let a = choose|a: int| 0 <= a < sv.len() && sv[a] == s;
            assert(stepped(fa, sv, n, 0, a, d));
        }
    }
    assert(next_upto(fa, sv, ml, n, 0) =~= next_searchers(fa, sv.to_set(), ml));
    assert forall|o: Seq<usize>| found_upto(fa, sv, found, ml, n, 0).contains(o) <==> next_found(fa, sv.to_set(), found, ml).contains(o) by {
        if found_upto(fa, sv, found, ml, n, 0).contains(o) && !found.contains(o) {
            let (a, d) = choose|a: int, d: (usize, usize)| #[trigger] stepped(fa, sv, n, 0, a, d) && is_found(fa, sv[a], d, ml) && o == sv[a].1.push(d.0);
            assert(sv.to_set().contains(sv[a]));
        }
        if next_found(fa, sv.to_set(), found, ml).contains(o) && !found.contains(o) {
            let (s, d) = choose|s: Searcher, d: (usize, usize)| #[trigger] sv.to_set().contains(s) && #[trigger] caps_of(fa, s).contains(d) && is_found(fa, s, d, ml) && o == s.1.push(d.0);
            let a = choose|a: int| 0 <= a < sv.len() && sv[a] == s;
            assert(stepped(fa, sv, n, 0, a, d));
        }
    }
    assert(found_upto(fa, sv, found, ml, n, 0) =~= next_found(fa, sv.to_set(), found, ml));
}


/// Every walk of `sv` has `len` nodes, all nodes of the automaton, none
/// visited more than `max_loops + 1` times.
pub open spec fn walks_ok(fa: FA, sv: Seq<Searcher>, len: nat, max_loops: usize) -> bool {
    forall|a: int|
        0 <= a < sv.len() ==> (#[trigger] sv[a]).0.len() == len && (forall|m: int|
            0 <= m < sv[a].0.len() ==> fa.q@.contains(#[trigger] sv[a].0[m])) && (forall|n: usize|
            #[trigger] count_of(sv[a].0, n) <= max_loops + 1)
}

/// A walk continued by a step out of its last node that it goes on by is
/// again a walk of the automaton, one node longer.
proof fn lemma_continued_ok(fa: FA, s: Searcher, c: (usize, usize), len: nat, max_loops: usize)
    requires
        fa.wf(),
        s.0.len() == len,
        len > 0,
        forall|m: int| 0 <= m < s.0.len() ==> fa.q@.contains(#[trigger] s.0[m]),
        forall|n: usize| #[trigger] count_of(s.0, n) <= max_loops + 1,
        caps_of(fa, s).contains(c),
        goes_on(s, c, max_loops),
    ensures
        continued(s, c).0.len() == len + 1,
        forall|m: int| 0 <= m < continued(s, c).0.len() ==> fa.q@.contains(#[trigger] continued(s, c).0[m]),
        forall|n: usize| #[trigger] count_of(continued(s, c).0, n) <= max_loops + 1,
{
    let caps = caps_of(fa, s);
    let k = choose|k: int| 0 <= k < caps.len() && caps[k] == c;
    crate::fa::lemma_captures_edge(fa.t@, s.0.last(), fa.sigma as nat, k);
    let e = choose|e: int| 0 <= e < fa.t@.len() && #[trigger] fa.t@[e] == (s.0.last(), caps[k].0, caps[k].1);
    assert(fa.q@.contains(fa.t@[e].2));
    let ns = s.0.push(c.1);
    assert(ns.drop_last() =~= s.0);
    assert forall|m: int| 0 <= m < ns.len() implies fa.q@.contains(#[trigger] ns[m]) by {
        if m < s.0.len() {
            assert(ns[m] == s.0[m]);
        }
    }
    assert forall|n: usize| #[trigger] count_of(ns, n) <= max_loops + 1 by {
        assert(count_of(ns, n) == count_of(s.0, n) + if c.1 == n {
            1nat
        } else {
            0nat
        });
    }
}

impl FA {
    /// The words read along walks from the start, found breadth first: a
    /// word is found when its walk reaches a halting node, or when its walk
    /// would visit a node more than `max_loops` times, where that walk stops.
    /// The search stops when no walk is left, or when there are `max_paths`
    /// walks, after `max_iters` rounds, or with `max_solutions` words found;
    /// a limit of 0 is no limit. Each word comes once.
    pub fn all_words(&self, max_paths: usize, max_iters: usize, max_solutions: usize, max_loops: usize) -> (r: Vec<Vec<usize>>)
        requires
            self.wf(),
        ensures
            lists_view(r@).no_duplicates(),
            exists|k: nat|
                #![trigger word_states(*self, max_loops, k)]
                (forall|j: nat| j < k ==> keeps_going(#[trigger] word_states(*self, max_loops, j), j, max_paths, max_iters, max_solutions))
                    && !keeps_going(word_states(*self, max_loops, k), k, max_paths, max_iters, max_solutions)
                    && lists_view(r@).to_set() == word_states(*self, max_loops, k).1,
    {
        broadcast use vstd::seq_lib::seq_to_set_is_finite;

        let ghost fa = *self;
        let ghost qs = self.q@.to_set();
        let ghost bound: int = (max_loops + 1) * qs.len();
        let mut start_nodes: Vec<usize> = Vec::new();
        start_nodes.push(self.q0);
        let mut searchers: Vec<(Vec<usize>, Vec<usize>)> = Vec::new();
        searchers.push((start_nodes, Vec::new()));
        let mut found: Vec<Vec<usize>> = Vec::new();
        let mut iter: usize = 0;
        proof {
            let sv = searchers_view(searchers@);
            assert(sv =~= seq![(seq![self.q0], Seq::<usize>::empty())]);
            assert(sv.to_set() =~= word_states(fa, max_loops, 0).0) by {
                assert forall|x: Searcher| sv.to_set().contains(x) <==> word_states(fa, max_loops, 0).0.contains(x) by {
                    if x == sv[0] {
                        assert(sv.to_set().contains(sv[0]));
                    }
                }
            }
            assert(lists_view(found@).to_set() =~= word_states(fa, max_loops, 0).1);
            let s0 = sv[0];
            assert(s0.0 =~= seq![self.q0]);
            assert(self.q@.contains(self.q0));
            assert forall|n: usize| #[trigger] count_of(s0.0, n) <= max_loops + 1 by {
                assert(s0.0.drop_last() =~= Seq::<usize>::empty());
                assert(count_of(s0.0, n) == count_of(s0.0.drop_last(), n) + if s0.0.last() == n {
                    1nat
                } else {
                    0nat
                });
            }
            assert(walks_ok(fa, sv, 1, max_loops));
        }
        while searchers.len() != 0 && (searchers.len() < max_paths || max_paths == 0) && (iter < max_iters || max_iters == 0) && (
        found.len() < max_solutions || max_solutions == 0)
            invariant
                self.wf(),
                fa == *self,
                qs == self.q@.to_set(),
                bound == (max_loops + 1) * qs.len(),
                searchers_view(searchers@).no_duplicates(),
                searchers_view(searchers@).to_set() == word_states(fa, max_loops, iter as nat).0,
                lists_view(found@).no_duplicates(),
                lists_view(found@).to_set() == word_states(fa, max_loops, iter as nat).1,
                forall|j: nat| j < iter ==> keeps_going(#[trigger] word_states(fa, max_loops, j), j, max_paths, max_iters, max_solutions),
                walks_ok(fa, searchers_view(searchers@), (iter + 1) as nat, max_loops),
                iter <= bound + 1,
            decreases bound + 1 - iter,
        {
            let ghost sv = searchers_view(searchers@);
            let ghost f0 = lists_view(found@).to_set();
            proof {
                sv.unique_seq_to_set();
                lists_view(found@).unique_seq_to_set();
                assert(keeps_going(word_states(fa, max_loops, iter as nat), iter as nat, max_paths, max_iters, max_solutions));
                // the walks are bounded in length
                let s0 = sv[0];
                assert forall|m: int| 0 <= m < s0.0.len() implies qs.contains(#[trigger] s0.0[m]) by {
                    assert(self.q@.contains(s0.0[m]));
                }
                lemma_count_bound(s0.0, qs, (max_loops + 1) as nat);
            }
            let first_len = searchers[0].0.len();
            assert(first_len == iter + 1);
            let mut new_s: Vec<(Vec<usize>, Vec<usize>)> = Vec::new();
            proof {
                lemma_round_start(fa, sv, f0, max_loops);
                assert(searchers_view(new_s@) =~= Seq::<Searcher>::empty());
                assert(searchers_view(new_s@).to_set() =~= Set::<Searcher>::empty());
            }
            let mut i: usize = 0;
            while i < searchers.len()
                invariant
                    self.wf(),
                    fa == *self,
                    sv == searchers_view(searchers@),
                    walks_ok(fa, sv, (iter + 1) as nat, max_loops),
                    iter + 1 <= usize::MAX,
                    i <= sv.len(),
                    searchers_view(new_s@).no_duplicates(),
                    searchers_view(new_s@).to_set() == next_upto(fa, sv, max_loops, i as int, 0),
                    lists_view(found@).no_duplicates(),
                    lists_view(found@).to_set() == found_upto(fa, sv, f0, max_loops, i as int, 0),
                    walks_ok(fa, searchers_view(new_s@), (iter + 2) as nat, max_loops),
                decreases sv.len() - i,
            {
                let ns = &searchers[i].0;
                let xs = &searchers[i].1;
                assert(sv[i as int] == (ns@, xs@));
                assert(ns@.len() == iter + 1);
                let n1 = ns[ns.len() - 1];
                assert(self.q@.contains(sv[i as int].0[ns@.len() - 1]));
                let caps = self.edges_of_node_capturing(n1);
                assert(caps@ == caps_of(fa, sv[i as int]));
                let mut j: usize = 0;
                while j < caps.len()
                    invariant
                        self.wf(),
                        fa == *self,
                        sv == searchers_view(searchers@),
                        walks_ok(fa, sv, (iter + 1) as nat, max_loops),
                        iter + 1 <= usize::MAX,
                        i < sv.len(),
                        sv[i as int] == (ns@, xs@),
                        caps@ == caps_of(fa, sv[i as int]),
                        j <= caps@.len(),
                        searchers_view(new_s@).no_duplicates(),
                        searchers_view(new_s@).to_set() == next_upto(fa, sv, max_loops, i as int, j as int),
                        lists_view(found@).no_duplicates(),
                        lists_view(found@).to_set() == found_upto(fa, sv, f0, max_loops, i as int, j as int),
                        walks_ok(fa, searchers_view(new_s@), (iter + 2) as nat, max_loops),
                    decreases caps@.len() - j,
                {
                    let (x, n2) = caps[j];
                    let ghost c = caps@[j as int];
                    proof {
                        lemma_step_more(fa, sv, f0, max_loops, i as int, j as int);
                    }
                    let mut o = xs.clone();
                    assert(o@ =~= xs@);
                    o.push(x);
                    let cnt = count_exec(ns, n2);
                    if cnt > max_loops {
                        add_word(&mut found, o);
                    } else {
                        if crate::fa::contains(&self.f, n2) {
                            let o2 = o.clone();
                            assert(o2@ =~= o@);
                            add_word(&mut found, o2);
                        }
                        let mut new_ns = ns.clone();
                        assert(new_ns@ =~= ns@);
                        new_ns.push(n2);
                        let ghost before = new_s@;
                        let p = (new_ns, o);
                        assert((p.0@, p.1@) == continued(sv[i as int], c));
                        add_searcher(&mut new_s, p);
                        proof {
                            assert(caps_of(fa, sv[i as int]).contains(c)) by {
                                assert(caps@[j as int] == c);
                            }
                            lemma_continued_ok(fa, sv[i as int], c, (iter + 1) as nat, max_loops);
                            let nv = searchers_view(new_s@);
                            assert forall|a: int| 0 <= a < nv.len() implies (#[trigger] nv[a]).0.len() == iter + 2 && (forall|m: int|
                                0 <= m < nv[a].0.len() ==> fa.q@.contains(#[trigger] nv[a].0[m])) && (forall|n: usize|
                                #[trigger] count_of(nv[a].0, n) <= max_loops + 1) by {
                                if a < before.len() {
                                    assert(new_s@[a] == before[a]);
                                    assert(nv[a] == searchers_view(before)[a]);
                                } else {
                                    assert(new_s@ == before.push(p));
                                    assert(new_s@[a] == p);
                                    assert(nv[a] == continued(sv[i as int], c));
                                }
                            }
                        }
                    }
                    j = j + 1;
                }
                proof {
                    lemma_walk_done(fa, sv, f0, max_loops, i as int);
                }
                i = i + 1;
            }
            proof {
                lemma_round_done(fa, sv, f0, max_loops);
                assert(word_states(fa, max_loops, (iter + 1) as nat) == (next_searchers(fa, sv.to_set(), max_loops), next_found(fa, sv.to_set(), f0, max_loops)));
            }
            searchers = new_s;
            iter = iter + 1;
        }
        proof {
            searchers_view(searchers@).unique_seq_to_set();
            lists_view(found@).unique_seq_to_set();
            assert(!keeps_going(word_states(fa, max_loops, iter as nat), iter as nat, max_paths, max_iters, max_solutions));
        }
        found
    }
}

} // verus!
