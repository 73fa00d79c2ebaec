//! Sorting edge lists and node lists into ascending order.
use vstd::prelude::*;
use crate::fa::Edge;

verus! {

broadcast use {vstd::seq_lib::to_multiset_insert, vstd::seq_lib::to_multiset_build};

/// `a` comes before or with `b`: compared by the start, then the letter, then the end.
pub open spec fn edge_le(a: Edge, b: Edge) -> bool {
    a.0 < b.0 || (a.0 == b.0 && (a.1 < b.1 || (a.1 == b.1 && a.2 <= b.2)))
}

/// The edges of `s` are in ascending order.
pub open spec fn edges_sorted(s: Seq<Edge>) -> bool {
    forall|i: int, j: int| 0 <= i < j < s.len() ==> edge_le(#[trigger] s[i], #[trigger] s[j])
}

/// The numbers of `s` are in ascending order.
pub open spec fn nums_sorted(s: Seq<usize>) -> bool {
    forall|i: int, j: int| 0 <= i < j < s.len() ==> #[trigger] s[i] <= #[trigger] s[j]
}

fn edge_le_exec(a: Edge, b: Edge) -> (r: bool)
    ensures
        r == edge_le(a, b),
{
    a.0 < b.0 || (a.0 == b.0 && (a.1 < b.1 || (a.1 == b.1 && a.2 <= b.2)))
}

/// The edges of `v` in ascending order.
pub fn sort_edges(v: Vec<Edge>) -> (r: Vec<Edge>)
    ensures
        edges_sorted(r@),
        r@.to_multiset() == v@.to_multiset(),
{
    let mut out: Vec<Edge> = Vec::new();
    let mut k: usize = 0;
    assert(v@.take(0) =~= out@);
    while k < v.len()
        invariant
            k <= v.len(),
            edges_sorted(out@),
            out@.to_multiset() == v@.take(k as int).to_multiset(),
        decreases v.len() - k,
    {
        let e = v[k];
        let mut p: usize = 0;
        while p < out.len() && edge_le_exec(out[p], e)
            invariant
                p <= out.len(),
                forall|i: int| 0 <= i < p ==> edge_le(#[trigger] out@[i], e),
            decreases out.len() - p,
        {
            p = p + 1;
        }
        let ghost before = out@;
        out.insert(p, e);
        proof {
            assert(v@.take(k + 1) =~= v@.take(k as int).push(e));
            assert forall|i: int, j: int| 0 <= i < j < out@.len() implies edge_le(
                #[trigger] out@[i],
                #[trigger] out@[j],
            ) by {
                if j < p {
                    assert(out@[i] == before[i] && out@[j] == before[j]);
                } else if j == p {
                    assert(out@[i] == before[i]);
                } else if i < p {
                    assert(out@[i] == before[i] && out@[j] == before[j - 1]);
                    assert(edge_le(before[i], e));
                    assert(!edge_le(before[p as int], e));
                    assert(edge_le(before[p as int], before[j - 1]) || p == j - 1);
                } else if i == p {
                    assert(out@[j] == before[j - 1]);
                    assert(!edge_le(before[p as int], e));
                    assert(edge_le(before[p as int], before[j - 1]) || p == j - 1);
                } else {
                    assert(out@[i] == before[i - 1] && out@[j] == before[j - 1]);
                }
            }
        }
        k = k + 1;
    }
    assert(v@.take(v.len() as int) =~= v@);
    out
}

/// The numbers of `v` in ascending order.
pub fn sort_nums(v: Vec<usize>) -> (r: Vec<usize>)
    ensures
        nums_sorted(r@),
        r@.to_multiset() == v@.to_multiset(),
{
    let mut out: Vec<usize> = Vec::new();
    let mut k: usize = 0;
    assert(v@.take(0) =~= out@);
    while k < v.len()
        invariant
            k <= v.len(),
            nums_sorted(out@),
            out@.to_multiset() == v@.take(k as int).to_multiset(),
        decreases v.len() - k,
    {
        let e = v[k];
        let mut p: usize = 0;
        while p < out.len() && out[p] <= e
            invariant
                p <= out.len(),
                forall|i: int| 0 <= i < p ==> #[trigger] out@[i] <= e,
            decreases out.len() - p,
        {
            p = p + 1;
        }
        let ghost before = out@;
        out.insert(p, e);
        proof {
            assert(v@.take(k + 1) =~= v@.take(k as int).push(e));
            assert forall|i: int, j: int| 0 <= i < j < out@.len() implies #[trigger] out@[i] <= #[trigger] out@[j] by {
                if j < p {
                    assert(out@[i] == before[i] && out@[j] == before[j]);
                } else if j == p {
                    assert(out@[i] == before[i]);
                } else if i < p {
                    assert(out@[i] == before[i] && out@[j] == before[j - 1]);
                    assert(before[p as int] <= before[j - 1] || p == j - 1);
                } else if i == p {
                    assert(out@[j] == before[j - 1]);
                    assert(before[p as int] <= before[j - 1] || p == j - 1);
                } else {
                    assert(out@[i] == before[i - 1] && out@[j] == before[j - 1]);
                }
            }
        }
        k = k + 1;
    }
    assert(v@.take(v.len() as int) =~= v@);
    out
}


/// The numbers are strictly ascending: sorted, each once.
pub open spec fn strictly_sorted(s: Seq<usize>) -> bool {
    forall|i: int, j: int| 0 <= i < j < s.len() ==> #[trigger] s[i] < #[trigger] s[j]
}

/// The numbers of `v`, each once, in ascending order.
pub fn sort_dedup(v: Vec<usize>) -> (r: Vec<usize>)
    ensures
        strictly_sorted(r@),
        forall|x: usize| #[trigger] r@.contains(x) <==> v@.contains(x),
{
    let ghost v0 = v@;
    let s = sort_nums(v);
    let mut out: Vec<usize> = Vec::new();
    let mut i: usize = 0;
    while i < s.len()
        invariant
            i <= s.len(),
            nums_sorted(s@),
            strictly_sorted(out@),
            i > 0 ==> out@.len() > 0 && out@.last() == s@[i - 1],
            i == 0 ==> out@.len() == 0,
            forall|x: usize| #[trigger] out@.contains(x) <==> s@.take(i as int).contains(x),
        decreases s.len() - i,
    {
        let e = s[i];
        let ghost before = out@;
        proof {
            assert(s@.take(i + 1) =~= s@.take(i as int).push(e));
            assert forall|x: usize| #[trigger] s@.take(i + 1).contains(x) <==> s@.take(i as int).contains(x) || x == e by {
                crate::fa::lemma_push_contains(s@.take(i as int), e, x);
            }
        }
        if out.len() == 0 || out[out.len() - 1] != e {
            out.push(e);
            proof {
                assert forall|x: usize| #[trigger] out@.contains(x) <==> before.contains(x) || x == e by {
                    crate::fa::lemma_push_contains(before, e, x);
                }
                if i > 0 {
                    assert(s@[i - 1] <= s@[i as int]);
                }
                assert forall|a: int, b: int| 0 <= a < b < out@.len() implies #[trigger] out@[a] < #[trigger] out@[b] by {
                    if b == out@.len() - 1 && a < b {
                        assert(out@[a] <= before.last());
                        if a < before.len() - 1 {
                            assert(before[a] < before[before.len() - 1]);
                        }
                    }
                }
            }
        } else {
            proof {
                assert(before.contains(e)) by {
                    assert(before[before.len() - 1] == e);
                }
            }
        }
        i = i + 1;
    }
    proof {
        assert(s@.take(s@.len() as int) =~= s@);
        broadcast use vstd::seq_lib::to_multiset_contains;
        assert forall|x: usize| #[trigger] out@.contains(x) <==> v0.contains(x) by {
            assert(s@.to_multiset().count(x) == v0.to_multiset().count(x));
        }
    }
    out
}


/// In a strictly ascending list each number is at least its position.
pub proof fn lemma_strictly_sorted_ge(s: Seq<usize>, i: int)
    requires
        strictly_sorted(s),
        0 <= i < s.len(),
    ensures
        s[i] >= i,
    decreases i,
{
    if i > 0 {
        lemma_strictly_sorted_ge(s, i - 1);
        assert(s[i - 1] < s[i]);
    }
}

/// A strictly ascending list of numbers below `n` has at most `n` members.
pub proof fn lemma_strictly_sorted_len(s: Seq<usize>, n: usize)
    requires
        strictly_sorted(s),
        forall|i: int| 0 <= i < s.len() ==> #[trigger] s[i] < n,
    ensures
        s.len() <= n,
{
    if s.len() > 0 {
        lemma_strictly_sorted_ge(s, s.len() - 1);
    }
}

/// Two strictly ascending lists of the same length, the members of the first
/// among those of the second, have the same members.
pub proof fn lemma_strictly_sorted_same(s1: Seq<usize>, s2: Seq<usize>)
    requires
        strictly_sorted(s1),
        strictly_sorted(s2),
        s1.len() == s2.len(),
        forall|x: usize| #[trigger] s1.contains(x) ==> s2.contains(x),
    ensures
        forall|x: usize| #[trigger] s2.contains(x) ==> s1.contains(x),
{
    broadcast use vstd::seq_lib::seq_to_set_is_finite;

    lemma_strictly_sorted_no_dup(s1);
    lemma_strictly_sorted_no_dup(s2);
    s1.unique_seq_to_set();
    s2.unique_seq_to_set();
    assert forall|x: usize| #[trigger] s2.contains(x) implies s1.contains(x) by {
        if !s1.contains(x) {
            assert(s1.to_set().subset_of(s2.to_set().remove(x)));
            vstd::set_lib::lemma_len_subset(s1.to_set(), s2.to_set().remove(x));
            assert(s2.to_set().contains(x));
        }
    }
}


/// A strictly ascending list whose members are among those of another strictly
/// ascending list is no longer than it.
pub proof fn lemma_strictly_sorted_subset_len(s1: Seq<usize>, s2: Seq<usize>)
    requires
        strictly_sorted(s1),
        strictly_sorted(s2),
        forall|x: usize| #[trigger] s1.contains(x) ==> s2.contains(x),
    ensures
        s1.len() <= s2.len(),
{
    broadcast use vstd::seq_lib::seq_to_set_is_finite;

    lemma_strictly_sorted_no_dup(s1);
    lemma_strictly_sorted_no_dup(s2);
    s1.unique_seq_to_set();
    s2.unique_seq_to_set();
    assert(s1.to_set().subset_of(s2.to_set()));
    vstd::set_lib::lemma_len_subset(s1.to_set(), s2.to_set());
}

/// A strictly ascending list holds no number twice.
pub proof fn lemma_strictly_sorted_no_dup(s: Seq<usize>)
    requires
        strictly_sorted(s),
    ensures
        s.no_duplicates(),
{
    assert forall|i: int, j: int| 0 <= i < s.len() && 0 <= j < s.len() && i != j implies s[i] != s[j] by {
        if i < j {
            assert(s[i] < s[j]);
        } else {
            assert(s[j] < s[i]);
        }
    }
}

} // verus!
