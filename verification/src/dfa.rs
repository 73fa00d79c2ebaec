//! The subset construction: a deterministic automaton whose nodes are the sets
//! of nodes of an automaton that a word can lead to.
use vstd::prelude::*;
use crate::fa::{FA, Edge, targets, positions, contains, lemma_edge_in_targets, lemma_targets_edge, lemma_push_contains};
use crate::bitset::{BitSet, same_set, lemma_distinct_sets_bound};
use crate::bits::limbs_cap;
use crate::minimization::{reachable, is_walk, has_edge};

verus! {

/// `m` follows some member of `b` reading `x`.
pub open spec fn post_has(t: Seq<Edge>, b: BitSet, x: usize, m: usize) -> bool {
    exists|n: usize| #[trigger] b.has(n as int) && targets(t, n, x).contains(m)
}

/// `b` has some member.
pub open spec fn has_member(b: BitSet) -> bool {
    exists|k: usize| #[trigger] b.has(k as int)
}

/// Some edge of `t` leads into `j` from an earlier position.
pub open spec fn entered(t: Seq<Edge>, j: int) -> bool {
    exists|e: int| 0 <= e < t.len() && (#[trigger] t[e]).2 == j && t[e].0 < j
}

/// The sets of `labels` and the edges of `t` are consistent parts of the subset
/// automaton of `fa`: the first set is the start alone; the sets are different,
/// nonempty and made of nodes; each edge leads from a set to the set of the
/// followers of its members reading its letter; and each set but the first is
/// first reached by an edge from an earlier one.
#[verifier::opaque]
pub open spec fn labels_ok(fa: FA, labels: Seq<BitSet>, t: Seq<Edge>) -> bool {
    &&& labels.len() > 0
    &&& forall|i: int| 0 <= i < labels.len() ==> (#[trigger] labels[i]).wf() && labels[i].capacity() == fa.q@.len()
    &&& forall|k: int| #[trigger] labels[0].has(k) <==> k == fa.q0
    &&& forall|i: int, j: int| 0 <= i < j < labels.len() ==> !same_set(#[trigger] labels[i], #[trigger] labels[j])
    &&& forall|i: int| 0 <= i < labels.len() ==> #[trigger] has_member(labels[i])
    &&& forall|i: int, k: int| 0 <= i < labels.len() && #[trigger] labels[i].has(k) ==> 0 <= k && fa.q@.contains(k as usize)
    &&& forall|e: int|
        0 <= e < t.len() ==> (#[trigger] t[e]).0 < labels.len() && t[e].1 < fa.sigma && t[e].2 < labels.len()
            && forall|m: usize| #[trigger] labels[t[e].2 as int].has(m as int) <==> post_has(fa.t@, labels[t[e].0 as int], t[e].1, m)
    &&& forall|j: int| 0 < j < labels.len() ==> #[trigger] entered(t, j)
}

/// The sets of `labels` and the edges of `t` make up the subset automaton of
/// `fa`: its parts are consistent (`labels_ok`), and every set has an edge for
/// every letter whose followers from it are not none.
pub open spec fn subset_automaton(fa: FA, labels: Seq<BitSet>, t: Seq<Edge>) -> bool {
    &&& labels_ok(fa, labels, t)
    &&& forall|i: int, x: usize, m: usize|
        0 <= i < labels.len() && x < fa.sigma && #[trigger] post_has(fa.t@, labels[i], x, m) ==> exists|e: int|
            0 <= e < t.len() && (#[trigger] t[e]).0 == i && t[e].1 == x
}

/// Every letter below `xs` whose followers from set `i` are not none has an edge from `i`.
pub open spec fn done_for(fa: FA, labels: Seq<BitSet>, t: Seq<Edge>, i: int, xs: nat) -> bool {
    forall|x: usize, m: usize|
        x < xs && #[trigger] post_has(fa.t@, labels[i], x, m) ==> exists|e: int|
            0 <= e < t.len() && (#[trigger] t[e]).0 == i && t[e].1 == x
}

/// The subset automaton under construction: as `subset_automaton`, except that
/// the sets still to be visited, and set `cur` for the letters from `xs` on,
/// may lack their edges.
pub open spec fn subset_partial(fa: FA, labels: Seq<BitSet>, t: Seq<Edge>, pending: Seq<usize>, cur: int, xs: nat) -> bool {
    &&& labels_ok(fa, labels, t)
    &&& forall|i: usize|
        i < labels.len() && !pending.contains(i) && i != cur ==> #[trigger] done_for(fa, labels, t, i as int, fa.sigma as nat)
    &&& 0 <= cur < labels.len() ==> done_for(fa, labels, t, cur, xs)
    &&& forall|i: int| 0 <= i < pending.len() ==> (#[trigger] pending[i]) < labels.len()
    &&& pending.no_duplicates()
    &&& labels.len() <= limbs_cap(((fa.q@.len() + 63) / 64) as nat)
}

/// No two edges of `t` leave the same node reading the same letter.
pub open spec fn one_edge_each(t: Seq<Edge>) -> bool {
    forall|a: int, b: int| 0 <= a < b < t.len() ==> #[trigger] t[a].0 != #[trigger] t[b].0 || t[a].1 != t[b].1
}

/// Every edge of `t` leaves one of the first `len` sets that is not waiting to
/// be visited, and those leaving the set `cur` read letters below `x`.
pub open spec fn edges_from_visited(t: Seq<Edge>, pending: Seq<usize>, cur: int, x: nat, len: nat) -> bool {
    forall|e: int|
        0 <= e < t.len() ==> (#[trigger] t[e]).0 < len && !pending.contains(t[e].0) && (t[e].0 == cur ==> t[e].1 < x)
}

/// Taking the last set off the to-visit list makes it the set being visited.
pub proof fn lemma_start_visit(fa: FA, labels: Seq<BitSet>, t: Seq<Edge>, pending: Seq<usize>)
    requires
        subset_partial(fa, labels, t, pending, -1, 0),
        pending.len() > 0,
    ensures
        subset_partial(fa, labels, t, pending.drop_last(), pending.last() as int, 0),
        !pending.drop_last().contains(pending.last()),
{
    let p = pending.drop_last();
    let si = pending.last();
    assert(pending[pending.len() - 1] == si);
    assert forall|i: int| 0 <= i < p.len() implies (#[trigger] p[i]) < labels.len() by {
        assert(p[i] == pending[i]);
    }
    assert(!p.contains(si)) by {
        if p.contains(si) {
            let k = choose|k: int| 0 <= k < p.len() && p[k] == si;
            assert(pending[k] == pending[pending.len() - 1]);
        }
    }
    assert forall|i: usize|
        i < labels.len() && !p.contains(i) && i != si implies #[trigger] done_for(fa, labels, t, i as int, fa.sigma as nat) by {
        if pending.contains(i) {
            let k = choose|k: int| 0 <= k < pending.len() && pending[k] == i;
            if k < pending.len() - 1 {
                assert(p[k] == i);
            }
        }
    }
}

/// A letter whose followers from the visited set are none needs no edge.
pub proof fn lemma_skip_letter(fa: FA, labels: Seq<BitSet>, t: Seq<Edge>, pending: Seq<usize>, cur: int, xs: nat)
    requires
        subset_partial(fa, labels, t, pending, cur, xs),
        0 <= cur < labels.len(),
        xs < fa.sigma,
        forall|m: usize| !#[trigger] post_has(fa.t@, labels[cur], xs as usize, m),
    ensures
        subset_partial(fa, labels, t, pending, cur, xs + 1),
{
    assert forall|x: usize, m: usize|
        x < xs + 1 && #[trigger] post_has(fa.t@, labels[cur], x, m) implies exists|e: int|
            0 <= e < t.len() && (#[trigger] t[e]).0 == cur && t[e].1 == x by {
        if x < xs {
            assert(done_for(fa, labels, t, cur, xs));
        } else {
            assert(x == xs as usize);
            assert(!post_has(fa.t@, labels[cur], xs as usize, m));
        }
    }
}

/// Adding an edge from set `i` to the set of the followers of `i` reading `x`
/// keeps the parts consistent.
pub proof fn lemma_labels_ok_edge(fa: FA, labels: Seq<BitSet>, t: Seq<Edge>, i: usize, x: usize, j: usize)
    requires
        labels_ok(fa, labels, t),
        i < labels.len(),
        x < fa.sigma,
        j < labels.len(),
        forall|m: usize| #[trigger] labels[j as int].has(m as int) <==> post_has(fa.t@, labels[i as int], x, m),
    ensures
        labels_ok(fa, labels, t.push((i, x, j))),
{
    reveal(labels_ok);
    let e = (i, x, j);
    let t2 = t.push(e);
    assert(t2[t.len() as int] == e);
    assert forall|k: int|
        0 <= k < t2.len() implies (#[trigger] t2[k]).0 < labels.len() && t2[k].1 < fa.sigma && t2[k].2 < labels.len()
            && forall|m: usize| #[trigger] labels[t2[k].2 as int].has(m as int) <==> post_has(fa.t@, labels[t2[k].0 as int], t2[k].1, m) by {
        if k < t.len() {
            assert(t2[k] == t[k]);
        }
    }
    assert forall|jj: int| 0 < jj < labels.len() implies #[trigger] entered(t2, jj) by {
        assert(entered(t, jj));
        let k = choose|k: int| 0 <= k < t.len() && (#[trigger] t[k]).2 == jj && t[k].0 < jj;
        assert(t2[k] == t[k]);
    }
}

/// Adding a set keeps the parts consistent, for a set that is nonempty, made of
/// nodes and unlike the others; the edge that first reaches it comes next.
pub proof fn lemma_labels_ok_state(fa: FA, labels: Seq<BitSet>, t: Seq<Edge>, b: BitSet, i: usize, x: usize, j: usize)
    requires
        labels_ok(fa, labels, t),
        j == labels.len(),
        i < j,
        x < fa.sigma,
        b.wf(),
        b.capacity() == fa.q@.len(),
        has_member(b),
        forall|k: int| #[trigger] b.has(k) ==> 0 <= k && fa.q@.contains(k as usize),
        forall|ii: int| 0 <= ii < labels.len() ==> !same_set(#[trigger] labels[ii], b),
        forall|m: usize| #[trigger] b.has(m as int) <==> post_has(fa.t@, labels[i as int], x, m),
    ensures
        labels_ok(fa, labels.push(b), t.push((i, x, j))),
{
    reveal(labels_ok);
    let l2 = labels.push(b);
    let n = labels.len() as int;
    let e = (i, x, j);
    let t2 = t.push(e);
    assert(l2[n] == b);
    assert(t2[t.len() as int] == e);
    assert forall|ii: int| 0 <= ii < l2.len() implies (#[trigger] l2[ii]).wf() && l2[ii].capacity() == fa.q@.len() by {
        if ii < n {
            assert(l2[ii] == labels[ii]);
        }
    }
    assert(l2[0] == labels[0]);
    assert forall|ii: int, jj: int| 0 <= ii < jj < l2.len() implies !same_set(#[trigger] l2[ii], #[trigger] l2[jj]) by {
        assert(l2[ii] == labels[ii]);
        if jj < n {
            assert(l2[jj] == labels[jj]);
        }
    }
    assert forall|ii: int| 0 <= ii < l2.len() implies #[trigger] has_member(l2[ii]) by {
        if ii < n {
            assert(l2[ii] == labels[ii]);
            assert(has_member(labels[ii]));
        }
    }
    assert forall|ii: int, k: int| 0 <= ii < l2.len() && #[trigger] l2[ii].has(k) implies 0 <= k && fa.q@.contains(k as usize) by {
        if ii < n {
            assert(l2[ii] == labels[ii]);
        }
    }
    assert forall|k: int|
        0 <= k < t2.len() implies (#[trigger] t2[k]).0 < l2.len() && t2[k].1 < fa.sigma && t2[k].2 < l2.len()
            && forall|m: usize| #[trigger] l2[t2[k].2 as int].has(m as int) <==> post_has(fa.t@, l2[t2[k].0 as int], t2[k].1, m) by {
        if k < t.len() {
            assert(t2[k] == t[k]);
            assert(l2[t[k].2 as int] == labels[t[k].2 as int]);
            assert(l2[t[k].0 as int] == labels[t[k].0 as int]);
        } else {
            assert(l2[i as int] == labels[i as int]);
        }
    }
    assert forall|jj: int| 0 < jj < l2.len() implies #[trigger] entered(t2, jj) by {
        if jj < n {
            assert(entered(t, jj));
            let k = choose|k: int| 0 <= k < t.len() && (#[trigger] t[k]).2 == jj && t[k].0 < jj;
            assert(t2[k] == t[k]);
        } else {
            assert(t2[t.len() as int].2 == jj);
        }
    }
}

/// An edge from the visited set to a known set of its followers.
pub proof fn lemma_add_edge(fa: FA, labels: Seq<BitSet>, t: Seq<Edge>, pending: Seq<usize>, cur: int, xs: nat, j: usize)
    requires
        subset_partial(fa, labels, t, pending, cur, xs),
        0 <= cur < labels.len(),
        labels.len() <= usize::MAX,
        xs < fa.sigma,
        j < labels.len(),
        forall|m: usize| #[trigger] labels[j as int].has(m as int) <==> post_has(fa.t@, labels[cur], xs as usize, m),
    ensures
        subset_partial(fa, labels, t.push((cur as usize, xs as usize, j)), pending, cur, xs + 1),
{
    let e = (cur as usize, xs as usize, j);
    let t2 = t.push(e);
    assert(t2[t.len() as int] == e);
    lemma_labels_ok_edge(fa, labels, t, cur as usize, xs as usize, j);
    assert forall|i: usize|
        i < labels.len() && !pending.contains(i) && i != cur implies #[trigger] done_for(fa, labels, t2, i as int, fa.sigma as nat) by {
        assert(done_for(fa, labels, t, i as int, fa.sigma as nat));
        assert forall|x: usize, m: usize| x < fa.sigma && #[trigger] post_has(fa.t@, labels[i as int], x, m) implies exists|k: int|
            0 <= k < t2.len() && (#[trigger] t2[k]).0 == i && t2[k].1 == x by {
            let k = choose|k: int| 0 <= k < t.len() && (#[trigger] t[k]).0 == i && t[k].1 == x;
            assert(t2[k] == t[k]);
        }
    }
    assert forall|x: usize, m: usize| x < xs + 1 && #[trigger] post_has(fa.t@, labels[cur], x, m) implies exists|k: int|
        0 <= k < t2.len() && (#[trigger] t2[k]).0 == cur && t2[k].1 == x by {
        if x < xs {
            assert(done_for(fa, labels, t, cur, xs));
            let k = choose|k: int| 0 <= k < t.len() && (#[trigger] t[k]).0 == cur && t[k].1 == x;
            assert(t2[k] == t[k]);
        } else {
            assert(t2[t.len() as int].0 == cur);
        }
    }
}

/// A new set of followers of the visited set, together with the edge to it.
pub proof fn lemma_add_state(fa: FA, labels: Seq<BitSet>, t: Seq<Edge>, pending: Seq<usize>, cur: int, xs: nat, b: BitSet, j: usize)
    requires
        j == labels.len(),
        subset_partial(fa, labels, t, pending, cur, xs),
        0 <= cur < labels.len(),
        xs < fa.sigma,
        b.wf(),
        b.capacity() == fa.q@.len(),
        has_member(b),
        forall|k: int| #[trigger] b.has(k) ==> 0 <= k && fa.q@.contains(k as usize),
        forall|i: int| 0 <= i < labels.len() ==> !same_set(#[trigger] labels[i], b),
        forall|m: usize| #[trigger] b.has(m as int) <==> post_has(fa.t@, labels[cur], xs as usize, m),
        labels.len() + 1 <= limbs_cap(((fa.q@.len() + 63) / 64) as nat),
    ensures
        subset_partial(fa, labels.push(b), t.push((cur as usize, xs as usize, j)), pending.push(j), cur, xs + 1),
{
    let l2 = labels.push(b);
    let n = labels.len() as int;
    let p2 = pending.push(j);
    let e = (cur as usize, xs as usize, j);
    let t2 = t.push(e);
    assert(l2[n] == b);
    assert(t2[t.len() as int] == e);
    lemma_labels_ok_state(fa, labels, t, b, cur as usize, xs as usize, j);
    assert forall|i: usize|
        i < l2.len() && !p2.contains(i) && i != cur implies #[trigger] done_for(fa, l2, t2, i as int, fa.sigma as nat) by {
        if i == n {
            assert(p2[pending.len() as int] == j);
        }
        assert(i < n);
        if pending.contains(i) {
            let k = choose|k: int| 0 <= k < pending.len() && pending[k] == i;
            assert(p2[k] == i);
        }
        assert(l2[i as int] == labels[i as int]);
        assert(done_for(fa, labels, t, i as int, fa.sigma as nat));
        assert forall|x: usize, m: usize| x < fa.sigma && #[trigger] post_has(fa.t@, l2[i as int], x, m) implies exists|k: int|
            0 <= k < t2.len() && (#[trigger] t2[k]).0 == i && t2[k].1 == x by {
            assert(post_has(fa.t@, labels[i as int], x, m));
            let k = choose|k: int| 0 <= k < t.len() && (#[trigger] t[k]).0 == i && t[k].1 == x;
            assert(t2[k] == t[k]);
        }
    }
    assert(l2[cur] == labels[cur]);
    assert forall|x: usize, m: usize| x < xs + 1 && #[trigger] post_has(fa.t@, l2[cur], x, m) implies exists|k: int|
        0 <= k < t2.len() && (#[trigger] t2[k]).0 == cur && t2[k].1 == x by {
        if x < xs {
            assert(done_for(fa, labels, t, cur, xs));
            assert(post_has(fa.t@, labels[cur], x, m));
            let k = choose|k: int| 0 <= k < t.len() && (#[trigger] t[k]).0 == cur && t[k].1 == x;
            assert(t2[k] == t[k]);
        } else {
            assert(t2[t.len() as int].0 == cur);
        }
    }
    assert forall|i: int| 0 <= i < p2.len() implies (#[trigger] p2[i]) < l2.len() by {
        if i < pending.len() {
            assert(p2[i] == pending[i]);
        }
    }
    assert(p2.no_duplicates()) by {
        assert forall|i: int, k: int| 0 <= i < p2.len() && 0 <= k < p2.len() && i != k implies p2[i] != p2[k] by {
            if i < pending.len() && k < pending.len() {
                assert(p2[i] == pending[i] && p2[k] == pending[k]);
            } else if i < pending.len() {
                assert(p2[i] == pending[i]);
                assert(pending[i] < labels.len());
            } else if k < pending.len() {
                assert(p2[k] == pending[k]);
                assert(pending[k] < labels.len());
            }
        }
    }
}

/// Once no set is left to visit, the construction is complete.
pub proof fn lemma_complete(fa: FA, labels: Seq<BitSet>, t: Seq<Edge>)
    requires
        subset_partial(fa, labels, t, Seq::empty(), -1, 0),
        labels.len() <= usize::MAX,
    ensures
        subset_automaton(fa, labels, t),
{
    assert forall|i: int, x: usize, m: usize|
        0 <= i < labels.len() && x < fa.sigma && #[trigger] post_has(fa.t@, labels[i], x, m) implies exists|e: int|
            0 <= e < t.len() && (#[trigger] t[e]).0 == i && t[e].1 == x by {
        assert(!Seq::<usize>::empty().contains(i as usize));
        assert(done_for(fa, labels, t, (i as usize) as int, fa.sigma as nat));
    }
}

/// Every node on a walk from the start belongs to some set of a complete construction.
pub proof fn lemma_walk_in_labels(fa: FA, labels: Seq<BitSet>, t: Seq<Edge>, ns: Seq<usize>, k: int)
    requires
        fa.wf(),
        subset_automaton(fa, labels, t),
        is_walk(fa.t@, ns),
        ns[0] == fa.q0,
        0 <= k < ns.len(),
    ensures
        exists|i: int| 0 <= i < labels.len() && #[trigger] labels[i].has(ns[k] as int),
    decreases k,
{
    reveal(labels_ok);
    if k == 0 {
        assert(labels[0].has(ns[0] as int));
    } else {
        let k0 = k - 1;
        lemma_walk_in_labels(fa, labels, t, ns, k0);
        let i = choose|i: int| 0 <= i < labels.len() && #[trigger] labels[i].has(ns[k0] as int);
        assert(has_edge(fa.t@, ns[k0], ns[k0 + 1]));
        let j = choose|j: int| 0 <= j < fa.t@.len() && (#[trigger] fa.t@[j]).0 == ns[k0] && fa.t@[j].2 == ns[k0 + 1];
        lemma_edge_in_targets(fa.t@, j);
        let x = fa.t@[j].1;
        assert(post_has(fa.t@, labels[i], x, ns[k]));
        let e = choose|e: int| 0 <= e < t.len() && (#[trigger] t[e]).0 == i && t[e].1 == x;
        assert(labels[t[e].2 as int].has(ns[k] as int));
    }
}

/// The construction starts from the set of the start alone, still to be visited.
pub proof fn lemma_initial(fa: FA, b: BitSet)
    requires
        fa.wf(),
        b.wf(),
        b.capacity() == fa.q@.len(),
        forall|k: int| #[trigger] b.has(k) <==> k == fa.q0,
        1 <= limbs_cap(((fa.q@.len() + 63) / 64) as nat),
    ensures
        subset_partial(fa, seq![b], Seq::empty(), seq![0usize], -1, 0),
{
    reveal(labels_ok);
    let l = seq![b];
    assert(l[0] == b);
    assert(has_member(b)) by {
        assert(b.has(fa.q0 as int));
    }
    assert forall|i: usize| i < l.len() && !seq![0usize].contains(i) && i != -1 implies #[trigger] done_for(
        fa,
        l,
        Seq::empty(),
        i as int,
        fa.sigma as nat,
    ) by {
        assert(seq![0usize][0] == 0);
    }
}

impl FA {
    /// Makes `following` the set of the nodes that follow the members `members` reading `x`.
    fn fill_post(&self, members: &Vec<usize>, x: usize, following: &mut BitSet)
        requires
            self.wf(),
            x < self.sigma,
            forall|i: int| 0 <= i < members@.len() ==> self.q@.contains(#[trigger] members@[i]),
            forall|i: int| 0 <= i < self.q@.len() ==> self.q@[i] < self.q@.len(),
            old(following).wf(),
            old(following).capacity() == self.q@.len(),
        ensures
            final(following).wf(),
            final(following).capacity() == self.q@.len(),
            forall|k: usize| #[trigger] final(following).has(k as int) <==> exists|c: int|
                0 <= c < members@.len() && targets(self.t@, #[trigger] members@[c], x).contains(k),
    {
        following.clear();
        proof {
            following.lemma_word_bound();
        }
        let mut c: usize = 0;
        while c < members.len()
            invariant
                self.wf(),
                x < self.sigma,
                forall|i: int| 0 <= i < members@.len() ==> self.q@.contains(#[trigger] members@[i]),
                forall|i: int| 0 <= i < self.q@.len() ==> self.q@[i] < self.q@.len(),
                following.wf(),
                following.capacity() == self.q@.len(),
                self.q@.len() <= 64 * following.words().len(),
                c <= members@.len(),
                forall|k: usize| #[trigger] following.has(k as int) <==> exists|d: int|
                    0 <= d < c && targets(self.t@, #[trigger] members@[d], x).contains(k),
            decreases members@.len() - c,
        {
            let succ = self.edges_of_node_with_state(members[c], x);
            proof {
                assert forall|j: int| 0 <= j < succ@.len() implies succ@[j] < 64 * following.words().len() by {
                    lemma_targets_edge(self.t@, members@[c as int], x, j);
                    let e = choose|e: int| 0 <= e < self.t@.len() && #[trigger] self.t@[e] == (members@[c as int], x, succ@[j]);
                    assert(self.q@.contains(self.t@[e].2));
                    let i = choose|i: int| 0 <= i < self.q@.len() && self.q@[i] == succ@[j];
                }
            }
            let ghost before = *following;
            following.extend(succ.as_slice());
            proof {
                assert forall|k: usize| #[trigger] following.has(k as int) <==> exists|d: int|
                    0 <= d < c + 1 && targets(self.t@, #[trigger] members@[d], x).contains(k) by {
                    if following.has(k as int) && !before.has(k as int) {
                        let j = choose|j: int| 0 <= j < succ@.len() && succ@[j] == k as int;
                        assert(targets(self.t@, members@[c as int], x)[j] == k);
                    }
                    if exists|d: int| 0 <= d < c + 1 && targets(self.t@, #[trigger] members@[d], x).contains(k) {
                        let d = choose|d: int| 0 <= d < c + 1 && targets(self.t@, #[trigger] members@[d], x).contains(k);
                        if d == c {
                            let j = choose|j: int| 0 <= j < succ@.len() && succ@[j] == k;
                            assert(crate::bitset::listed(succ@, k as int));
                        }
                    }
                }
            }
            c = c + 1;
        }
    }

    /// The subset construction: nodes are the sets of nodes that some word
    /// leads to from the start, numbered in the order they are found; an edge
    /// leads from a set to the set of the followers of its members reading the
    /// letter, when that set is not empty; the halting sets are those with a
    /// halting member. Returns the automaton together with the set of each node.
    pub fn bs_usize_to_dfa(&self) -> (r: (FA, Vec<BitSet>))
        requires
            self.wf(),
            forall|i: int| 0 <= i < self.q@.len() ==> self.q@[i] < self.q@.len(),
            self.q@.len() + 63 <= usize::MAX,
            exists|i: int| 0 <= i < self.f@.len() && reachable(self.t@, self.q0, #[trigger] self.f@[i]),
        ensures
            r.0.wf(),
            r.0.sigma == self.sigma,
            r.0.q0 == 0,
            r.0.q@ == positions(r.1@.len() as nat),
            subset_automaton(*self, r.1@, r.0.t@),
            one_edge_each(r.0.t@),
            forall|i: int, j: int| 0 <= i < j < r.0.f@.len() ==> #[trigger] r.0.f@[i] < #[trigger] r.0.f@[j],
            forall|i: usize| #[trigger] r.0.f@.contains(i) <==> i < r.1@.len() && exists|k: usize|
                #[trigger] r.1@[i as int].has(k as int) && self.f@.contains(k),
    {
        let n = self.q.len();
        assert(self.q@.contains(self.q0));
        let mut start: Vec<usize> = Vec::new();
        start.push(self.q0);
        proof {
            let i = choose|i: int| 0 <= i < self.q@.len() && self.q@[i] == self.q0;
        }
        let new_q0 = BitSet::from_vec(start.as_slice(), n);
        proof {
            assert forall|k: int| #[trigger] new_q0.has(k) <==> k == self.q0 by {
                if k == self.q0 {
                    assert(start@[0] == self.q0);
                }
            }
            crate::bits::lemma_limbs_cap_pos(((n + 63) / 64) as nat);
            lemma_initial(*self, new_q0);
        }
        let mut states: Vec<BitSet> = Vec::new();
        states.push(new_q0);
        let mut new_t: Vec<Edge> = Vec::new();
        let mut searchers: Vec<usize> = Vec::new();
        searchers.push(0);
        let mut following = BitSet::with_capacity(n);
        proof {
            assert(states@ =~= seq![new_q0]);
            assert(searchers@ =~= seq![0usize]);
            assert(new_t@ =~= Seq::<Edge>::empty());
        }
        while searchers.len() > 0
            invariant
                self.wf(),
                n == self.q@.len(),
                forall|i: int| 0 <= i < self.q@.len() ==> self.q@[i] < self.q@.len(),
                following.wf(),
                following.capacity() == n,
                states@.len() <= usize::MAX,
                subset_partial(*self, states@, new_t@, searchers@, -1, 0),
                one_edge_each(new_t@),
                edges_from_visited(new_t@, searchers@, -1, 0, states@.len()),
            decreases limbs_cap(((n + 63) / 64) as nat) - states@.len(), searchers@.len(),
        {
            proof {
                lemma_start_visit(*self, states@, new_t@, searchers@);
            }
            let ghost pend0 = searchers@;
            let si = searchers.pop().unwrap();
            proof {
                reveal(labels_ok);
                assert(searchers@ =~= pend0.drop_last());
                assert(pend0[pend0.len() - 1] == si);
                assert(pend0.contains(si));
                assert(!searchers@.contains(si)) by {
                    if searchers@.contains(si) {
                        let k = choose|k: int| 0 <= k < searchers@.len() && searchers@[k] == si;
                        assert(pend0[k] == pend0[pend0.len() - 1]);
                    }
                }
                assert forall|e: int| 0 <= e < new_t@.len() implies (#[trigger] new_t@[e]).0 < states@.len()
                    && !searchers@.contains(new_t@[e].0) && (new_t@[e].0 == si ==> new_t@[e].1 < 0) by {
                    assert(!pend0.contains(new_t@[e].0));
                    if searchers@.contains(new_t@[e].0) {
                        let k = choose|k: int| 0 <= k < searchers@.len() && searchers@[k] == new_t@[e].0;
                        assert(pend0[k] == new_t@[e].0);
                    }
                }
            }
            let members = states[si].to_vec();
            proof {
                assert forall|i: int| 0 <= i < members@.len() implies self.q@.contains(#[trigger] members@[i]) by {
                    assert(members@.contains(members@[i]));
                    assert(states@[si as int].has(members@[i] as int));
                }
            }
            let ghost len0 = states@.len();
            let ghost sl0 = searchers@.len();
            let mut x: usize = 0;
            while x < self.sigma
                invariant
                    self.wf(),
                    n == self.q@.len(),
                    forall|i: int| 0 <= i < self.q@.len() ==> self.q@[i] < self.q@.len(),
                    following.wf(),
                    following.capacity() == n,
                    si < states@.len(),
                    x <= self.sigma,
                    states@.len() <= usize::MAX,
                    forall|i: int| 0 <= i < members@.len() ==> self.q@.contains(#[trigger] members@[i]),
                    forall|k: usize| #[trigger] states@[si as int].has(k as int) <==> members@.contains(k),
                    subset_partial(*self, states@, new_t@, searchers@, si as int, x as nat),
                    states@.len() >= len0,
                    states@.len() == len0 ==> searchers@.len() == sl0,
                    states@.len() > len0 || states@.len() == len0,
                    one_edge_each(new_t@),
                    edges_from_visited(new_t@, searchers@, si as int, x as nat, states@.len()),
                    !searchers@.contains(si),
                decreases self.sigma - x,
            {
                self.fill_post(&members, x, &mut following);
                proof {
                    assert forall|m: usize| #[trigger] following.has(m as int) <==> post_has(self.t@, states@[si as int], x, m) by {
                        if following.has(m as int) {
                            let c = choose|c: int| 0 <= c < members@.len() && targets(self.t@, #[trigger] members@[c], x).contains(m);
                            assert(members@.contains(members@[c]));
                            assert(states@[si as int].has(members@[c] as int));
                        }
                        if post_has(self.t@, states@[si as int], x, m) {
                            let nn = choose|nn: usize| #[trigger] states@[si as int].has(nn as int) && targets(self.t@, nn, x).contains(m);
                            assert(members@.contains(nn));
                            let c = choose|c: int| 0 <= c < members@.len() && members@[c] == nn;
                            assert(targets(self.t@, members@[c], x).contains(m));
                        }
                    }
                }
                if !following.is_empty() {
                    proof {
                        reveal(labels_ok);
                    }
                    let found = find_set(&states, &following);
                    match found {
                        Some(j) => {
                            proof {
                                lemma_add_edge(*self, states@, new_t@, searchers@, si as int, x as nat, j);
                            }
                            let ghost t0 = new_t@;
                            new_t.push((si, x, j));
                            proof {
                                assert forall|a: int, b: int| 0 <= a < b < new_t@.len() implies #[trigger] new_t@[a].0
                                    != #[trigger] new_t@[b].0 || new_t@[a].1 != new_t@[b].1 by {
                                    assert(new_t@[a] == t0[a]);
                                    if b < t0.len() {
                                        assert(new_t@[b] == t0[b]);
                                    }
                                }
                                assert forall|e: int| 0 <= e < new_t@.len() implies (#[trigger] new_t@[e]).0 < states@.len()
                                    && !searchers@.contains(new_t@[e].0) && (new_t@[e].0 == si ==> new_t@[e].1 < x + 1) by {
                                    if e < t0.len() {
                                        assert(new_t@[e] == t0[e]);
                                    }
                                }
                            }
                        },
                        None => {
                            let j = states.len();
                            proof {
                                following.lemma_word_bound();
                                assert(has_member(following)) by {
                                    if !has_member(following) {
                                        assert forall|k: int| !#[trigger] following.has(k) by {
                                            if following.has(k) {
                                                assert(k >= 0);
                                                assert(following.has((k as usize) as int));
                                            }
                                        }
                                    }
                                }
                                assert forall|k: int| #[trigger] following.has(k) implies 0 <= k && self.q@.contains(k as usize) by {
                                    assert(following.has((k as usize) as int));
                                    let nn = choose|nn: usize| #[trigger] states@[si as int].has(nn as int) && targets(self.t@, nn, x).contains(k as usize);
                                    let c = choose|c: int| 0 <= c < targets(self.t@, nn, x).len() && targets(self.t@, nn, x)[c] == k as usize;
                                    lemma_targets_edge(self.t@, nn, x, c);
                                    let e = choose|e: int| 0 <= e < self.t@.len() && #[trigger] self.t@[e] == (nn, x, k as usize);
                                }
                                lemma_distinct_sets_bound(states@.push(following), n);
                            }
                            let copy = following.clone();
                            proof {
                                assert forall|k: int| #[trigger] copy.has(k) == following.has(k) by {}
                                let kk = choose|kk: usize| #[trigger] following.has(kk as int);
                                assert(copy.has(kk as int));
                                lemma_add_state(*self, states@, new_t@, searchers@, si as int, x as nat, copy, j);
                            }
                            let ghost t0 = new_t@;
                            let ghost p0 = searchers@;
                            states.push(copy);
                            searchers.push(j);
                            new_t.push((si, x, j));
                            proof {
                                assert forall|a: int, b: int| 0 <= a < b < new_t@.len() implies #[trigger] new_t@[a].0
                                    != #[trigger] new_t@[b].0 || new_t@[a].1 != new_t@[b].1 by {
                                    assert(new_t@[a] == t0[a]);
                                    if b < t0.len() {
                                        assert(new_t@[b] == t0[b]);
                                    }
                                }
                                assert forall|e: int| 0 <= e < new_t@.len() implies (#[trigger] new_t@[e]).0 < states@.len()
                                    && !searchers@.contains(new_t@[e].0) && (new_t@[e].0 == si ==> new_t@[e].1 < x + 1) by {
                                    if e < t0.len() {
                                        assert(new_t@[e] == t0[e]);
                                        assert(new_t@[e].0 < j);
                                        if searchers@.contains(new_t@[e].0) {
                                            let k = choose|k: int| 0 <= k < searchers@.len() && searchers@[k] == new_t@[e].0;
                                            if k < p0.len() {
                                                assert(p0[k] == new_t@[e].0);
                                            }
                                        }
                                    }
                                }
                                assert(!searchers@.contains(si)) by {
                                    if searchers@.contains(si) {
                                        let k = choose|k: int| 0 <= k < searchers@.len() && searchers@[k] == si;
                                        if k < p0.len() {
                                            assert(p0[k] == si);
                                        }
                                    }
                                }
                            }
                            let _ = states.len();
                        },
                    }
                } else {
                    proof {
                        assert forall|m: usize| !#[trigger] post_has(self.t@, states@[si as int], x, m) by {
                            assert(!following.has(m as int));
                        }
                        lemma_skip_letter(*self, states@, new_t@, searchers@, si as int, x as nat);
                    }
                }
                x = x + 1;
            }
            proof {
                assert(done_for(*self, states@, new_t@, si as int, self.sigma as nat));
                assert forall|i: usize|
                    i < states@.len() && !searchers@.contains(i) && i != -1int implies #[trigger] done_for(*self, states@, new_t@, i as int, self.sigma as nat) by {
                }
                assert(edges_from_visited(new_t@, searchers@, -1, 0, states@.len()));
            }
        }
        proof {
            assert(searchers@ =~= Seq::<usize>::empty());
            lemma_complete(*self, states@, new_t@);
        }

        let mut new_f: Vec<usize> = Vec::new();
        let mut i: usize = 0;
        while i < states.len()
            invariant
                subset_automaton(*self, states@, new_t@),
                i <= states@.len(),
                forall|a: int, b: int| 0 <= a < b < new_f@.len() ==> #[trigger] new_f@[a] < #[trigger] new_f@[b],
                forall|a: int| 0 <= a < new_f@.len() ==> #[trigger] new_f@[a] < i,
                forall|j: usize| #[trigger] new_f@.contains(j) <==> j < i && exists|k: usize|
                    #[trigger] states@[j as int].has(k as int) && self.f@.contains(k),
            decreases states@.len() - i,
        {
            proof {
                reveal(labels_ok);
            }
            let members = states[i].to_vec();
            let mut c: usize = 0;
            let mut any = false;
            while c < members.len() && !any
                invariant
                    c <= members@.len(),
                    any ==> exists|k: usize| #[trigger] members@.contains(k) && self.f@.contains(k),
                    !any ==> forall|d: int| 0 <= d < c ==> !self.f@.contains(#[trigger] members@[d]),
                decreases members@.len() - c,
            {
                if contains(&self.f, members[c]) {
                    any = true;
                    assert(members@.contains(members@[c as int]));
                }
                c = c + 1;
            }
            let ghost prev = new_f@;
            if any {
                new_f.push(i);
            }
            proof {
                assert forall|j: usize| #[trigger] new_f@.contains(j) <==> j < i + 1 && exists|k: usize|
                    #[trigger] states@[j as int].has(k as int) && self.f@.contains(k) by {
                    lemma_push_contains(prev, i, j);
                    if j == i {
                        if exists|k: usize| #[trigger] states@[j as int].has(k as int) && self.f@.contains(k) {
                            let k = choose|k: usize| #[trigger] states@[j as int].has(k as int) && self.f@.contains(k);
                            assert(members@.contains(k));
                            let d = choose|d: int| 0 <= d < members@.len() && members@[d] == k;
                        }
                        if any {
                            let k = choose|k: usize| #[trigger] members@.contains(k) && self.f@.contains(k);
                            assert(states@[j as int].has(k as int));
                        }
                    }
                }
                assert forall|a: int| 0 <= a < new_f@.len() implies #[trigger] new_f@[a] < i + 1 by {
                    if a < prev.len() {
                        assert(new_f@[a] == prev[a]);
                    }
                }
                assert forall|a: int, b: int| 0 <= a < b < new_f@.len() implies #[trigger] new_f@[a] < #[trigger] new_f@[b] by {
                    if b == prev.len() {
                        assert(new_f@[a] == prev[a]);
                    } else {
                        assert(new_f@[a] == prev[a] && new_f@[b] == prev[b]);
                    }
                }
            }
            i = i + 1;
        }

        let mut new_q: Vec<usize> = Vec::new();
        let mut i: usize = 0;
        while i < states.len()
            invariant
                i <= states@.len(),
                new_q@ == positions(i as nat),
            decreases states@.len() - i,
        {
            new_q.push(i);
            assert(new_q@ =~= positions((i + 1) as nat));
            i = i + 1;
        }
        proof {
            reveal(labels_ok);
            let fi = choose|fi: int| 0 <= fi < self.f@.len() && reachable(self.t@, self.q0, #[trigger] self.f@[fi]);
            let ns = choose|ns: Seq<usize>| #[trigger] is_walk(self.t@, ns) && ns[0] == self.q0 && ns.last() == self.f@[fi];
            lemma_walk_in_labels(*self, states@, new_t@, ns, ns.len() - 1);
            let li = choose|li: int| 0 <= li < states@.len() && #[trigger] states@[li].has(ns[ns.len() - 1] as int);
            assert(self.f@.contains(self.f@[fi]));
            assert(new_f@.contains(li as usize));
            assert(new_f@.len() != 0);
            assert(new_q@.contains(0usize)) by {
                assert(new_q@[0] == 0);
            }
            assert forall|a: int| 0 <= a < new_f@.len() implies new_q@.contains(#[trigger] new_f@[a]) by {
                assert(new_f@.contains(new_f@[a]));
                assert(new_q@[new_f@[a] as int] == new_f@[a]);
            }
            assert forall|a: int| 0 <= a < new_t@.len() implies new_q@.contains((#[trigger] new_t@[a]).0)
                && new_q@.contains(new_t@[a].2) && new_t@[a].1 < self.sigma by {
                assert(new_q@[new_t@[a].0 as int] == new_t@[a].0);
                assert(new_q@[new_t@[a].2 as int] == new_t@[a].2);
            }
        }
        let dfa = FA::from(new_q, self.sigma, new_t, 0, new_f);
        (dfa, states)
    }

}

/// The position in `states` of a set with the same members as `b`, if any.
pub fn find_set(states: &Vec<BitSet>, b: &BitSet) -> (r: Option<usize>)
    requires
        b.wf(),
        forall|i: int| 0 <= i < states@.len() ==> (#[trigger] states@[i]).wf() && states@[i].capacity() == b.capacity(),
    ensures
        match r {
            Some(j) => j < states@.len() && same_set(states@[j as int], *b),
            None => forall|i: int| 0 <= i < states@.len() ==> !same_set(#[trigger] states@[i], *b),
        },
{
    let mut j: usize = 0;
    while j < states.len()
        invariant
            b.wf(),
            forall|i: int| 0 <= i < states@.len() ==> (#[trigger] states@[i]).wf() && states@[i].capacity() == b.capacity(),
            j <= states@.len(),
            forall|i: int| 0 <= i < j ==> !same_set(#[trigger] states@[i], *b),
        decreases states@.len() - j,
    {
        if states[j].same_members(b) {
            return Some(j);
        }
        j = j + 1;
    }
    None
}

} // verus!
