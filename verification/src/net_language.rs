//! The words a network reads, and what Brzozowski's minimization keeps of them.
use vstd::prelude::*;
use crate::bitset::BitSet;
use crate::net::{
    K, succ, net_wf, reverses, determinized, det_entry, post_net, brzozowski_stages, minimized, lemma_reverses,
    lemma_determinized_wf,
};

verus! {

/// Node `x` of `r` reads the word `w` (letters below `K`) along edges and ends in node `y`.
pub open spec fn walks(r: Seq<[Vec<usize>; K]>, x: int, w: Seq<usize>, y: int) -> bool
    decreases w.len(),
{
    &&& 0 <= x < r.len()
    &&& if w.len() == 0 {
        x == y
    } else {
        w[0] < K && exists|z: usize| #[trigger] succ(r, x, w[0] as int).contains(z) && walks(r, z as int, w.drop_first(), y)
    }
}

/// A walk ends in a node.
proof fn lemma_walks_end(r: Seq<[Vec<usize>; K]>, x: int, w: Seq<usize>, y: int)
    requires
        net_wf(r),
        walks(r, x, w, y),
    ensures
        0 <= y < r.len(),
    decreases w.len(),
{
    if w.len() > 0 {
        let z = choose|z: usize| #[trigger] succ(r, x, w[0] as int).contains(z) && walks(r, z as int, w.drop_first(), y);
        lemma_walks_end(r, z as int, w.drop_first(), y);
    }
}

/// Reading one more letter at the end.
proof fn lemma_walks_push(r: Seq<[Vec<usize>; K]>, x: int, v: Seq<usize>, a: usize, y: int)
    requires
        net_wf(r),
        r.len() <= usize::MAX,
    ensures
        walks(r, x, v.push(a), y) <==> (a < K && 0 <= y < r.len() && exists|z: int|
            #[trigger] walks(r, x, v, z) && 0 <= z < r.len() && succ(r, z, a as int).contains(y as usize)),
    decreases v.len(),
{
    if v.len() == 0 {
        assert(v.push(a) =~= seq![a]);
        assert(seq![a].drop_first() =~= Seq::<usize>::empty());
        if walks(r, x, v.push(a), y) {
            let z = choose|z: usize| #[trigger] succ(r, x, a as int).contains(z) && walks(r, z as int, seq![a].drop_first(), y);
            assert(walks(r, x, v, x));
            let j = choose|j: int| 0 <= j < succ(r, x, a as int).len() && succ(r, x, a as int)[j] == z;
            assert(succ(r, x, a as int)[j] < r.len());
        }
        if a < K && 0 <= y < r.len() && exists|z: int|
            #[trigger] walks(r, x, v, z) && 0 <= z < r.len() && succ(r, z, a as int).contains(y as usize) {
            let z = choose|z: int| #[trigger] walks(r, x, v, z) && 0 <= z < r.len() && succ(r, z, a as int).contains(y as usize);
            assert(z == x);
            assert(walks(r, y, seq![a].drop_first(), y));
            assert(succ(r, x, a as int).contains(y as usize) && walks(r, (y as usize) as int, seq![a].drop_first(), y));
        }
    } else {
        let b = v[0];
        let v1 = v.drop_first();
        assert(v.push(a).drop_first() =~= v1.push(a));
        assert(v.push(a)[0] == b);
        if walks(r, x, v.push(a), y) {
            let z1 = choose|z1: usize| #[trigger] succ(r, x, b as int).contains(z1) && walks(r, z1 as int, v1.push(a), y);
            lemma_walks_push(r, z1 as int, v1, a, y);
            let z = choose|z: int| #[trigger] walks(r, z1 as int, v1, z) && 0 <= z < r.len() && succ(r, z, a as int).contains(y as usize);
            assert(walks(r, x, v, z));
        }
        if a < K && 0 <= y < r.len() && exists|z: int|
            #[trigger] walks(r, x, v, z) && 0 <= z < r.len() && succ(r, z, a as int).contains(y as usize) {
            let z = choose|z: int| #[trigger] walks(r, x, v, z) && 0 <= z < r.len() && succ(r, z, a as int).contains(y as usize);
            let z1 = choose|z1: usize| #[trigger] succ(r, x, b as int).contains(z1) && walks(r, z1 as int, v1, z);
            lemma_walks_push(r, z1 as int, v1, a, y);
            assert(walks(r, z1 as int, v1.push(a), y));
        }
    }
}

/// A word read in the network with its edges turned round is the reversed
/// word read the other way in the network.
proof fn lemma_walks_reversed(r: Seq<[Vec<usize>; K]>, o: Seq<[Vec<usize>; K]>, x: int, w: Seq<usize>, y: int)
    requires
        net_wf(r),
        r.len() <= usize::MAX,
        reverses(r, o),
    ensures
        walks(o, x, w, y) <==> walks(r, y, w.reverse(), x),
    decreases w.len(),
{
    lemma_reverses(r, o);
    if w.len() == 0 {
        assert(w.reverse() =~= w);
    } else {
        let a = w[0];
        let w1 = w.drop_first();
        assert(w.reverse() =~= w1.reverse().push(a));
        lemma_walks_push(r, y, w1.reverse(), a, x);
        if walks(o, x, w, y) {
            let z = choose|z: usize| #[trigger] succ(o, x, a as int).contains(z) && walks(o, z as int, w1, y);
            lemma_walks_reversed(r, o, z as int, w1, y);
            assert(walks(r, y, w1.reverse(), z as int));
            assert(succ(r, z as int, a as int).contains(x as usize));
        }
        if walks(r, y, w.reverse(), x) {
            let z = choose|z: int|
                #[trigger] walks(r, y, w1.reverse(), z) && 0 <= z < r.len() && succ(r, z, a as int).contains(x as usize);
            lemma_walks_reversed(r, o, z, w1, y);
            assert(succ(o, x, a as int).contains(z as usize));
            assert(walks(o, (z as usize) as int, w1, y));
        }
    }
}

/// Reading a word in a subset construction leads from the node of a set to
/// the node of the set of nodes the word leads to from its members; away
/// from the start that set is never empty.
proof fn lemma_det_walks(
    r: Seq<[Vec<usize>; K]>,
    start: Seq<usize>,
    accept: Set<usize>,
    labels: Seq<BitSet>,
    dfa: Seq<[Vec<usize>; K]>,
    acc: Set<usize>,
    e: int,
    v: Seq<usize>,
    d: int,
)
    requires
        determinized(r, start, accept, labels, dfa, acc),
        net_wf(r),
        r.len() <= usize::MAX,
        walks(dfa, e, v, d),
    ensures
        0 <= d < dfa.len(),
        forall|y: int|
            0 <= y < r.len() ==> (#[trigger] labels[d].has(y) <==> exists|x: int| labels[e].has(x) && #[trigger] walks(r, x, v, y)),
        v.len() == 0 ==> d == e,
        v.len() > 0 ==> exists|y: int| 0 <= y < r.len() && #[trigger] labels[d].has(y),
    decreases v.len(),
{
    if v.len() == 0 {
        assert forall|y: int| 0 <= y < r.len() implies (#[trigger] labels[d].has(y) <==> exists|x: int|
            labels[e].has(x) && #[trigger] walks(r, x, v, y)) by {
            if labels[d].has(y) {
                assert(walks(r, y, v, y));
            }
        }
    } else {
        let a = v[0];
        let v1 = v.drop_first();
        let z = choose|z: usize| #[trigger] succ(dfa, e, a as int).contains(z) && walks(dfa, z as int, v1, d);
        let out = succ(dfa, e, a as int);
        assert(det_entry(r, labels, out, e, a as int));
        let jz = choose|j: int| 0 <= j < out.len() && out[j] == z;
        assert(out.len() == 1 && z == out[0]);
        lemma_det_walks(r, start, accept, labels, dfa, acc, z as int, v1, d);
        assert forall|y: int| 0 <= y < r.len() implies (#[trigger] labels[d].has(y) <==> exists|x: int|
            labels[e].has(x) && #[trigger] walks(r, x, v, y)) by {
            if labels[d].has(y) {
                let x = choose|x: int| labels[z as int].has(x) && #[trigger] walks(r, x, v1, y);
                lemma_walks_end(r, x, v1, y);
                assert(labels[z as int].has((x as usize) as int));
                assert(post_net(r, labels[e], a as int, x as usize));
                let s = choose|s: usize| #[trigger] labels[e].has(s as int) && s < r.len() && succ(r, s as int, a as int).contains(x as usize);
                assert(walks(r, s as int, v, y));
            }
            if exists|x: int| labels[e].has(x) && #[trigger] walks(r, x, v, y) {
                let x = choose|x: int| labels[e].has(x) && #[trigger] walks(r, x, v, y);
                let z2 = choose|z2: usize| #[trigger] succ(r, x, a as int).contains(z2) && walks(r, z2 as int, v1, y);
                assert(labels[e].has((x as usize) as int));
                assert(post_net(r, labels[e], a as int, z2));
                assert(labels[z as int].has(z2 as int));
            }
        }
        if v1.len() == 0 {
            let m = choose|m: usize| #[trigger] post_net(r, labels[e], a as int, m);
            let s = choose|s: usize| #[trigger] labels[e].has(s as int) && s < r.len() && succ(r, s as int, a as int).contains(m);
            let j = choose|j: int| 0 <= j < succ(r, s as int, a as int).len() && succ(r, s as int, a as int)[j] == m;
            assert(succ(r, s as int, a as int)[j] < r.len());
            assert(labels[d].has(m as int));
        }
    }
}

/// When a member of the set of node `e` reads a word, so does node `e` of the
/// subset construction.
proof fn lemma_det_walks_exist(
    r: Seq<[Vec<usize>; K]>,
    start: Seq<usize>,
    accept: Set<usize>,
    labels: Seq<BitSet>,
    dfa: Seq<[Vec<usize>; K]>,
    acc: Set<usize>,
    e: int,
    v: Seq<usize>,
    x: int,
    y: int,
)
    requires
        determinized(r, start, accept, labels, dfa, acc),
        net_wf(r),
        r.len() <= usize::MAX,
        0 <= e < dfa.len(),
        labels[e].has(x),
        walks(r, x, v, y),
    ensures
        exists|d: int| #[trigger] walks(dfa, e, v, d),
    decreases v.len(),
{
    if v.len() == 0 {
        assert(walks(dfa, e, v, e));
    } else {
        let a = v[0];
        let v1 = v.drop_first();
        let z2 = choose|z2: usize| #[trigger] succ(r, x, a as int).contains(z2) && walks(r, z2 as int, v1, y);
        assert(labels[e].has((x as usize) as int));
        assert(post_net(r, labels[e], a as int, z2));
        let out = succ(dfa, e, a as int);
        assert(det_entry(r, labels, out, e, a as int));
        assert(out.len() == 1);
        let z = out[0];
        assert(labels[z as int].has(z2 as int));
        lemma_det_walks_exist(r, start, accept, labels, dfa, acc, z as int, v1, z2 as int, y);
        let d = choose|d: int| #[trigger] walks(dfa, z as int, v1, d);
        assert(out.contains(z));
        assert(walks(dfa, e, v, d));
    }
}

/// Brzozowski's minimization keeps the words: from node 0, the minimized
/// network reads exactly the words that the network reads from some node
/// (every word, for a network with at least one node, along some edges).
pub proof fn law_brzozowski_language(r: Seq<[Vec<usize>; K]>, o: Seq<[Vec<usize>; K]>, w: Seq<usize>)
    requires
        net_wf(r),
        0 < r.len() <= usize::MAX,
        minimized(r, o),
    ensures
        (exists|y: int| #[trigger] walks(o, 0, w, y)) <==> (exists|x: int, y: int| #[trigger] walks(r, x, w, y)),
{
    let (start1, accept1, rev1, labels1, det1, acc1, rev2, start2, labels2, acc2) = choose|
        start1: Seq<usize>,
        accept1: Set<usize>,
        rev1: Seq<[Vec<usize>; K]>,
        labels1: Seq<BitSet>,
        det1: Seq<[Vec<usize>; K]>,
        acc1: Set<usize>,
        rev2: Seq<[Vec<usize>; K]>,
        start2: Seq<usize>,
        labels2: Seq<BitSet>,
        acc2: Set<usize>,
    | #[trigger] brzozowski_stages(r, start1, accept1, rev1, labels1, det1, acc1, rev2, start2, labels2, o, acc2);
    let n = r.len();
    lemma_reverses(r, rev1);
    lemma_determinized_wf(rev1, start1, accept1, labels1, det1, acc1);
    lemma_reverses(det1, rev2);
    assert(w.reverse().reverse() =~= w);
    if exists|y: int| #[trigger] walks(o, 0, w, y) {
        let f = choose|y: int| #[trigger] walks(o, 0, w, y);
        lemma_det_walks(rev2, start2, set![0usize], labels2, o, acc2, 0, w, f);
        // the set of node 0 is not empty: it holds det1's node 0, whose set holds every node
        assert(labels1[0].has(0int)) by {
            assert(start1.contains(0usize));
        }
        assert(acc1.contains(0usize)) by {
            assert(labels1[0int].has((0usize) as int) && accept1.contains(0usize));
        }
        let y2 = if w.len() > 0 {
            choose|y: int| 0 <= y < rev2.len() && #[trigger] labels2[f].has(y)
        } else {
            assert(labels2[0].has(0int)) by {
                assert(start2.contains(0usize));
            }
            0int
        };
        assert(labels2[f].has(y2));
        let xd = choose|x: int| labels2[0].has(x) && #[trigger] walks(rev2, x, w, y2);
        lemma_walks_end(rev2, xd, w, y2);
        assert(start2.contains(xd as usize));
        assert(acc1.contains(xd as usize));
        lemma_walks_reversed(det1, rev2, xd, w, y2);
        lemma_det_walks(rev1, start1, accept1, labels1, det1, acc1, y2, w.reverse(), xd);
        let k = choose|k: usize| #[trigger] labels1[xd].has(k as int) && accept1.contains(k);
        assert(labels1[xd].has(k as int));
        let s = choose|x: int| labels1[y2].has(x) && #[trigger] walks(rev1, x, w.reverse(), k as int);
        lemma_walks_reversed(r, rev1, s, w.reverse(), k as int);
        assert(walks(r, k as int, w, s));
    }
    if exists|x: int, y: int| #[trigger] walks(r, x, w, y) {
        let (x, y) = choose|x: int, y: int| #[trigger] walks(r, x, w, y);
        lemma_walks_end(r, x, w, y);
        lemma_walks_reversed(r, rev1, y, w.reverse(), x);
        assert(walks(rev1, y, w.reverse(), x));
        assert(labels1[0].has(y)) by {
            assert(start1.contains(y as usize));
        }
        lemma_det_walks_exist(rev1, start1, accept1, labels1, det1, acc1, 0, w.reverse(), y, x);
        let d = choose|d: int| #[trigger] walks(det1, 0, w.reverse(), d);
        lemma_det_walks(rev1, start1, accept1, labels1, det1, acc1, 0, w.reverse(), d);
        assert(labels1[d].has(x));
        assert(acc1.contains(d as usize)) by {
            assert(labels1[(d as usize) as int].has((x as usize) as int) && accept1.contains(x as usize));
        }
        lemma_walks_reversed(det1, rev2, d, w, 0);
        assert(labels2[0].has(d)) by {
            assert(start2.contains(d as usize));
        }
        lemma_det_walks_exist(rev2, start2, set![0usize], labels2, o, acc2, 0, w, d, 0);
    }
}

} // verus!
