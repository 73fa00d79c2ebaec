//! Code 20 on finite rows written with exclusive or and or, and a
//! breadth-first search that grows all candidate rows one cell at a time.
use vstd::prelude::*;
use crate::automaton::{first_nonzero_from, ca_step, padded, window_sum};

verus! {

/// Cell `i` of the row, dead outside it.
pub open spec fn cell(bv: Seq<u8>, i: int) -> u8 {
    if 0 <= i < bv.len() {
        bv[i]
    } else {
        0
    }
}

/// One step: each cell becomes the exclusive or of its five neighbours,
/// exclusive-ored with their or.
pub open spec fn xor_step(bv: Seq<u8>) -> Seq<u8> {
    Seq::new(
        bv.len(),
        |i: int|
            (cell(bv, i - 2) ^ cell(bv, i - 1) ^ cell(bv, i) ^ cell(bv, i + 1) ^ cell(bv, i + 2)) ^ (
            cell(bv, i - 2) | cell(bv, i - 1) | cell(bv, i) | cell(bv, i + 1) | cell(bv, i + 2)),
    )
}

/// The row after `t` steps.
pub open spec fn xor_iter(bv: Seq<u8>, t: nat) -> Seq<u8>
    decreases t,
{
    if t == 0 {
        bv
    } else {
        xor_step(xor_iter(bv, (t - 1) as nat))
    }
}

/// Every cell is 0 or 1.
pub open spec fn is_binary(bv: Seq<u8>) -> bool {
    forall|i: int| 0 <= i < bv.len() ==> #[trigger] bv[i] <= 1
}

/// Cell `i` of the row, dead outside it.
fn bvc(bv: &Vec<u8>, i: i32) -> (r: u8)
    ensures
        r == cell(bv@, i as int),
{
    if 0 <= i && (i as usize) < bv.len() {
        bv[i as usize]
    } else {
        0
    }
}

/// One step of Code 20, written with exclusive or and or.
fn step(bv: &Vec<u8>) -> (out: Vec<u8>)
    requires
        bv@.len() <= i32::MAX - 2,
    ensures
        out@ == xor_step(bv@),
{
    let n = bv.len() as i32;
    let mut out: Vec<u8> = Vec::new();
    let mut i: i32 = 0;
    while i < n
        invariant
            n == bv@.len(),
            n <= i32::MAX - 2,
            0 <= i <= n,
            out@.len() == i,
            forall|j: int| 0 <= j < i ==> #[trigger] out@[j] == xor_step(bv@)[j],
        decreases n - i,
    {
        let a = bvc(bv, i - 2);
        let b = bvc(bv, i - 1);
        let c = bvc(bv, i);
        let d = bvc(bv, i + 1);
        let e = bvc(bv, i + 2);
        out.push((a ^ b ^ c ^ d ^ e) ^ (a | b | c | d | e));
        i = i + 1;
    }
    assert(out@ =~= xor_step(bv@));
    out
}

/// The row after `t` steps.
fn steps(bv: Vec<u8>, t: u32) -> (o: Vec<u8>)
    requires
        bv@.len() <= i32::MAX - 2,
    ensures
        o@ == xor_iter(bv@, t as nat),
{
    let ghost start = bv@;
    let mut o = bv;
    for k in 0..t
        invariant
            o@ == xor_iter(start, k as nat),
            o@.len() == start.len(),
            start.len() <= i32::MAX - 2,
    {
        o = step(&o);
    }
    o
}

/// The row and its next `t` steps.
pub fn stepsall(bv: Vec<u8>, t: u32) -> (o: Vec<Vec<u8>>)
    requires
        bv@.len() <= i32::MAX - 2,
    ensures
        o@.len() == t + 1,
        forall|k: int| 0 <= k <= t ==> #[trigger] o@[k]@ == xor_iter(bv@, k as nat),
{
    let ghost start = bv@;
    let mut o: Vec<Vec<u8>> = vec![bv];
    for k in 0..t
        invariant
            o@.len() == k + 1,
            start.len() <= i32::MAX - 2,
            forall|j: int| 0 <= j <= k ==> #[trigger] o@[j]@ == xor_iter(start, j as nat),
            forall|j: int| 0 <= j <= k ==> #[trigger] o@[j]@.len() == start.len(),
    {
        let next = step(&o[o.len() - 1]);
        o.push(next);
    }
    o
}

/// The bits read as a number, the first bit least significant:
/// `(value of the rest) << 1 | first bit`.
pub open spec fn bits_value(bits: Seq<u8>) -> u64
    decreases bits.len(),
{
    if bits.len() == 0 {
        0
    } else {
        (bits_value(bits.drop_first()) << 1u64) | (bits[0] as u64)
    }
}

/// The cells as a number, the first cell the least significant bit.
pub fn vec_to_u64(bits: Vec<u8>) -> (result: u64)
    ensures
        result == bits_value(bits@),
{
    let mut result = 0u64;
    let mut i = bits.len();
    while i > 0
        invariant
            i <= bits@.len(),
            result == bits_value(bits@.subrange(i as int, bits@.len() as int)),
        decreases i,
    {
        i = i - 1;
        let bit = bits[i];
        proof {
            let rest = bits@.subrange(i as int, bits@.len() as int);
            assert(rest.drop_first() =~= bits@.subrange(i + 1, bits@.len() as int));
            assert(rest[0] == bit);
        }
        result = (result << 1) | (bit as u64);
    }
    assert(bits@.subrange(0, bits@.len() as int) =~= bits@);
    result
}

/// For cells that are 0 or 1, the exclusive-or form of a step is Code 20.
pub proof fn lemma_xor_step_is_code20(bv: Seq<u8>)
    requires
        is_binary(bv),
    ensures
        xor_step(bv) == ca_step(bv),
{
    assert forall|i: int| 0 <= i < bv.len() implies #[trigger] xor_step(bv)[i] == ca_step(bv)[i] by {
        let a = cell(bv, i - 2);
        let b = cell(bv, i - 1);
        let c = cell(bv, i);
        let d = cell(bv, i + 1);
        let e = cell(bv, i + 2);
        assert(a <= 1 && b <= 1 && c <= 1 && d <= 1 && e <= 1);
        assert(a as int == padded(bv, i - 2) && b as int == padded(bv, i - 1) && c as int == padded(bv, i)
            && d as int == padded(bv, i + 1) && e as int == padded(bv, i + 2));
        lemma_cells_formula(a, b, c, d, e);
    }
    assert(xor_step(bv) =~= ca_step(bv));
}

proof fn lemma_cells_formula(a: u8, b: u8, c: u8, d: u8, e: u8)
    requires
        a <= 1,
        b <= 1,
        c <= 1,
        d <= 1,
        e <= 1,
    ensures
        ((a ^ b ^ c ^ d ^ e) ^ (a | b | c | d | e)) == (if a + b + c + d + e == 2 || a + b + c + d + e == 4 {
            1u8
        } else {
            0u8
        }),
{
    assert(((a ^ b ^ c ^ d ^ e) ^ (a | b | c | d | e)) == (if a + b + c + d + e == 2 || a + b + c + d
        + e == 4 {
        1u8
    } else {
        0u8
    })) by (bit_vector)
        requires
            a <= 1,
            b <= 1,
            c <= 1,
            d <= 1,
            e <= 1,
    ;
}

/// The views of a list of rows.
pub open spec fn views(v: Seq<Vec<u8>>) -> Seq<Seq<u8>> {
    v.map_values(|r: Vec<u8>| r@)
}

/// The views after a push.
proof fn lemma_views_push(v: Seq<Vec<u8>>, x: Vec<u8>)
    ensures
        views(v.push(x)) == views(v).push(x@),
{
    assert(views(v.push(x)) =~= views(v).push(x@));
}

/// Filtering a prefix one element longer.
proof fn lemma_filter_take(s: Seq<Seq<u8>>, i: int, pred: spec_fn(Seq<u8>) -> bool)
    requires
        0 <= i < s.len(),
    ensures
        s.take(i + 1).filter(pred) == (if pred(s[i]) {
            s.take(i).filter(pred).push(s[i])
        } else {
            s.take(i).filter(pred)
        }),
{
    reveal(Seq::filter);
    assert(s.take(i + 1).drop_last() =~= s.take(i));
    assert(s.take(i + 1).last() == s[i]);
}

/// The index of the centre cell checked at a given depth.
pub open spec fn center_pos(depth: nat, p: nat) -> int {
    (depth + 2 * p + 1) as int
}

/// The centre check: before depth `2 p` the centre cell must die after `p`
/// steps; from then on it must come back to its value.
pub open spec fn center_keep(s: Seq<u8>, depth: nat, p: nat) -> bool {
    let cbp = center_pos(depth, p);
    if depth < 2 * p {
        xor_iter(s, p)[cbp] == 0
    } else {
        xor_iter(s, p)[cbp] == s[cbp]
    }
}

/// The or of cell `i` over the first `n` steps of `s`.
pub open spec fn or_rows(s: Seq<u8>, i: int, n: nat) -> u8
    decreases n,
{
    if n == 0 {
        0
    } else {
        or_rows(s, i, (n - 1) as nat) | xor_iter(s, (n - 1) as nat)[i]
    }
}

/// The cells below the centre that are alive in some of the first `p` steps.
pub open spec fn combined(s: Seq<u8>, p: nat, cbp: int) -> Seq<u8> {
    Seq::new(cbp as nat, |i: int| or_rows(s, i, p))
}

/// Cells `i`, `i + 1` and `i + 2` are all dead.
pub open spec fn dead3(s: Seq<u8>, i: int) -> bool {
    s[i] + s[i + 1] + s[i + 2] == 0
}

/// The shape check: from depth `2 p` on, some cell below the centre must live
/// during the period, and between the first and the last such cell the row
/// must have no three consecutive dead cells.
pub open spec fn other_keep(s: Seq<u8>, depth: nat, p: nat) -> bool {
    if depth < 2 * p {
        true
    } else {
        let cbp = center_pos(depth, p);
        let comb = combined(s, p, cbp);
        let l = first_nonzero_from(comb, 0);
        if l >= comb.len() {
            false
        } else {
            let r = comb.len() - 1 - first_nonzero_from(comb.reverse(), 0);
            forall|i: int| l <= i < r - 1 ==> !#[trigger] dead3(s, i)
        }
    }
}

/// Every row extended by a dead cell, then every row extended by a live one.
pub open spec fn debruijn(states: Seq<Seq<u8>>) -> Seq<Seq<u8>> {
    states.map_values(|s: Seq<u8>| s.push(0)) + states.map_values(|s: Seq<u8>| s.push(1))
}

/// One round of the search at a given depth.
pub open spec fn fsm_round(states: Seq<Seq<u8>>, depth: nat, p: nat) -> Seq<Seq<u8>> {
    debruijn(states).filter(|s: Seq<u8>| center_keep(s, depth, p)).filter(
        |s: Seq<u8>| other_keep(s, depth, p),
    )
}

/// The deepest depth the rows can reach before they no longer fit the step's `i32` indices.
pub open spec fn depth_limit(p: nat) -> int {
    i32::MAX - 4 * p - 4
}

/// The rows the search ends with, from `states` at `depth` with `prevlen`
/// rows kept in the round before.
pub open spec fn fsm_loop(states: Seq<Seq<u8>>, depth: nat, prevlen: nat, p: nat, max_iter: i32, max_solutions: i32) -> Seq<Seq<u8>>
    decreases depth_limit(p) - depth,
{
    let next = fsm_round(states, depth, p);
    if next.len() == prevlen || next.len() == 0 || depth + 1 >= depth_limit(p) {
        next
    } else if ((depth + 1) as i32) == max_iter {
        next
    } else if max_solutions >= 0 && (next.len() as i32) > max_solutions {
        next
    } else {
        fsm_loop(next, depth + 1, next.len(), p, max_iter, max_solutions)
    }
}

/// All rows are binary and `len` cells long.
pub open spec fn rows_shaped(states: Seq<Seq<u8>>, len: nat) -> bool {
    forall|i: int| 0 <= i < states.len() ==> #[trigger] states[i].len() == len && is_binary(states[i])
}

/// Every row extended by a dead cell, followed by copies extended by a live cell.
fn debruijn_shift(states: Vec<Vec<u8>>) -> (r: Vec<Vec<u8>>)
    ensures
        views(r@) == debruijn(views(states@)),
{
    let ghost sv = views(states@);
    let mut zeros: Vec<Vec<u8>> = Vec::new();
    let mut ones: Vec<Vec<u8>> = Vec::new();
    for i in 0..states.len()
        invariant
            sv == views(states@),
            views(zeros@) == sv.take(i as int).map_values(|s: Seq<u8>| s.push(0)),
            views(ones@) == sv.take(i as int).map_values(|s: Seq<u8>| s.push(1)),
    {
        let mut a = states[i].clone();
        a.push(0);
        let mut b = states[i].clone();
        b.push(1);
        proof {
            assert(sv[i as int] == states@[i as int]@);
        }
        let ghost zb = zeros@;
        let ghost ob = ones@;
        let ghost av = a@;
        let ghost bv = b@;
        zeros.push(a);
        ones.push(b);
        proof {
            lemma_views_push(zb, a);
            lemma_views_push(ob, b);
            assert(sv.take(i + 1).map_values(|s: Seq<u8>| s.push(0)) =~= sv.take(i as int).map_values(|s: Seq<u8>| s.push(0)).push(sv[i as int].push(0)));
            assert(sv.take(i + 1).map_values(|s: Seq<u8>| s.push(1)) =~= sv.take(i as int).map_values(|s: Seq<u8>| s.push(1)).push(sv[i as int].push(1)));
            assert(views(zeros@) =~= sv.take(i + 1).map_values(|s: Seq<u8>| s.push(0)));
            assert(views(ones@) =~= sv.take(i + 1).map_values(|s: Seq<u8>| s.push(1)));
        }
    }
    let ghost zv = views(zeros@);
    for i in 0..ones.len()
        invariant
            views(zeros@) == zv + views(ones@).take(i as int),
    {
        let x = ones[i].clone();
        let ghost zb = zeros@;
        zeros.push(x);
        proof {
            lemma_views_push(zb, x);
            assert(views(ones@)[i as int] == ones@[i as int]@);
            assert(views(ones@).take(i + 1) =~= views(ones@).take(i as int).push(views(ones@)[i as int]));
            assert(views(zeros@) =~= zv + views(ones@).take(i + 1));
        }
    }
    proof {
        assert(sv.take(sv.len() as int) =~= sv);
        assert(views(ones@).take(ones@.len() as int) =~= views(ones@));
        assert(views(zeros@) =~= debruijn(sv));
    }
    zeros
}

/// The rows that pass the centre check.
fn keep_center(states: Vec<Vec<u8>>, depth: u32, p: u32) -> (r: Vec<Vec<u8>>)
    requires
        rows_shaped(views(states@), (4 * p + 2 + depth) as nat),
        4 * p + 2 + depth <= i32::MAX - 2,
    ensures
        views(r@) == views(states@).filter(|s: Seq<u8>| center_keep(s, depth as nat, p as nat)),
        rows_shaped(views(r@), (4 * p + 2 + depth) as nat),
{
    let ghost sv = views(states@);
    let ghost pred = |s: Seq<u8>| center_keep(s, depth as nat, p as nat);
    let cbp = (depth + 2 * p) as usize + 1;
    let mut out: Vec<Vec<u8>> = Vec::new();
    for i in 0..states.len()
        invariant
            sv == views(states@),
            rows_shaped(sv, (4 * p + 2 + depth) as nat),
            4 * p + 2 + depth <= i32::MAX - 2,
            cbp == center_pos(depth as nat, p as nat),
            pred == (|s: Seq<u8>| center_keep(s, depth as nat, p as nat)),
            views(out@) == sv.take(i as int).filter(pred),
            rows_shaped(views(out@), (4 * p + 2 + depth) as nat),
    {
        let s = &states[i];
        proof {
            assert(sv[i as int] == s@);
            assert(s@.len() == 4 * p + 2 + depth);
            lemma_filter_take(sv, i as int, pred);
            lemma_xor_iter_len(s@, p as nat);
        }
        let o = steps(s.clone(), p);
        let keep = if depth < 2 * p {
            o[cbp] == 0
        } else {
            o[cbp] == s[cbp]
        };
        let ghost ob = out@;
        if keep {
            let c = s.clone();
            out.push(c);
            proof {
                lemma_views_push(ob, c);
            }
        }
        proof {
            assert(pred(sv[i as int]) == center_keep(sv[i as int], depth as nat, p as nat));
            assert(o@[cbp as int] == xor_iter(s@, p as nat)[cbp as int]);
            assert(keep == pred(sv[i as int]));
            assert(views(out@) =~= sv.take(i + 1).filter(pred));
        }
    }
    proof {
        assert(sv.take(sv.len() as int) =~= sv);
    }
    out
}

/// A stepped row keeps its length.
proof fn lemma_xor_iter_len(s: Seq<u8>, t: nat)
    ensures
        xor_iter(s, t).len() == s.len(),
    decreases t,
{
    if t > 0 {
        lemma_xor_iter_len(s, (t - 1) as nat);
    }
}

/// A stepped binary row stays binary.
proof fn lemma_xor_iter_binary(s: Seq<u8>, t: nat)
    requires
        is_binary(s),
    ensures
        is_binary(xor_iter(s, t)),
    decreases t,
{
    if t > 0 {
        lemma_xor_iter_binary(s, (t - 1) as nat);
        let prev = xor_iter(s, (t - 1) as nat);
        assert forall|i: int| 0 <= i < xor_iter(s, t).len() implies #[trigger] xor_iter(s, t)[i] <= 1 by {
            let a = cell(prev, i - 2);
            let b = cell(prev, i - 1);
            let c = cell(prev, i);
            let d = cell(prev, i + 1);
            let e = cell(prev, i + 2);
            lemma_cells_formula(a, b, c, d, e);
        }
    }
}

/// Whether the row passes the shape check.
fn shape_ok(s: &Vec<u8>, depth: u32, p: u32) -> (r: bool)
    requires
        s@.len() == 4 * p + 2 + depth,
        is_binary(s@),
        1 <= p,
        4 * p + 2 + depth <= i32::MAX - 2,
    ensures
        r == other_keep(s@, depth as nat, p as nat),
{
    let o: Vec<Vec<u8>> = stepsall(s.clone(), p - 1);

    if depth < 2 * p {
        return true;
    }
    let cbp = (depth + 2 * p) as usize + 1;

    // The or over the first p rows of each cell below the centre.
    let mut combined_v: Vec<u8> = Vec::new();
    for i in 0..cbp
        invariant
            o@.len() == p,
            cbp == center_pos(depth as nat, p as nat),
            cbp < s@.len(),
            forall|k: int| 0 <= k < p ==> #[trigger] o@[k]@ == xor_iter(s@, k as nat),
            combined_v@.len() == i,
            forall|j: int| 0 <= j < i ==> #[trigger] combined_v@[j] == or_rows(s@, j, p as nat),
    {
        let mut acc: u8 = 0;
        for j in 0..p as usize
            invariant
                o@.len() == p,
                i < cbp,
                cbp < s@.len(),
                forall|k: int| 0 <= k < p ==> #[trigger] o@[k]@ == xor_iter(s@, k as nat),
                acc == or_rows(s@, i as int, j as nat),
        {
            proof {
                lemma_xor_iter_len(s@, j as nat);
            }
            acc = acc | o[j][i];
        }
        combined_v.push(acc);
    }
    let ghost comb = combined(s@, p as nat, cbp as int);
    assert(combined_v@ =~= comb);

    let mut left: usize = 0;
    while left < cbp && combined_v[left] == 0
        invariant
            left <= cbp,
            combined_v@.len() == cbp,
            forall|j: int| 0 <= j < left ==> combined_v@[j] == 0,
        decreases cbp - left,
    {
        left = left + 1;
    }
    proof {
        crate::automaton::lemma_first_nonzero_from(comb, 0);
        let f = first_nonzero_from(comb, 0);
        if f < left {
            assert(comb[f] == 0);
        }
        if left < f && left < cbp {
            assert(comb[left as int] == 0);
        }
        assert(left == f);
    }
    if left >= cbp {
        return false;
    }
    let mut right: usize = cbp;
    while right > 0 && combined_v[right - 1] == 0
        invariant
            right <= cbp,
            combined_v@.len() == cbp,
            forall|j: int| right <= j < cbp ==> combined_v@[j] == 0,
        decreases right,
    {
        right = right - 1;
    }
    proof {
        crate::automaton::lemma_first_nonzero_from(comb.reverse(), 0);
        let rv = comb.reverse();
        let f = first_nonzero_from(rv, 0);
        assert(cbp - right == f) by {
            if f < cbp - right {
                assert(rv[f] == comb[cbp - 1 - f]);
            }
            if cbp - right < f {
                assert(rv[cbp - right] == comb[right - 1]);
            }
        }
    }
    let r = right - 1;

    let mut any = false;
    if r >= 1 {
        let mut i = left;
        while i < r - 1
            invariant
                1 <= r,
                left <= i,
                i <= r - 1 || i == left,
                r < s@.len(),
                is_binary(s@),
                any == exists|m: int| left <= m < i && #[trigger] dead3(s@, m),
            decreases r - i,
        {
            let a = s[i];
            let b = s[i + 1];
            let c = s[i + 2];
            proof {
                assert(a <= 1 && b <= 1 && c <= 1);
            }
            any = any || a + b + c == 0;
            proof {
                assert(dead3(s@, i as int) == (a + b + c == 0));
            }
            i = i + 1;
        }
        proof {
            if any {
                let m = choose|m: int| left <= m < i && #[trigger] dead3(s@, m);
                assert(m < r - 1);
            }
        }
    }
    proof {
        assert(cbp as int == center_pos(depth as nat, p as nat));
        assert(depth >= 2 * p);
        let comb2 = combined(s@, p as nat, center_pos(depth as nat, p as nat));
        assert(comb2 == comb);
        assert(first_nonzero_from(comb, 0) == left);
        let rr = comb.len() - 1 - first_nonzero_from(comb.reverse(), 0);
        assert(rr == r);
        if !any {
            assert forall|m: int| left <= m < r - 1 implies !#[trigger] dead3(s@, m) by {
            }
        }
        assert(!any == other_keep(s@, depth as nat, p as nat));
    }
    !any
}

/// The rows that pass the shape check.
fn keep_other(states: Vec<Vec<u8>>, depth: u32, p: u32) -> (r: Vec<Vec<u8>>)
    requires
        rows_shaped(views(states@), (4 * p + 2 + depth) as nat),
        1 <= p,
        4 * p + 2 + depth <= i32::MAX - 2,
    ensures
        views(r@) == views(states@).filter(|s: Seq<u8>| other_keep(s, depth as nat, p as nat)),
        rows_shaped(views(r@), (4 * p + 2 + depth) as nat),
{
    let ghost sv = views(states@);
    let ghost pred = |s: Seq<u8>| other_keep(s, depth as nat, p as nat);
    let mut out: Vec<Vec<u8>> = Vec::new();
    for i in 0..states.len()
        invariant
            sv == views(states@),
            rows_shaped(sv, (4 * p + 2 + depth) as nat),
            1 <= p,
            4 * p + 2 + depth <= i32::MAX - 2,
            pred == (|s: Seq<u8>| other_keep(s, depth as nat, p as nat)),
            views(out@) == sv.take(i as int).filter(pred),
            rows_shaped(views(out@), (4 * p + 2 + depth) as nat),
    {
        let s = &states[i];
        proof {
            assert(sv[i as int] == s@);
            lemma_filter_take(sv, i as int, pred);
        }
        let keep = shape_ok(s, depth, p);
        let ghost ob = out@;
        if keep {
            let c = s.clone();
            out.push(c);
            proof {
                lemma_views_push(ob, c);
            }
        }
        proof {
            assert(pred(sv[i as int]) == other_keep(sv[i as int], depth as nat, p as nat));
            assert(keep == pred(sv[i as int]));
            assert(views(out@) =~= sv.take(i + 1).filter(pred));
        }
    }
    proof {
        assert(sv.take(sv.len() as int) =~= sv);
    }
    out
}

/// `n` dead cells.
fn dead_row(n: usize) -> (r: Vec<u8>)
    ensures
        r@ == crate::automaton::zeros(n as nat),
{
    let mut r: Vec<u8> = Vec::new();
    for i in 0..n
        invariant
            r@ == crate::automaton::zeros(i as nat),
    {
        r.push(0);
        proof {
            assert(r@ =~= crate::automaton::zeros((i + 1) as nat));
        }
    }
    r
}

/// Extending every row by one cell keeps the rows binary and one cell longer.
proof fn lemma_debruijn_shaped(states: Seq<Seq<u8>>, len: nat)
    requires
        rows_shaped(states, len),
    ensures
        rows_shaped(debruijn(states), len + 1),
{
    let d = debruijn(states);
    assert forall|i: int| 0 <= i < d.len() implies #[trigger] d[i].len() == len + 1 && is_binary(d[i]) by {
        if i < states.len() {
            assert(d[i] == states[i].push(0));
        } else {
            assert(d[i] == states[i - states.len()].push(1));
        }
    }
}

/// Breadth-first search for rows of period `p`: starting from a row of
/// `4 p + 1` dead cells, every round extends all rows by one cell both ways
/// and keeps those that pass the centre and shape checks. The search stops
/// when a round keeps no row or as many rows as the round before, after
/// `max_iter` rounds, when more than `max_solutions` rows are kept (if
/// `max_solutions` is not negative), or when the rows would outgrow the
/// `i32` cell indices of a step.
pub fn finitestatemachine(p: u32, max_iter: i32, max_solutions: i32) -> (states: Vec<Vec<u8>>)
    requires
        1 <= p,
        4 * p + 8 <= i32::MAX,
    ensures
        views(states@) == fsm_loop(seq![crate::automaton::zeros((4 * p + 1) as nat)], 0, 0, p as nat, max_iter, max_solutions),
{
    let ghost init = seq![crate::automaton::zeros((4 * p + 1) as nat)];
    let first = dead_row(4 * p as usize + 1);
    let mut states: Vec<Vec<u8>> = vec![first];
    let mut depth: u32 = 0;

    let mut prevlen: usize = 0;
    let limit: u32 = (i32::MAX as u32) - 4 * p - 4;
    proof {
        assert(views(states@) =~= init);
        assert(rows_shaped(init, (4 * p + 1) as nat));
    }

    loop
        invariant_except_break
            1 <= p,
            4 * p + 8 <= i32::MAX,
            limit == depth_limit(p as nat),
            depth < limit,
            rows_shaped(views(states@), (4 * p + 1 + depth) as nat),
            fsm_loop(init, 0, 0, p as nat, max_iter, max_solutions) == fsm_loop(views(states@), depth as nat, prevlen as nat, p as nat, max_iter, max_solutions),
        ensures
            views(states@) == fsm_loop(init, 0, 0, p as nat, max_iter, max_solutions),
        decreases limit - depth,
    {
        let ghost before = views(states@);
        let ghost d = depth as nat;
        let ghost pl = prevlen as nat;
        proof {
            lemma_debruijn_shaped(before, (4 * p + 1 + depth) as nat);
        }

        // DeBruijn Shift
        states = debruijn_shift(states);

        // Center Invariance
        states = keep_center(states, depth, p);

        // Other constraints
        states = keep_other(states, depth, p);
        proof {
            assert(views(states@) == fsm_round(before, d, p as nat));
        }

        // End
        if states.len() == prevlen || states.len() == 0 || depth + 1 >= limit {
            break;
        }
        prevlen = states.len();

        depth += 1;

        if depth as i32 == max_iter {
            break;
        }
        if max_solutions >= 0 && (states.len() as i32) > max_solutions {
            break;
        }
    }

    states
}

/// An or of two cells is dead exactly when both are.
proof fn lemma_or_dead(x: u8, y: u8)
    by (bit_vector)
    ensures
        ((x | y) == 0) == (x == 0 && y == 0),
{
}

/// The or of cell `i` over the first `n` steps is live exactly when the cell
/// is live in one of them.
proof fn lemma_or_rows_live(s: Seq<u8>, i: int, n: nat)
    ensures
        (or_rows(s, i, n) != 0) == exists|t: nat| t < n && #[trigger] xor_iter(s, t)[i] != 0,
    decreases n,
{
    if n > 0 {
        let m = (n - 1) as nat;
        lemma_or_rows_live(s, i, m);
        lemma_or_dead(or_rows(s, i, m), xor_iter(s, m)[i]);
        if exists|t: nat| t < n && #[trigger] xor_iter(s, t)[i] != 0 {
            let t = choose|t: nat| t < n && #[trigger] xor_iter(s, t)[i] != 0;
            if t < m {
                assert(or_rows(s, i, m) != 0);
            }
        }
    }
}

/// Cell `c`, below the centre checked at `depth`, is live in some step among
/// the first `p` of the row `s`.
pub open spec fn live_below_centre(s: Seq<u8>, depth: nat, p: nat, c: int) -> bool {
    0 <= c < depth + 2 * p + 1 && exists|t: nat| t < p && #[trigger] xor_iter(s, t)[c] != 0
}

/// The shape check said directly: from depth `2 p` on, some cell below the
/// centre is live during the period, and no three consecutive cells of the
/// row are dead where a cell live during the period lies at or before the
/// first of them and another at or after the last.
pub proof fn lemma_shape_check(s: Seq<u8>, depth: nat, p: nat)
    ensures
        other_keep(s, depth, p) == (depth >= 2 * p ==> (exists|c: int| #[trigger] live_below_centre(s, depth, p, c))
            && forall|i: int, a: int, b: int|
            #![trigger live_below_centre(s, depth, p, a), live_below_centre(s, depth, p, b), s[i]]
            live_below_centre(s, depth, p, a) && live_below_centre(s, depth, p, b) && a <= i && i + 2 <= b ==> !(
            s[i] == 0 && s[i + 1] == 0 && s[i + 2] == 0)),
{
    if depth >= 2 * p {
        let cbp = center_pos(depth, p);
        let comb = combined(s, p, cbp);
        assert forall|c: int| 0 <= c < cbp implies (comb[c] != 0) == #[trigger] live_below_centre(s, depth, p, c) by {
            lemma_or_rows_live(s, c, p);
        }
        crate::automaton::lemma_first_nonzero_from(comb, 0);
        let l = first_nonzero_from(comb, 0);
        if l >= comb.len() {
            if exists|c: int| #[trigger] live_below_centre(s, depth, p, c) {
                let c = choose|c: int| #[trigger] live_below_centre(s, depth, p, c);
                assert(comb[c] == 0);
            }
        } else {
            let rv = comb.reverse();
            crate::automaton::lemma_first_nonzero_from(rv, 0);
            let f = first_nonzero_from(rv, 0);
            assert(f < rv.len()) by {
                assert(rv[cbp - 1 - l] == comb[l]);
            }
            let rr = comb.len() - 1 - f;
            assert(rv[f] == comb[rr]);
            assert(live_below_centre(s, depth, p, l));
            assert(live_below_centre(s, depth, p, rr));
            assert forall|c: int| #[trigger] live_below_centre(s, depth, p, c) implies l <= c <= rr by {
                if c < l {
                    assert(comb[c] == 0);
                }
                if c > rr {
                    assert(rv[cbp - 1 - c] == comb[c]);
                    assert(rv[cbp - 1 - c] == 0);
                }
            }
            if other_keep(s, depth, p) {
                assert forall|i: int, a: int, b: int|
                    #![trigger live_below_centre(s, depth, p, a), live_below_centre(s, depth, p, b), s[i]]
                    live_below_centre(s, depth, p, a) && live_below_centre(s, depth, p, b) && a <= i && i + 2 <= b implies !(
                    s[i] == 0 && s[i + 1] == 0 && s[i + 2] == 0) by {
                    assert(!dead3(s, i));
                }
            } else {
                let i = choose|i: int| l <= i < rr - 1 && #[trigger] dead3(s, i);
                assert(live_below_centre(s, depth, p, l) && live_below_centre(s, depth, p, rr) && l <= i && i + 2 <= rr);
                assert(s[i] == 0 && s[i + 1] == 0 && s[i + 2] == 0);
            }
        }
    }
}

/// The rows a round keeps at `depth`: exactly the rows made by extending a
/// row of `states` by one dead or live cell, whose cell `depth + 2 p + 1`
/// after `p` steps of Code 20 is dead before depth `2 p`, and from depth
/// `2 p` on is what it was, and that, from depth `2 p` on, have a cell below
/// that centre live during the first `p` steps and no three consecutive dead
/// cells between two such cells.
pub proof fn law_fsm_round_members(states: Seq<Seq<u8>>, depth: nat, p: nat, s: Seq<u8>)
    ensures
        fsm_round(states, depth, p).contains(s) <==> {
            &&& exists|i: int, b: u8| 0 <= i < states.len() && b <= 1 && s == #[trigger] states[i].push(b)
            &&& depth < 2 * p ==> xor_iter(s, p)[(depth + 2 * p + 1) as int] == 0
            &&& depth >= 2 * p ==> xor_iter(s, p)[(depth + 2 * p + 1) as int] == s[(depth + 2 * p + 1) as int]
            &&& depth >= 2 * p ==> (exists|c: int| #[trigger] live_below_centre(s, depth, p, c)) && forall|i: int, a: int, b: int|
                #![trigger live_below_centre(s, depth, p, a), live_below_centre(s, depth, p, b), s[i]]
                live_below_centre(s, depth, p, a) && live_below_centre(s, depth, p, b) && a <= i && i + 2 <= b ==> !(
                s[i] == 0 && s[i + 1] == 0 && s[i + 2] == 0)
        },
{
    broadcast use vstd::seq_lib::group_filter_ensures;

    lemma_shape_check(s, depth, p);
    let d = debruijn(states);
    let c = |x: Seq<u8>| center_keep(x, depth, p);
    let o = |x: Seq<u8>| other_keep(x, depth, p);
    let f1 = d.filter(c);
    let f2 = f1.filter(o);
    assert(f2 == fsm_round(states, depth, p));
    let n = states.len();
    assert(d.len() == 2 * n);
    if f2.contains(s) {
        let k = choose|k: int| 0 <= k < f2.len() && f2[k] == s;
        assert(o(f2[k]));
        f1.lemma_filter_contains_rev(o, s);
        assert(f1.contains(s));
        let m = choose|m: int| 0 <= m < f1.len() && f1[m] == s;
        assert(c(f1[m]));
        d.lemma_filter_contains_rev(c, s);
        assert(d.contains(s));
        let j = choose|j: int| 0 <= j < d.len() && d[j] == s;
        if j < n {
            assert(d[j] == states[j].push(0));
            assert(s == states[j].push(0u8));
        } else {
            assert(d[j] == states[j - n].push(1));
            assert(s == states[j - n].push(1u8));
        }
    }
    if (exists|i: int, b: u8| 0 <= i < states.len() && b <= 1 && s == #[trigger] states[i].push(b)) && c(s) && o(s) {
        let (i, b) = choose|i: int, b: u8| 0 <= i < states.len() && b <= 1 && s == #[trigger] states[i].push(b);
        let j = if b == 0 { i } else { i + n };
        if b == 0 {
            assert(d[j] == states[i].push(0));
        } else {
            assert(d[j] == states[i].push(1));
        }
        assert(d[j] == s);
        d.lemma_filter_contains(c, j);
        let m = choose|m: int| 0 <= m < f1.len() && f1[m] == s;
        f1.lemma_filter_contains(o, m);
    }
}

/// Every row the search ends with, from rows of `4 p + 1 + depth` cells,
/// passed the centre check of the round that kept it: with `d` the depth of
/// that round (the row has `4 p + 2 + d` cells), its cell `d + 2 p + 1` after
/// `p` steps of Code 20 is dead when `d < 2 p`, and is what it was otherwise.
pub proof fn law_fsm_rows_centre(
    states: Seq<Seq<u8>>,
    depth: nat,
    prevlen: nat,
    p: nat,
    max_iter: i32,
    max_solutions: i32,
)
    requires
        rows_shaped(states, 4 * p + 1 + depth),
    ensures
        forall|i: int|
            0 <= i < fsm_loop(states, depth, prevlen, p, max_iter, max_solutions).len() ==> {
                let s = #[trigger] fsm_loop(states, depth, prevlen, p, max_iter, max_solutions)[i];
                let d = s.len() - 4 * p - 2;
                &&& d >= depth
                &&& d < 2 * p ==> xor_iter(s, p)[d + 2 * p + 1] == 0
                &&& d >= 2 * p ==> xor_iter(s, p)[d + 2 * p + 1] == s[d + 2 * p + 1]
            },
    decreases depth_limit(p) - depth,
{
    let next = fsm_round(states, depth, p);
    lemma_debruijn_shaped(states, 4 * p + 1 + depth);
    assert forall|i: int| 0 <= i < next.len() implies {
        let s = #[trigger] next[i];
        &&& s.len() == 4 * p + 2 + depth
        &&& depth < 2 * p ==> xor_iter(s, p)[(depth + 2 * p + 1) as int] == 0
        &&& depth >= 2 * p ==> xor_iter(s, p)[(depth + 2 * p + 1) as int] == s[(depth + 2 * p + 1) as int]
    } by {
        let s = next[i];
        assert(next.contains(s));
        law_fsm_round_members(states, depth, p, s);
        let (j, b) = choose|j: int, b: u8| 0 <= j < states.len() && b <= 1 && s == #[trigger] states[j].push(b);
        assert(states[j].len() == 4 * p + 1 + depth);
    }
    let res = fsm_loop(states, depth, prevlen, p, max_iter, max_solutions);
    if next.len() == prevlen || next.len() == 0 || depth + 1 >= depth_limit(p) || ((depth + 1) as i32) == max_iter || (
    max_solutions >= 0 && (next.len() as i32) > max_solutions) {
        assert(res == next);
        assert forall|i: int| 0 <= i < res.len() implies {
            let s = #[trigger] res[i];
            let d = s.len() - 4 * p - 2;
            &&& d >= depth
            &&& d < 2 * p ==> xor_iter(s, p)[d + 2 * p + 1] == 0
            &&& d >= 2 * p ==> xor_iter(s, p)[d + 2 * p + 1] == s[d + 2 * p + 1]
        } by {
            assert(res[i] == next[i]);
        }
    } else {
        assert(rows_shaped(next, 4 * p + 1 + (depth + 1))) by {
            assert forall|i: int| 0 <= i < next.len() implies #[trigger] next[i].len() == 4 * p + 1 + (depth + 1)
                && is_binary(next[i]) by {
                let s = next[i];
                assert(next.contains(s));
                law_fsm_round_members(states, depth, p, s);
                let (j, b) = choose|j: int, b: u8| 0 <= j < states.len() && b <= 1 && s == #[trigger] states[j].push(b);
                assert(states[j].len() == 4 * p + 1 + depth && is_binary(states[j]));
                assert forall|k: int| 0 <= k < s.len() implies #[trigger] s[k] <= 1 by {
                    if k < states[j].len() {
                        assert(s[k] == states[j][k]);
                    }
                }
            }
        }
        law_fsm_rows_centre(next, depth + 1, next.len(), p, max_iter, max_solutions);
        assert(res == fsm_loop(next, depth + 1, next.len(), p, max_iter, max_solutions));
    }
}

} // verus!
