//! The search tree of the depth-first search for periodic Code 20 rows, as
//! rows of cells: where the search stops, how many nodes it visits and which
//! rows it finds.
use vstd::prelude::*;
use crate::int_u1024::{Int, U1024};
use crate::search::{code20_cell, evolve_bit, gaps_at_most};
use crate::bits::{limb_bit, lemma_limbs_ext};

verus! {

/// The cells of `n` as a row: cell `k` alive when bit `k` is set.
pub open spec fn bits_of(n: U1024) -> spec_fn(int) -> bool {
    |k: int| n.bit(k)
}

/// The row `r` with cell `c` made alive as well.
pub open spec fn with_cell(r: spec_fn(int) -> bool, c: int) -> spec_fn(int) -> bool {
    |k: int| r(k) || k == c
}

/// The row whose only live cell is `c`.
pub open spec fn single_cell(c: int) -> spec_fn(int) -> bool {
    |k: int| k == c
}

/// The state of cell `k` after `t` steps of Code 20 from the row `r`, of
/// which only the cells `0..1024` count.
pub open spec fn evo(r: spec_fn(int) -> bool, t: nat, k: int) -> bool
    decreases t,
{
    if !(0 <= k < 1024) {
        false
    } else if t == 0 {
        r(k)
    } else {
        let s = (t - 1) as nat;
        code20_cell(evo(r, s, k - 2), evo(r, s, k - 1), evo(r, s, k), evo(r, s, k + 1), evo(r, s, k + 2))
    }
}

/// The evolution of a number's bits is that of its row.
pub proof fn lemma_evo_bits(n: U1024, t: nat)
    ensures
        forall|k: int| #[trigger] evolve_bit(n, t, k) == evo(bits_of(n), t, k),
    decreases t,
{
    if t > 0 {
        lemma_evo_bits(n, (t - 1) as nat);
    }
    assert forall|k: int| #[trigger] evolve_bit(n, t, k) == evo(bits_of(n), t, k) by {
        if t > 0 && 0 <= k < 1024 {
            let s = (t - 1) as nat;
            assert(evolve_bit(n, s, k - 2) == evo(bits_of(n), s, k - 2));
            assert(evolve_bit(n, s, k - 1) == evo(bits_of(n), s, k - 1));
            assert(evolve_bit(n, s, k) == evo(bits_of(n), s, k));
            assert(evolve_bit(n, s, k + 1) == evo(bits_of(n), s, k + 1));
            assert(evolve_bit(n, s, k + 2) == evo(bits_of(n), s, k + 2));
        }
    }
}

/// The lowest `len - 2 p + 1` cells of `r` are back after `p` steps.
pub open spec fn low_cells_return(r: spec_fn(int) -> bool, len: nat, p: nat) -> bool {
    forall|k: int| 0 <= k < len - 2 * p + 1 ==> #[trigger] evo(r, p, k) == evo(r, 0, k)
}

/// The lowest `len - 2 p + 1` cells that are alive in some row among steps `1..=p`.
pub open spec fn collected_cells(r: spec_fn(int) -> bool, len: nat, p: nat) -> spec_fn(int) -> bool {
    |k: int| 0 <= k < 1024 && k < len - 2 * p + 1 && exists|t: nat| 1 <= t <= p && #[trigger] evo(r, t, k)
}

/// Every gap of dead cells between two consecutive live cells of `c` (among
/// `0..1024`) is at most `max` long.
pub open spec fn gaps_within(c: spec_fn(int) -> bool, max: int) -> bool {
    forall|i: int, j: int|
        #![trigger c(i), c(j)]
        0 <= i < j < 1024 && c(i) && c(j) && (forall|m: int| i < m < j ==> !#[trigger] c(m)) ==> j - i - 1 <= max
}

/// The gaps of a number's bits are those of its row.
pub proof fn lemma_gaps_bits(n: U1024, max: int)
    ensures
        gaps_at_most(n, max) == gaps_within(bits_of(n), max),
{
    let c = bits_of(n);
    if gaps_at_most(n, max) {
        assert forall|i: int, j: int|
            #![trigger c(i), c(j)]
            0 <= i < j < 1024 && c(i) && c(j) && (forall|m: int| i < m < j ==> !#[trigger] c(m)) implies j - i - 1
                <= max by {
            assert(n.bit(i) && n.bit(j));
            assert forall|m: int| i < m < j implies !#[trigger] n.bit(m) by {
                assert(!c(m));
            }
        }
    }
    if gaps_within(c, max) {
        assert forall|i: int, j: int|
            #![trigger n.bit(i), n.bit(j)]
            0 <= i < j < 1024 && n.bit(i) && n.bit(j) && (forall|m: int| i < m < j ==> !#[trigger] n.bit(m))
                implies j - i - 1 <= max by {
            assert(c(i) && c(j));
            assert forall|m: int| i < m < j implies !#[trigger] c(m) by {
                assert(!n.bit(m));
            }
        }
    }
}

/// The row `r` comes back after `p` steps.
pub open spec fn returns_after(r: spec_fn(int) -> bool, p: nat) -> bool {
    forall|k: int| 0 <= k < 1024 ==> #[trigger] evo(r, p, k) == evo(r, 0, k)
}

/// The row `r` does not come back after any number of steps in `1..p`.
pub open spec fn no_earlier_return(r: spec_fn(int) -> bool, p: nat) -> bool {
    forall|j: nat| 0 < j < p ==> !#[trigger] returns_after(r, j)
}

/// The search stops at the row `r` with highest possible cell `len`: the
/// depth is exhausted, the low cells do not come back, a gap among the cells
/// alive along the way is longer than two, or the row comes back whole.
pub open spec fn search_stops(r: spec_fn(int) -> bool, len: nat, p: nat) -> bool {
    ||| len + 2 * p + 5 > 1024
    ||| !low_cells_return(r, len, p)
    ||| !gaps_within(collected_cells(r, len, p), 2)
    ||| returns_after(r, p)
}

/// The number of search nodes visited from the row `r` with highest possible
/// cell `len`: one, and where the search goes on, those below the row without
/// and with cell `len + 1` alive, added with wrapping.
pub open spec fn search_nodes(r: spec_fn(int) -> bool, len: nat, p: nat) -> u64
    decreases 1024 - len,
{
    if search_stops(r, len, p) {
        1
    } else {
        vstd::wrapping::u64_specs::wrapping_add(
            vstd::wrapping::u64_specs::wrapping_add(1, search_nodes(r, len + 1, p)),
            search_nodes(with_cell(r, (len + 1) as int), len + 1, p),
        )
    }
}

/// The rows found from the row `r` with highest possible cell `len`, in the
/// order the search meets them: a row where the search stops because it comes
/// back whole, and only after `p` steps, not sooner.
pub open spec fn search_found(r: spec_fn(int) -> bool, len: nat, p: nat) -> Seq<spec_fn(int) -> bool>
    decreases 1024 - len,
{
    if search_stops(r, len, p) {
        if len + 2 * p + 5 <= 1024 && low_cells_return(r, len, p) && gaps_within(collected_cells(r, len, p), 2)
            && returns_after(r, p) && no_earlier_return(r, p) {
            seq![r]
        } else {
            Seq::empty()
        }
    } else {
        search_found(r, len + 1, p) + search_found(with_cell(r, (len + 1) as int), len + 1, p)
    }
}

/// `sol` is row `j` of the evolution of `r`, mirrored when `mirrored`, moved down by `s` bits.
pub open spec fn row_image_at(sol: U1024, r: spec_fn(int) -> bool, j: nat, s: int, mirrored: bool) -> bool {
    forall|k: int|
        0 <= k < 1024 ==> #[trigger] sol.bit(k) == (if mirrored {
            evo(r, j, 1023 - (k + s))
        } else {
            evo(r, j, k + s)
        })
}

/// `sol` is one of the first `p` rows of the evolution of `r`, maybe mirrored,
/// moved down by some number of bits.
pub open spec fn row_image(sol: U1024, r: spec_fn(int) -> bool, p: nat) -> bool {
    exists|j: nat, s: int, mirrored: bool| j < p && 0 <= s && #[trigger] row_image_at(sol, r, j, s, mirrored)
}

/// The entries of `after` past `before` are, in order, the reported forms of
/// the rows `rows` (images of them, see `reported_form`), each with period `p`.
pub open spec fn found_rows(before: Seq<(Int, usize)>, after: Seq<(Int, usize)>, rows: Seq<spec_fn(int) -> bool>, p: usize) -> bool {
    &&& after.len() == before.len() + rows.len()
    &&& forall|i: int| 0 <= i < before.len() ==> #[trigger] after[i] == before[i]
    &&& forall|i: int|
        0 <= i < rows.len() ==> #[trigger] after[before.len() + i].1 == p && row_image(
            after[before.len() + i].0,
            rows[i],
            p as nat,
        ) && reported_form(after[before.len() + i].0, rows[i], p as nat)
}

/// The evolution of a number's bits is that of its row, at every step.
pub proof fn lemma_evo_bits_all(n: U1024)
    ensures
        forall|t: nat, k: int| #[trigger] evolve_bit(n, t, k) == evo(bits_of(n), t, k),
{
    assert forall|t: nat, k: int| #[trigger] evolve_bit(n, t, k) == evo(bits_of(n), t, k) by {
        lemma_evo_bits(n, t);
    }
}

/// The entries found below two children, one after the other, are those
/// found below both.
pub proof fn lemma_found_rows_concat(
    f0: Seq<(Int, usize)>,
    f1: Seq<(Int, usize)>,
    f2: Seq<(Int, usize)>,
    a: Seq<spec_fn(int) -> bool>,
    b: Seq<spec_fn(int) -> bool>,
    p: usize,
)
    requires
        found_rows(f0, f1, a, p),
        found_rows(f1, f2, b, p),
    ensures
        found_rows(f0, f2, a + b, p),
{
    assert forall|i: int| 0 <= i < f0.len() implies #[trigger] f2[i] == f0[i] by {
        assert(f2[i] == f1[i]);
    }
    assert forall|i: int| 0 <= i < (a + b).len() implies #[trigger] f2[f0.len() + i].1 == p && row_image(
        f2[f0.len() + i].0,
        (a + b)[i],
        p as nat,
    ) && reported_form(f2[f0.len() + i].0, (a + b)[i], p as nat) by {
        if i < a.len() {
            assert(f2[f0.len() + i] == f1[f0.len() + i]);
            assert((a + b)[i] == a[i]);
        } else {
            let m = i - a.len();
            assert(f0.len() + i == f1.len() + m);
            assert(f2[f1.len() + m].1 == p && row_image(f2[f1.len() + m].0, b[m], p as nat) && reported_form(
                f2[f1.len() + m].0,
                b[m],
                p as nat,
            ));
            assert((a + b)[i] == b[m]);
        }
    }
}

/// `x` is, as a number, the least of the first `p` rows of the evolution of
/// `r`, each mirrored when `mirrored`.
pub open spec fn least_row(x: U1024, r: spec_fn(int) -> bool, p: nat, mirrored: bool) -> bool {
    &&& exists|j: nat| j < p && #[trigger] row_image_at(x, r, j, 0, mirrored)
    &&& forall|y: U1024, j: nat| j < p && #[trigger] row_image_at(y, r, j, 0, mirrored) ==> x.value() <= y.value()
}

/// `y` is `x` moved down by `t` bits, where `t` is the number of trailing clear bits of `x`.
pub open spec fn moved_down_by(y: U1024, x: U1024, t: int) -> bool {
    &&& 0 <= t <= 1024
    &&& forall|k: int| 0 <= k < t ==> !#[trigger] x.bit(k)
    &&& t < 1024 ==> x.bit(t)
    &&& forall|k: int| 0 <= k < 1024 ==> #[trigger] y.bit(k) == x.bit(k + t)
}

/// `y` is `x` moved down by the number of its trailing clear bits.
pub open spec fn moved_down(y: U1024, x: U1024) -> bool {
    exists|t: int| #[trigger] moved_down_by(y, x, t)
}

/// `sol` is the form in which the row `r` of period `p` is reported: the least
/// of its first `p` rows and the least of their mirror images, each moved
/// down by its trailing clear bits; the first of the two when it is smaller
/// as a number, else the second.
pub open spec fn reported_form(sol: U1024, r: spec_fn(int) -> bool, p: nat) -> bool {
    exists|a: U1024, b: U1024, a2: U1024, b2: U1024|
        #![trigger least_row(a, r, p, false), least_row(b, r, p, true), moved_down(a2, a), moved_down(b2, b)]
        least_row(a, r, p, false) && least_row(b, r, p, true) && moved_down(a2, a) && moved_down(b2, b)
            && forall|k: int| #[trigger] sol.bit(k) == (if a2.value() < b2.value() { a2.bit(k) } else { b2.bit(k) })
}

/// Numbers with the same bits are the same number.
pub proof fn lemma_same_bits_value(x: U1024, y: U1024)
    requires
        forall|k: int| 0 <= k < 1024 ==> #[trigger] x.bit(k) == y.bit(k),
    ensures
        x.value() == y.value(),
{
    assert forall|k: int| 0 <= k < 64 * 16 implies #[trigger] limb_bit(x.v@, k) == limb_bit(y.v@, k) by {
        assert(x.bit(k) == y.bit(k));
    }
    lemma_limbs_ext(x.v@, y.v@);
}

/// The row `o` with its cells above `len` made dead.
pub open spec fn cut_at(o: spec_fn(int) -> bool, len: int) -> spec_fn(int) -> bool {
    |k: int| o(k) && k <= len
}

/// Code 20 looks two cells each way: rows that agree within `2 t` cells of
/// `k` agree at cell `k` after `t` steps.
proof fn lemma_evo_local(r1: spec_fn(int) -> bool, r2: spec_fn(int) -> bool, t: nat, k: int)
    requires
        forall|j: int| k - 2 * t <= j <= k + 2 * t ==> #[trigger] r1(j) == r2(j),
    ensures
        evo(r1, t, k) == evo(r2, t, k),
    decreases t,
{
    if t > 0 && 0 <= k < 1024 {
        let s = (t - 1) as nat;
        lemma_evo_local(r1, r2, s, k - 2);
        lemma_evo_local(r1, r2, s, k - 1);
        lemma_evo_local(r1, r2, s, k);
        lemma_evo_local(r1, r2, s, k + 1);
        lemma_evo_local(r1, r2, s, k + 2);
    }
}

/// After `t` steps of Code 20 every cell of `o` among `0..1024` is what it was.
pub open spec fn back_after(o: spec_fn(int) -> bool, t: nat) -> bool {
    forall|k: int| 0 <= k < 1024 ==> #[trigger] evo(o, t, k) == o(k)
}

/// Cell `k` of `o` is alive in some step among `1..=p`.
pub open spec fn alive_in_period(o: spec_fn(int) -> bool, p: nat, k: int) -> bool {
    0 <= k < 1024 && exists|t: nat| 1 <= t <= p && #[trigger] evo(o, t, k)
}

/// The facts about `o` that make the search meet it.
pub open spec fn findable(o: spec_fn(int) -> bool, p: nat, h: int) -> bool {
    &&& 1 <= p
    &&& h + 2 * p + 5 <= 1024
    &&& o(2 * p as int)
    &&& o(h)
    &&& forall|k: int| #[trigger] o(k) ==> 2 * p <= k <= h
    &&& forall|k: int| 0 <= k < 1024 ==> #[trigger] evo(o, p, k) == o(k)
    &&& forall|j: nat| 0 < j < p ==> !#[trigger] back_after(o, j)
    &&& forall|i: int, j: int|
        i < j && #[trigger] alive_in_period(o, p, i) && #[trigger] alive_in_period(o, p, j) && (forall|m: int|
            i < m < j ==> !#[trigger] alive_in_period(o, p, m)) ==> j - i - 1 <= 2
    &&& forall|l: int| 2 * p <= l < h ==> !#[trigger] back_after(cut_at(o, l), p)
}

/// Cut at `len`, `o` keeps its evolution on the cells far enough below `len`.
proof fn lemma_cut_evo(o: spec_fn(int) -> bool, len: int, t: nat, k: int)
    requires
        k + 2 * t <= len,
    ensures
        evo(cut_at(o, len), t, k) == evo(o, t, k),
{
    lemma_evo_local(cut_at(o, len), o, t, k);
}

/// The gaps among the cells alive during the period, cut at `len`, are short.
proof fn lemma_cut_gaps(o: spec_fn(int) -> bool, p: nat, h: int, len: int)
    requires
        findable(o, p, h),
        2 * p <= len <= h,
    ensures
        gaps_within(collected_cells(cut_at(o, len), len as nat, p), 2),
{
    let c = collected_cells(cut_at(o, len), len as nat, p);
    assert forall|x: int| x <= len - 2 * p implies #[trigger] c(x) == alive_in_period(o, p, x) by {
        if exists|t: nat| 1 <= t <= p && #[trigger] evo(o, t, x) {
            let t = choose|t: nat| 1 <= t <= p && #[trigger] evo(o, t, x);
            lemma_cut_evo(o, len, t, x);
        }
        if exists|t: nat| 1 <= t <= p && #[trigger] evo(cut_at(o, len), t, x) {
            let t = choose|t: nat| 1 <= t <= p && #[trigger] evo(cut_at(o, len), t, x);
            lemma_cut_evo(o, len, t, x);
        }
    }
    assert forall|i: int, j: int|
        #![trigger c(i), c(j)]
        0 <= i < j < 1024 && c(i) && c(j) && (forall|m: int| i < m < j ==> !#[trigger] c(m)) implies j - i - 1 <= 2 by {
        assert forall|m: int| i < m < j implies !#[trigger] alive_in_period(o, p, m) by {
            assert(!c(m));
        }
        assert(alive_in_period(o, p, i) && alive_in_period(o, p, j));
    }
}

/// The search from `o` cut at `len` meets `o` itself.
proof fn lemma_search_reaches(o: spec_fn(int) -> bool, p: nat, h: int, len: int)
    requires
        findable(o, p, h),
        2 * p <= len <= h,
    ensures
        search_found(cut_at(o, len), len as nat, p).contains(o),
    decreases h - len,
{
    let r = cut_at(o, len);
    assert forall|k: int| 0 <= k < len - 2 * p + 1 implies #[trigger] evo(r, p, k) == evo(r, 0, k) by {
        lemma_cut_evo(o, len, p, k);
        assert(evo(o, p, k) == o(k));
    }
    assert(low_cells_return(r, len as nat, p));
    lemma_cut_gaps(o, p, h, len);
    if len == h {
        assert(r =~= o);
        assert(returns_after(o, p)) by {
            assert forall|k: int| 0 <= k < 1024 implies #[trigger] evo(o, p, k) == evo(o, 0, k) by {
                assert(evo(o, p, k) == o(k));
            }
        }
        assert(no_earlier_return(o, p)) by {
            assert forall|j: nat| 0 < j < p implies !#[trigger] returns_after(o, j) by {
                assert(!back_after(o, j));
                let k = choose|k: int| 0 <= k < 1024 && !(#[trigger] evo(o, j, k) == o(k));
                assert(evo(o, j, k) != evo(o, 0, k));
            }
        }
        assert(search_stops(r, len as nat, p));
        assert(search_found(r, len as nat, p) == seq![o]);
        assert(seq![o][0] == o);
    } else {
        assert(!returns_after(r, p)) by {
            assert(!back_after(r, p));
            let k = choose|k: int| 0 <= k < 1024 && !(#[trigger] evo(r, p, k) == r(k));
            assert(evo(r, p, k) != evo(r, 0, k));
        }
        assert(!search_stops(r, len as nat, p));
        let a = search_found(r, (len + 1) as nat, p);
        let b = search_found(with_cell(r, len + 1), (len + 1) as nat, p);
        assert(search_found(r, len as nat, p) == a + b);
        if o(len + 1) {
            assert(with_cell(r, len + 1) =~= cut_at(o, len + 1));
            lemma_search_reaches(o, p, h, len + 1);
            let i = choose|i: int| 0 <= i < b.len() && b[i] == o;
            assert((a + b)[a.len() + i] == o);
        } else {
            assert(r =~= cut_at(o, len + 1));
            lemma_search_reaches(o, p, h, len + 1);
            let i = choose|i: int| 0 <= i < a.len() && a[i] == o;
            assert((a + b)[i] == o);
        }
    }
}

/// The search is complete for rows it can meet: a row `o` whose lowest live
/// cell is `2 p` and highest is `h` (with room for the search above it),
/// that comes back after `p` steps of Code 20 and after no fewer, whose
/// cells alive during the period leave gaps of at most two dead cells, and
/// none of whose lower parts, cut off below `h`, comes back whole on its own,
/// has an image, with period `p`, among the rows the search from a single
/// live cell at `2 p` reports (`solve`).
pub proof fn law_search_finds_periodic_rows(
    o: spec_fn(int) -> bool,
    p: usize,
    h: int,
    before: Seq<(Int, usize)>,
    after: Seq<(Int, usize)>,
)
    requires
        findable(o, p as nat, h),
        found_rows(before, after, search_found(single_cell(2 * p), (2 * p) as nat, p as nat), p),
    ensures
        exists|i: int|
            before.len() <= i < after.len() && after[i].1 == p && #[trigger] row_image(after[i].0, o, p as nat)
                && reported_form(after[i].0, o, p as nat),
{
    assert(single_cell(2 * p) =~= cut_at(o, 2 * p as int));
    lemma_search_reaches(o, p as nat, h, 2 * p as int);
    let rows = search_found(single_cell(2 * p), (2 * p) as nat, p as nat);
    let i = choose|i: int| 0 <= i < rows.len() && rows[i] == o;
    assert(after[before.len() + i].1 == p && row_image(after[before.len() + i].0, rows[i], p as nat));
}

} // verus!
