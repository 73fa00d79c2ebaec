//! Depth-first search for periodic patterns of the Code 20 cellular automaton.
//!
//! Code 20 is the totalistic rule on five neighbours (distance at most two)
//! under which a cell is alive exactly when two or four of the five are alive.
//! A row of cells is a `U1024`; cells outside the 1024 bits are dead.
use vstd::prelude::*;
use crate::int_u1024::{Int, U1024, BITS, one, zero, mask_first_n_bits};
use crate::bits::{limb_bit, lemma_limbs_ext};
use crate::gaps::gap_length_less_than;
use crate::search_tree::{
    bits_of, with_cell, single_cell, evo, search_nodes, search_found, search_stops, found_rows, low_cells_return,
    collected_cells, gaps_within, returns_after, no_earlier_return, row_image_at, lemma_evo_bits_all, lemma_gaps_bits,
    lemma_found_rows_concat, least_row, moved_down, moved_down_by, reported_form, lemma_same_bits_value,
};

verus! {

/// 1 for a live cell, 0 for a dead one.
pub open spec fn alive(b: bool) -> int {
    if b {
        1
    } else {
        0
    }
}

/// Code 20: a cell lives when two or four of its five neighbours (itself included) live.
pub open spec fn code20_cell(a: bool, b: bool, c: bool, d: bool, e: bool) -> bool {
    let s = alive(a) + alive(b) + alive(c) + alive(d) + alive(e);
    s == 2 || s == 4
}

/// The state of cell `k` after `t` steps of Code 20 from the row `n`.
pub open spec fn evolve_bit(n: U1024, t: nat, k: int) -> bool
    decreases t,
{
    if !(0 <= k < 1024) {
        false
    } else if t == 0 {
        n.bit(k)
    } else {
        let s = (t - 1) as nat;
        code20_cell(
            evolve_bit(n, s, k - 2),
            evolve_bit(n, s, k - 1),
            evolve_bit(n, s, k),
            evolve_bit(n, s, k + 1),
            evolve_bit(n, s, k + 2),
        )
    }
}

/// `x` is the row reached from `n` after `t` steps.
pub open spec fn is_evolution(x: U1024, n: U1024, t: nat) -> bool {
    forall|k: int| 0 <= k < 1024 ==> #[trigger] x.bit(k) == evolve_bit(n, t, k)
}

/// The row `o` comes back after `p` steps.
pub open spec fn is_periodic(o: U1024, p: nat) -> bool {
    forall|k: int| 0 <= k < 1024 ==> #[trigger] evolve_bit(o, p, k) == o.bit(k)
}

/// After `t` steps some cell of the evolution from `n` is alive.
pub open spec fn row_alive(n: U1024, t: nat) -> bool {
    exists|k: int| 0 <= k < 1024 && #[trigger] evolve_bit(n, t, k)
}

/// After `j` steps the row `o` has changed.
pub open spec fn differs_after(o: U1024, j: nat) -> bool {
    exists|k: int| 0 <= k < 1024 && #[trigger] evolve_bit(o, j, k) != o.bit(k)
}

/// The row `o` does not come back after fewer than `p` (and more than zero) steps.
pub open spec fn no_shorter_period(o: U1024, p: nat) -> bool {
    forall|j: nat| 0 < j < p ==> #[trigger] differs_after(o, j)
}

/// `sol` is row `j` of the evolution of `o`, mirrored when `mirrored`, moved down by `s` bits.
pub open spec fn image_at(sol: U1024, o: U1024, j: nat, s: int, mirrored: bool) -> bool {
    forall|k: int|
        0 <= k < 1024 ==> #[trigger] sol.bit(k) == (if mirrored {
            evolve_bit(o, j, 1023 - (k + s))
        } else {
            evolve_bit(o, j, k + s)
        })
}

/// `sol` is one of the first `p` rows of the evolution of `o`, maybe mirrored,
/// moved down by some number of bits.
pub open spec fn orbit_image(sol: U1024, o: U1024, p: nat) -> bool {
    exists|j: nat, s: int, mirrored: bool| j < p && 0 <= s && #[trigger] image_at(sol, o, j, s, mirrored)
}

/// A solution reported for period `p`: the image of a row of exact period `p`.
pub open spec fn is_reported_solution(sol: U1024, p: nat) -> bool {
    exists|o: U1024| is_periodic(o, p) && no_shorter_period(o, p) && #[trigger] orbit_image(sol, o, p)
}

/// The exclusive or of five cells, exclusive-ored with their or, is Code 20.
pub proof fn lemma_code20_formula(a: bool, b: bool, c: bool, d: bool, e: bool)
    ensures
        ((((a != b) != c) != d) != e) != (a || b || c || d || e) == code20_cell(a, b, c, d, e),
{
}

/// One step of Code 20 on a row of 1024 cells.
#[inline(always)]
pub fn code20(n: Int) -> (r: Int)
    ensures
        is_evolution(r, n, 1),
        forall|k: int| 0 <= k < 1024 ==> #[trigger] r.bit(k) == code20_cell(n.bit(k - 2), n.bit(k - 1), n.bit(k), n.bit(k + 1), n.bit(k + 2)),
{
    let a = n.shl1();
    let b = n.shl2();
    let c = n;
    let d = n.shr1();
    let e = n.shr2();
    let x = a.bitxor(b).bitxor(c).bitxor(d).bitxor(e);
    let o = a.bitor(b).bitor(c).bitor(d).bitor(e);
    let r = x.bitxor(o);
    proof {
        assert forall|k: int| 0 <= k < 1024 implies #[trigger] r.bit(k) == code20_cell(n.bit(k - 2), n.bit(k - 1), n.bit(k), n.bit(k + 1), n.bit(k + 2)) by {
            lemma_code20_formula(n.bit(k - 1), n.bit(k - 2), n.bit(k), n.bit(k + 1), n.bit(k + 2));
        }
        assert forall|k: int| 0 <= k < 1024 implies #[trigger] r.bit(k) == evolve_bit(n, 1, k) by {
            assert(evolve_bit(n, 0, k - 2) == n.bit(k - 2));
            assert(evolve_bit(n, 0, k - 1) == n.bit(k - 1));
            assert(evolve_bit(n, 0, k) == n.bit(k));
            assert(evolve_bit(n, 0, k + 1) == n.bit(k + 1));
            assert(evolve_bit(n, 0, k + 2) == n.bit(k + 2));
        }
    }
    r
}

/// One more step of Code 20 continues an evolution.
pub proof fn lemma_evolution_step(x: U1024, y: U1024, n: U1024, t: nat)
    requires
        is_evolution(x, n, t),
        forall|k: int| 0 <= k < 1024 ==> #[trigger] y.bit(k) == code20_cell(x.bit(k - 2), x.bit(k - 1), x.bit(k), x.bit(k + 1), x.bit(k + 2)),
    ensures
        is_evolution(y, n, t + 1),
{
    assert forall|k: int| 0 <= k < 1024 implies #[trigger] y.bit(k) == evolve_bit(n, t + 1, k) by {
        assert(x.bit(k - 2) == evolve_bit(n, t, k - 2));
        assert(x.bit(k - 1) == evolve_bit(n, t, k - 1));
        assert(x.bit(k) == evolve_bit(n, t, k));
        assert(x.bit(k + 1) == evolve_bit(n, t, k + 1));
        assert(x.bit(k + 2) == evolve_bit(n, t, k + 2));
    }
}

/// Every gap of clear bits between two consecutive set bits of `n` is at most `max` long.
pub open spec fn gaps_at_most(n: U1024, max: int) -> bool {
    forall|i: int, j: int|
        #![trigger n.bit(i), n.bit(j)]
        0 <= i < j < 1024 && n.bit(i) && n.bit(j) && (forall|m: int| i < m < j ==> !#[trigger] n.bit(m))
            ==> j - i - 1 <= max
}

/// Whether `a` is smaller than `b` as a number.
fn is_less(a: &Int, b: &Int) -> (r: bool)
    ensures
        r == (a.value() < b.value()),
{
    match a.cmp(b) {
        std::cmp::Ordering::Less => true,
        std::cmp::Ordering::Equal => false,
        std::cmp::Ordering::Greater => false,
    }
}

/// Two rows that are not equal differ in some cell.
pub proof fn lemma_rows_differ(a: U1024, b: U1024)
    requires
        a.v@ != b.v@,
    ensures
        exists|k: int| 0 <= k < 1024 && #[trigger] a.bit(k) != b.bit(k),
{
    if forall|k: int| 0 <= k < 1024 ==> #[trigger] a.bit(k) == b.bit(k) {
        assert forall|k: int| 0 <= k < 64 * 16 implies #[trigger] limb_bit(a.v@, k) == limb_bit(b.v@, k) by {
            assert(a.bit(k) == b.bit(k));
        }
        lemma_limbs_ext(a.v@, b.v@);
    }
}

/// `x` moved down by its trailing zeros is an image of row `j` of `n`'s evolution.
proof fn lemma_normalized_image(x: U1024, y: U1024, n: U1024, j: nat, t: u32, mirrored: bool)
    requires
        forall|k: int| 0 <= k < 1024 ==> #[trigger] x.bit(k) == (if mirrored {
            evolve_bit(n, j, 1023 - k)
        } else {
            evolve_bit(n, j, k)
        }),
        forall|k: int| 0 <= k < 1024 ==> #[trigger] y.bit(k) == x.bit(k + t),
    ensures
        image_at(y, n, j, t as int, mirrored),
{
    assert forall|k: int| 0 <= k < 1024 implies #[trigger] y.bit(k) == (if mirrored {
        evolve_bit(n, j, 1023 - (k + t))
    } else {
        evolve_bit(n, j, k + t)
    }) by {
        if k + t < 1024 {
            assert(x.bit(k + t) == (if mirrored {
                evolve_bit(n, j, 1023 - (k + t))
            } else {
                evolve_bit(n, j, k + t)
            }));
        } else {
            assert(!x.bit(k + t));
            assert(!evolve_bit(n, j, k + t));
            assert(!evolve_bit(n, j, 1023 - (k + t)));
        }
    }
}

/// A row that is back whole after `t` steps returns after `t` steps.
proof fn lemma_back_after(n: U1024, x: U1024, t: nat)
    requires
        is_evolution(x, n, t),
        x.v@ == n.v@,
    ensures
        returns_after(bits_of(n), t),
{
    lemma_evo_bits_all(n);
    assert forall|k: int| 0 <= k < 1024 implies #[trigger] evo(bits_of(n), t, k) == evo(bits_of(n), 0, k) by {
        assert(x.bit(k) == evolve_bit(n, t, k));
        assert(evolve_bit(n, 0, k) == n.bit(k));
    }
}

/// Depth-first search for rows of exact period `p`. `n` holds the cells
/// fixed so far; `len` is the position of the highest cell that may be set.
/// Each row found is reported, moved down to bit 0 and minimized over its
/// period and mirror image, by being pushed onto `found` with its period.
/// Returns the number of search nodes visited (wrapping on overflow). The
/// search tree, the count and the rows found are those of `search_nodes` and
/// `search_found`.
pub fn solve_dfs(n: Int, len: usize, p: usize, found: &mut Vec<(Int, usize)>) -> (nodes: u64)
    requires
        1 <= p,
        2 * p + 5 <= BITS,
        2 * p <= len + 1,
    ensures
        old(found)@.len() <= final(found)@.len(),
        forall|i: int| 0 <= i < old(found)@.len() ==> #[trigger] final(found)@[i] == old(found)@[i],
        forall|i: int|
            old(found)@.len() <= i < final(found)@.len() ==> #[trigger] final(found)@[i].1 == p
                && is_reported_solution(final(found)@[i].0, p as nat),
        nodes == search_nodes(bits_of(n), len as nat, p as nat),
        found_rows(old(found)@, final(found)@, search_found(bits_of(n), len as nat, p as nat), p),
    decreases BITS - len,
{
    // len is the position (zero-indexed from right to left) of the first possible 1
    let ghost r = bits_of(n);
    let ghost f0 = found@;
    proof {
        lemma_evo_bits_all(n);
    }

    // Depth Exceeded
    if len > BITS - 2 * p - 5 {
        assert(search_stops(r, len as nat, p as nat));
        assert(search_found(r, len as nat, p as nat) =~= Seq::<spec_fn(int) -> bool>::empty());
        return 1;
    }

    // Run the automata
    let mut collected = zero();
    let mut o = n;
    for t in 0..p
        invariant
            is_evolution(o, n, t as nat),
            forall|k: int|
                0 <= k < 1024 ==> #[trigger] collected.bit(k) == exists|t2: nat| 1 <= t2 <= t && #[trigger] evolve_bit(
                    n,
                    t2,
                    k,
                ),
    {
        let next = code20(o);
        proof {
            lemma_evolution_step(o, next, n, t as nat);
        }
        let ghost before = collected;
        o = next;
        collected = collected.bitor(o);
        proof {
            assert forall|k: int| 0 <= k < 1024 implies #[trigger] collected.bit(k) == exists|t2: nat|
                1 <= t2 <= t + 1 && #[trigger] evolve_bit(n, t2, k) by {
                if collected.bit(k) {
                    if before.bit(k) {
                        let t2 = choose|t2: nat| 1 <= t2 <= t && #[trigger] evolve_bit(n, t2, k);
                        assert(1 <= t2 <= t + 1 && evolve_bit(n, t2, k));
                    } else {
                        assert(o.bit(k) == evolve_bit(n, (t + 1) as nat, k));
                    }
                }
                if exists|t2: nat| 1 <= t2 <= t + 1 && #[trigger] evolve_bit(n, t2, k) {
                    let t2 = choose|t2: nat| 1 <= t2 <= t + 1 && #[trigger] evolve_bit(n, t2, k);
                    if t2 == t + 1 {
                        assert(o.bit(k) == evolve_bit(n, (t + 1) as nat, k));
                    } else {
                        assert(before.bit(k));
                    }
                }
            }
        }
    }

    // Unchangable output bits
    let mask = mask_first_n_bits(len + 1 - 2 * p);

    // Check Periodicity
    let nm = n.bitand(mask);
    let om = o.bitand(mask);
    if nm != om {
        proof {
            lemma_rows_differ(nm, om);
            let k = choose|k: int| 0 <= k < 1024 && #[trigger] nm.bit(k) != om.bit(k);
            assert(o.bit(k) == evolve_bit(n, p as nat, k));
            assert(evolve_bit(n, 0, k) == n.bit(k));
            assert(!low_cells_return(r, len as nat, p as nat));
            assert(search_found(r, len as nat, p as nat) =~= Seq::<spec_fn(int) -> bool>::empty());
        }
        return 1;
    }
    proof {
        assert forall|k: int| 0 <= k < len - 2 * p + 1 implies #[trigger] evo(r, p as nat, k) == evo(r, 0, k) by {
            assert(nm.bit(k) == om.bit(k));
            assert(o.bit(k) == evolve_bit(n, p as nat, k));
            assert(evolve_bit(n, 0, k) == n.bit(k));
        }
        assert(low_cells_return(r, len as nat, p as nat));
    }

    // Check Gaps (for concatonated solutions)
    let cm = collected.bitand(mask);
    proof {
        lemma_gaps_bits(cm, 2);
        assert(bits_of(cm) =~= collected_cells(r, len as nat, p as nat)) by {
            assert forall|k: int| #[trigger] bits_of(cm)(k) == collected_cells(r, len as nat, p as nat)(k) by {
                if 0 <= k < 1024 {
                    if collected.bit(k) {
                        let t2 = choose|t2: nat| 1 <= t2 <= p && #[trigger] evolve_bit(n, t2, k);
                        assert(evo(r, t2, k));
                    }
                    if exists|t2: nat| 1 <= t2 <= p && #[trigger] evo(r, t2, k) {
                        let t2 = choose|t2: nat| 1 <= t2 <= p && #[trigger] evo(r, t2, k);
                        assert(evolve_bit(n, t2, k));
                    }
                }
            }
        }
    }
    if !gap_length_less_than(cm, 2) {
        proof {
            assert(search_found(r, len as nat, p as nat) =~= Seq::<spec_fn(int) -> bool>::empty());
        }
        return 1;
    }

    // Check for Solution
    if o == n {
        proof {
            assert forall|k: int| 0 <= k < 1024 implies #[trigger] evolve_bit(n, p as nat, k) == n.bit(k) by {
                assert(o.bit(k) == evolve_bit(n, p as nat, k));
                assert(o.v@ == n.v@);
            }
            assert(is_periodic(n, p as nat));
            assert forall|k: int| 0 <= k < 1024 implies #[trigger] evo(r, p as nat, k) == evo(r, 0, k) by {
                assert(evolve_bit(n, p as nat, k) == n.bit(k));
                assert(evolve_bit(n, 0, k) == n.bit(k));
            }
            assert(returns_after(r, p as nat));
            assert(search_stops(r, len as nat, p as nat));
        }
        // More expensive full run
        let mut current = o;

        // keeps track of smallest value including reflections
        let mut minorg = o;
        let mut minrev = o.reverse_bits();
        let ghost mut jorg: nat = 0;
        let ghost mut jrev: nat = 0;
        proof {
            assert forall|k: int| 0 <= k < 1024 implies #[trigger] current.bit(k) == evolve_bit(n, 0, k) by {
                assert(o.v@ == n.v@);
            }
            assert forall|y: U1024, j: nat| j < 1 && #[trigger] row_image_at(y, r, j, 0, false) implies minorg.value()
                <= y.value() by {
                assert forall|k: int| 0 <= k < 1024 implies #[trigger] minorg.bit(k) == y.bit(k) by {
                    assert(y.bit(k) == evo(r, 0, k + 0));
                    assert(evolve_bit(n, 0, k) == n.bit(k));
                }
                lemma_same_bits_value(minorg, y);
            }
            assert forall|y: U1024, j: nat| j < 1 && #[trigger] row_image_at(y, r, j, 0, true) implies minrev.value()
                <= y.value() by {
                assert forall|k: int| 0 <= k < 1024 implies #[trigger] minrev.bit(k) == y.bit(k) by {
                    assert(y.bit(k) == evo(r, 0, 1023 - (k + 0)));
                    assert(evolve_bit(n, 0, 1023 - k) == n.bit(1023 - k));
                }
                lemma_same_bits_value(minrev, y);
            }
        }

        for count in 1..p
            invariant
                1 <= count <= p,
                o.v@ == n.v@,
                is_evolution(current, n, (count - 1) as nat),
                jorg < count,
                jrev < count,
                is_evolution(minorg, n, jorg),
                forall|k: int| 0 <= k < 1024 ==> #[trigger] minrev.bit(k) == evolve_bit(n, jrev, 1023 - k),
                forall|j: nat| 0 < j < count ==> #[trigger] differs_after(n, j),
                r == bits_of(n),
                search_stops(r, len as nat, p as nat),
                found@ == f0,
                f0 == old(found)@,
                forall|y: U1024, j: nat| j < count && #[trigger] row_image_at(y, r, j, 0, false) ==> minorg.value()
                    <= y.value(),
                forall|y: U1024, j: nat| j < count && #[trigger] row_image_at(y, r, j, 0, true) ==> minrev.value()
                    <= y.value(),
        {
            let next = code20(current);
            proof {
                lemma_evolution_step(current, next, n, (count - 1) as nat);
            }
            current = next;
            let ghost old_minorg = minorg;
            let ghost old_minrev = minrev;
            let cand = minorg.min(current);
            proof {
                if cand == current {
                    jorg = count as nat;
                }
            }
            minorg = cand;
            let rev = current.reverse_bits();
            let cand2 = minrev.min(rev);
            proof {
                if cand2 == rev {
                    jrev = count as nat;
                    assert forall|k: int| 0 <= k < 1024 implies #[trigger] cand2.bit(k) == evolve_bit(n, jrev, 1023 - k) by {
                        assert(rev.bit(k) == current.bit(1023 - k));
                    }
                }
            }
            minrev = cand2;
            proof {
                lemma_evo_bits_all(n);
                assert forall|y: U1024, j: nat| j < count + 1 && #[trigger] row_image_at(y, r, j, 0, false)
                    implies minorg.value() <= y.value() by {
                    if j == count {
                        assert forall|k: int| 0 <= k < 1024 implies #[trigger] current.bit(k) == y.bit(k) by {
                            assert(y.bit(k) == evo(r, j, k + 0));
                            assert(current.bit(k) == evolve_bit(n, count as nat, k));
                        }
                        lemma_same_bits_value(current, y);
                    } else {
                        assert(old_minorg.value() <= y.value());
                    }
                }
                assert forall|y: U1024, j: nat| j < count + 1 && #[trigger] row_image_at(y, r, j, 0, true)
                    implies minrev.value() <= y.value() by {
                    if j == count {
                        assert forall|k: int| 0 <= k < 1024 implies #[trigger] rev.bit(k) == y.bit(k) by {
                            assert(y.bit(k) == evo(r, j, 1023 - (k + 0)));
                            assert(rev.bit(k) == current.bit(1023 - k));
                            assert(current.bit(1023 - k) == evolve_bit(n, count as nat, 1023 - k));
                        }
                        lemma_same_bits_value(rev, y);
                    } else {
                        assert(old_minrev.value() <= y.value());
                    }
                }
            }

            // No Subperiodicity
            if current == o {
                proof {
                    lemma_back_after(n, current, count as nat);
                    assert(!no_earlier_return(r, p as nat));
                    assert(search_found(r, len as nat, p as nat) =~= Seq::<spec_fn(int) -> bool>::empty());
                }
                return 1;
            }
            proof {
                lemma_rows_differ(current, n);
                let k = choose|k: int| 0 <= k < 1024 && #[trigger] current.bit(k) != n.bit(k);
                assert(evolve_bit(n, count as nat, k) != n.bit(k));
                assert(differs_after(n, count as nat));
            }
        }

        // Minimum integer acheived over period
        let torg = minorg.trailing_zeros();
        let minorg2 = minorg.shr(torg as usize);
        let trev = minrev.trailing_zeros();
        let minrev2 = minrev.shr(trev as usize);
        let min = if is_less(&minorg2, &minrev2) {
            minorg2
        } else {
            minrev2
        };
        proof {
            lemma_normalized_image(minorg, minorg2, n, jorg, torg, false);
            lemma_normalized_image(minrev, minrev2, n, jrev, trev, true);
            assert(no_shorter_period(n, p as nat));
            if min == minorg2 {
                assert(orbit_image(min, n, p as nat));
            } else {
                assert(orbit_image(min, n, p as nat));
            }
        }

        // Overwrites may happen! But this ensures that solutions are found faster, if they exist
        found.push((min, p));
        proof {
            assert(is_reported_solution(found@[found@.len() - 1].0, p as nat));
            assert forall|j: nat| 0 < j < p implies !#[trigger] returns_after(r, j) by {
                assert(differs_after(n, j));
                let k = choose|k: int| 0 <= k < 1024 && #[trigger] evolve_bit(n, j, k) != n.bit(k);
                assert(evolve_bit(n, 0, k) == n.bit(k));
                assert(evo(r, j, k) != evo(r, 0, k));
            }
            assert(no_earlier_return(r, p as nat));
            assert(search_found(r, len as nat, p as nat) =~= seq![r]);
            let (j, s, mirrored) = choose|j: nat, s: int, mirrored: bool| j < p && 0 <= s && #[trigger] image_at(min, n, j, s, mirrored);
            assert(row_image_at(min, r, j, s, mirrored)) by {
                assert forall|k: int| 0 <= k < 1024 implies #[trigger] min.bit(k) == (if mirrored {
                    evo(r, j, 1023 - (k + s))
                } else {
                    evo(r, j, k + s)
                }) by {
                    assert(evolve_bit(n, j, 1023 - (k + s)) == evo(r, j, 1023 - (k + s)));
                    assert(evolve_bit(n, j, k + s) == evo(r, j, k + s));
                }
            }
            assert(found@[f0.len() as int] == (min, p));
            assert(row_image_at(minorg, r, jorg, 0, false)) by {
                assert forall|k: int| 0 <= k < 1024 implies #[trigger] minorg.bit(k) == evo(r, jorg, k + 0) by {
                    assert(minorg.bit(k) == evolve_bit(n, jorg, k));
                }
            }
            assert(row_image_at(minrev, r, jrev, 0, true)) by {
                assert forall|k: int| 0 <= k < 1024 implies #[trigger] minrev.bit(k) == evo(r, jrev, 1023 - (k + 0)) by {
                    assert(minrev.bit(k) == evolve_bit(n, jrev, 1023 - k));
                }
            }
            assert(least_row(minorg, r, p as nat, false));
            assert(least_row(minrev, r, p as nat, true));
            assert(moved_down_by(minorg2, minorg, torg as int));
            assert(moved_down_by(minrev2, minrev, trev as int));
            assert(moved_down(minorg2, minorg));
            assert(moved_down(minrev2, minrev));
            assert(forall|k: int| #[trigger] min.bit(k) == (if minorg2.value() < minrev2.value() {
                minorg2.bit(k)
            } else {
                minrev2.bit(k)
            }));
            assert(reported_form(min, r, p as nat));
        }

        return 1;
    }
    proof {
        lemma_rows_differ(o, n);
        let k = choose|k: int| 0 <= k < 1024 && #[trigger] o.bit(k) != n.bit(k);
        assert(o.bit(k) == evolve_bit(n, p as nat, k));
        assert(evolve_bit(n, 0, k) == n.bit(k));
        assert(!returns_after(r, p as nat));
        assert(!search_stops(r, len as nat, p as nat));
    }

    // No checks have eliminated cantidate. Continue search.
    let new_len = len + 1;

    let mut nodes_searched: u64 = 1;

    let ns1 = solve_dfs(n, new_len, p, found);
    let ghost f1 = found@;
    let bit = one().shl(new_len);
    let extended = n.bitor(bit);
    proof {
        assert(bits_of(extended) =~= with_cell(r, new_len as int)) by {
            assert forall|k: int| #[trigger] bits_of(extended)(k) == with_cell(r, new_len as int)(k) by {
                if 0 <= k < 1024 {
                    assert(bit.bit(k) == (k == new_len));
                }
            }
        }
    }
    let ns2 = solve_dfs(extended, new_len, p, found);
    nodes_searched = nodes_searched.wrapping_add(ns1).wrapping_add(ns2);
    proof {
        lemma_found_rows_concat(
            f0,
            f1,
            found@,
            search_found(r, new_len as nat, p as nat),
            search_found(with_cell(r, new_len as int), new_len as nat, p as nat),
            p,
        );
    }

    nodes_searched
}


/// Every entry of `after` past those of `before` is a row reported for period `p`.
pub open spec fn reported_after(before: Seq<(Int, usize)>, after: Seq<(Int, usize)>, p: usize) -> bool {
    forall|i: int| before.len() <= i < after.len() ==> #[trigger] after[i].1 == p && is_reported_solution(after[i].0, p as nat)
}

/// Searches for rows of exact period `p`, starting from a single live cell at
/// position `2 * p`; returns the number of search nodes visited and appends
/// the rows found to `found`, as `solve_dfs` does.
pub fn solve(p: usize, found: &mut Vec<(Int, usize)>) -> (nodes: u64)
    requires
        1 <= p,
        2 * p + 5 <= BITS,
    ensures
        old(found)@.len() <= final(found)@.len(),
        forall|i: int| 0 <= i < old(found)@.len() ==> #[trigger] final(found)@[i] == old(found)@[i],
        reported_after(old(found)@, final(found)@, p),
        nodes == search_nodes(single_cell(2 * p), (2 * p) as nat, p as nat),
        found_rows(old(found)@, final(found)@, search_found(single_cell(2 * p), (2 * p) as nat, p as nat), p),
{
    let len_i = 2 * p;
    let unit = one();
    let n_i = unit.shl(len_i);
    proof {
        assert(bits_of(n_i) =~= single_cell(2 * p)) by {
            assert forall|k: int| #[trigger] bits_of(n_i)(k) == single_cell(2 * p)(k) by {
                if 0 <= k < 1024 {
                    assert(n_i.bit(k) == (len_i <= k && unit.bit(k - len_i)));
                }
            }
        }
    }
    let ghost f0 = found@;
    let nodes = solve_dfs(n_i, len_i, p, found);
    assert(reported_after(f0, found@, p));
    nodes
}

} // verus!
