//! Turning a found Code 20 pattern into rows of cells and a text picture.
use vstd::prelude::*;
use crate::int_u1024::{Int, U1024, one, to_u8};
use crate::search::{code20, evolve_bit, is_evolution, lemma_evolution_step, row_alive};
use crate::bits::{wbit, lemma_word_ext, lemma_single_bit, lemma_word_misc};

verus! {

/// 1 for a set bit, 0 for a clear one.
pub open spec fn bit_u8(b: bool) -> u8 {
    if b {
        1
    } else {
        0
    }
}

/// The bits `len - 1` down to `0` of `n`, most significant first.
pub open spec fn row_of(n: U1024, len: nat) -> Seq<u8> {
    Seq::new(len, |j: int| bit_u8(n.bit(len - 1 - j)))
}

/// Cells `len - 1` down to `0` after `t` steps of Code 20 from `n`.
pub open spec fn evolved_row(n: U1024, t: nat, len: nat) -> Seq<u8> {
    Seq::new(len, |j: int| bit_u8(evolve_bit(n, t, len - 1 - j)))
}

/// Bit `i` of `n` as 0 or 1.
fn bit_at(n: Int, i: usize) -> (r: u8)
    ensures
        r == bit_u8(n.bit(i as int)),
{
    let s = n.shr(i);
    let o = one();
    let x = s.bitand(o);
    proof {
        let w = x.v@[0];
        let target: u64 = if n.bit(i as int) {
            1
        } else {
            0
        };
        assert forall|b: u64| b < 64 implies #[trigger] wbit(w, b) == wbit(target, b) by {
            assert(x.bit(b as int) == (s.bit(b as int) && o.bit(b as int)));
            assert(b as int / 64 == 0 && b as int % 64 == b);
            lemma_single_bit(0, b);
            lemma_word_misc(0, 0, b);
        }
        lemma_word_ext(w, target);
    }
    to_u8(x)
}

/// The cells of `n` from bit `len - 1` down to bit 0, as 0s and 1s.
fn bits(n: Int, len: usize) -> (r: Vec<u8>)
    ensures
        r@ == row_of(n, len as nat),
{
    let mut r: Vec<u8> = Vec::new();
    let mut i = len;
    while i > 0
        invariant
            i <= len,
            r@.len() == len - i,
            forall|j: int| 0 <= j < len - i ==> #[trigger] r@[j] == bit_u8(n.bit(len - 1 - j)),
        decreases i,
    {
        i = i - 1;
        r.push(bit_at(n, i));
    }
    assert(r@ =~= row_of(n, len as nat));
    r
}

/// The width of the picture of `sol`: its highest bit plus padding on both sides.
pub open spec fn picture_width(top: nat, padding: nat) -> nat {
    top + 2 * padding
}

/// The rows of the evolution of a found pattern, for ten periods or until
/// every cell has died. The pattern is moved up by `10 + 10 * shift` cells to
/// leave room on both sides.
pub fn solution_to_array(sol: Int, period: usize, shift: usize) -> (arr: Vec<Vec<u8>>)
    requires
        !sol.is_zero(),
        shift <= 1000,
        10 * period + 1 <= usize::MAX,
    ensures
        1 <= arr@.len() <= 10 * period + 1,
        exists|start: U1024, w: nat|
            #![trigger evolved_row(start, 0, w)]
            {
            &&& arr@[0]@ == evolved_row(start, 0, w)
            &&& forall|k: int| 0 <= k < 1024 ==> #[trigger] start.bit(k) == (10 + 10 * shift <= k && sol.bit(k - (10 + 10 * shift)))
            &&& forall|t: int| 0 <= t < arr@.len() ==> #[trigger] arr@[t]@ == evolved_row(start, t as nat, w)
            &&& forall|t: int| 1 <= t < arr@.len() - 1 ==> #[trigger] row_alive(start, t as nat)
            &&& (arr@.len() == 10 * period + 1 || forall|k: int| 0 <= k < 1024 ==> !#[trigger] evolve_bit(start, (arr@.len() - 1) as nat, k))
        },
{
    let repititions: usize = 10;
    let padding: usize = 10 + shift * repititions;

    let w: usize = sol.ilog2() as usize + 2 * padding;

    let start = sol.shl(padding);
    let mut state = start;
    proof {
        assert forall|k: int| 0 <= k < 1024 implies #[trigger] state.bit(k) == evolve_bit(start, 0, k) by {
        }
    }
    let first = bits(state, w);
    let mut arr = vec![first];
    proof {
        assert(arr@[0]@ =~= evolved_row(start, 0, w as nat));
    }
    let total: usize = repititions * period;
    let mut t: usize = 0;
    while t < total
        invariant_except_break
            t <= total,
            total == 10 * period,
            arr@.len() == t + 1,
            is_evolution(state, start, t as nat),
            forall|i: int| 0 <= i < arr@.len() ==> #[trigger] arr@[i]@ == evolved_row(start, i as nat, w as nat),
            forall|i: int| 1 <= i < arr@.len() ==> #[trigger] row_alive(start, i as nat),
        ensures
            1 <= arr@.len() <= total + 1,
            forall|i: int| 0 <= i < arr@.len() ==> #[trigger] arr@[i]@ == evolved_row(start, i as nat, w as nat),
            forall|i: int| 1 <= i < arr@.len() - 1 ==> #[trigger] row_alive(start, i as nat),
            arr@.len() == total + 1 || forall|k: int| 0 <= k < 1024 ==> !#[trigger] evolve_bit(start, (arr@.len() - 1) as nat, k),
        decreases total - t,
    {
        let next = code20(state);
        proof {
            lemma_evolution_step(state, next, start, t as nat);
        }
        state = next;
        let row = bits(state, w);
        proof {
            assert(row@ =~= evolved_row(start, (t + 1) as nat, w as nat));
        }
        arr.push(row);
        t = t + 1;

        let z = crate::int_u1024::zero();
        if state == z {
            proof {
                assert forall|k: int| 0 <= k < 1024 implies !#[trigger] evolve_bit(start, (arr@.len() - 1) as nat, k) by {
                    assert(state.bit(k) == z.bit(k));
                }
            }
            break;
        }
        proof {
            crate::search::lemma_rows_differ(state, z);
            let k = choose|k: int| 0 <= k < 1024 && #[trigger] state.bit(k) != z.bit(k);
            assert(evolve_bit(start, t as nat, k));
            assert(row_alive(start, t as nat));
        }
    }

    assert(arr@[0]@ == evolved_row(start, 0, w as nat));
    arr
}

/// The character drawn for a cell.
pub open spec fn cell_char(e: u8) -> char {
    if e == 0 {
        ' '
    } else if e == 1 {
        '█'
    } else {
        '?'
    }
}

/// The rows drawn one per line, joined by newlines.
pub open spec fn plot_text(arr: Seq<Seq<u8>>) -> Seq<char>
    decreases arr.len(),
{
    if arr.len() == 0 {
        Seq::empty()
    } else if arr.len() == 1 {
        arr[0].map_values(|e: u8| cell_char(e))
    } else {
        plot_text(arr.drop_last()) + seq!['\n'] + arr.last().map_values(|e: u8| cell_char(e))
    }
}

/// `String::push`: std documents that it appends the character to the end of the string.
#[verifier::external_body]
pub(crate) fn string_push(s: &mut String, c: char)
    ensures
        final(s)@ == old(s)@.push(c),
{
    s.push(c);
}

/// The rows as text: a block for a live cell, a space for a dead one, a
/// question mark for anything else; one line per row.
pub fn array_plot(arr: Vec<Vec<u8>>) -> (r: String)
    ensures
        r@ == plot_text(arr@.map_values(|row: Vec<u8>| row@)),
{
    let ghost rows = arr@.map_values(|row: Vec<u8>| row@);
    let mut out = String::new();
    for i in 0..arr.len()
        invariant
            rows == arr@.map_values(|row: Vec<u8>| row@),
            out@ == plot_text(rows.take(i as int)),
    {
        let ghost before = out@;
        if i > 0 {
            string_push(&mut out, '\n');
        }
        let row = &arr[i];
        for j in 0..row.len()
            invariant
                rows == arr@.map_values(|row: Vec<u8>| row@),
                i < arr@.len(),
                row@ == rows[i as int],
                out@ == before + (if i > 0 {
                    seq!['\n']
                } else {
                    Seq::empty()
                }) + rows[i as int].take(j as int).map_values(|e: u8| cell_char(e)),
        {
            let e = row[j];
            let c = if e == 0 {
                ' '
            } else if e == 1 {
                '█'
            } else {
                '?'
            };
            string_push(&mut out, c);
            proof {
                assert(rows[i as int].take(j + 1).map_values(|e: u8| cell_char(e)) =~= rows[i as int].take(j as int).map_values(|e: u8| cell_char(e)).push(c));
            }
        }
        proof {
            assert(rows[i as int].take(row@.len() as int) =~= rows[i as int]);
            let pre = rows.take(i as int);
            let cur = rows.take(i + 1);
            assert(cur.drop_last() =~= pre);
            assert(cur.last() == rows[i as int]);
            if i == 0 {
                assert(before =~= Seq::<char>::empty());
            }
        }
    }
    proof {
        assert(rows.take(arr@.len() as int) =~= rows);
    }
    out
}

} // verus!
