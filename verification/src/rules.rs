//! Cellular automaton rules on neighbourhoods given as lists of 0/1 cells.
use vstd::prelude::*;

verus! {

/// The sum of the cells.
pub open spec fn cells_sum(v: Seq<usize>) -> int
    decreases v.len(),
{
    if v.len() == 0 {
        0
    } else {
        cells_sum(v.drop_last()) + v.last()
    }
}

/// Code 20: a cell lives when two or four cells of its neighbourhood do.
pub open spec fn code20_value(v: Seq<usize>) -> usize {
    if cells_sum(v) == 2 || cells_sum(v) == 4 {
        1
    } else {
        0
    }
}

/// Bit `l` of `inp` rotated right by `l` places, that is bit `l mod usize::BITS`.
pub open spec fn rotated_bit(inp: usize, l: int) -> usize {
    (inp >> ((l % (usize::BITS as int)) as usize)) & 1
}

/// The sum of the cells, computed; the sum must fit in a `usize`.
fn sum_cells(v: &Vec<usize>) -> (r: usize)
    requires
        forall|k: int| 0 <= k <= v@.len() ==> cells_sum(#[trigger] v@.take(k)) <= usize::MAX,
    ensures
        r == cells_sum(v@),
{
    let mut o: usize = 0;
    let mut i: usize = 0;
    while i < v.len()
        invariant
            i <= v@.len(),
            o == cells_sum(v@.take(i as int)),
            forall|k: int| 0 <= k <= v@.len() ==> cells_sum(#[trigger] v@.take(k)) <= usize::MAX,
        decreases v@.len() - i,
    {
        assert(v@.take(i + 1).drop_last() =~= v@.take(i as int));
        assert(cells_sum(v@.take(i + 1)) <= usize::MAX);
        o = o + v[i];
        i = i + 1;
    }
    assert(v@.take(v@.len() as int) =~= v@);
    o
}

/// Code 20 on one neighbourhood: 1 when the cells sum to 2 or 4, else 0.
pub fn code20step(v: &Vec<usize>) -> (r: usize)
    requires
        forall|k: int| 0 <= k <= v@.len() ==> cells_sum(#[trigger] v@.take(k)) <= usize::MAX,
    ensures
        r == code20_value(v@),
{
    let o = sum_cells(v);
    if o == 2 || o == 4 {
        1
    } else {
        0
    }
}

/// The Code 20 rule, as a function of a neighbourhood.
pub fn code_20(v: Vec<usize>) -> (r: usize)
    requires
        forall|k: int| 0 <= k <= v@.len() ==> cells_sum(#[trigger] v@.take(k)) <= usize::MAX,
    ensures
        r == code20_value(v@),
{
    code20step(&v)
}

/// The elementary rule numbered `n`: the new cell is bit `4 a + 2 b + c` of
/// `n` for the neighbourhood `a, b, c`.
pub fn rule_n(n: u8, v: Vec<usize>) -> (r: usize)
    requires
        v@.len() >= 3,
        4 * v@[0] + 2 * v@[1] + v@[2] < 8,
    ensures
        r == (if n & (1u8 << ((4 * v@[0] + 2 * v@[1] + v@[2]) as u8)) != 0 {
            1usize
        } else {
            0usize
        }),
{
    let idx = (4 * v[0] + 2 * v[1] + v[2]) as u8;
    if n & (1u8 << idx) != 0 {
        1
    } else {
        0
    }
}

/// Bits of a number n, the highest of the `length` lowest first. Basically IntegerDigits[inp, 2, length].
pub fn bits(inp: usize, length: usize) -> (r: Vec<usize>)
    ensures
        r@.len() == length,
        forall|k: int| 0 <= k < length ==> #[trigger] r@[k] == rotated_bit(inp, length - 1 - k),
{
    let mut o: Vec<usize> = Vec::new();
    let mut l: usize = length;
    while l > 0
        invariant
            l <= length,
            o@.len() == length - l,
            forall|k: int| 0 <= k < o@.len() ==> #[trigger] o@[k] == rotated_bit(inp, length - 1 - k),
        decreases l,
    {
        l = l - 1;
        let s = l % (usize::BITS as usize);
        o.push((inp >> s) & 1);
    }
    o
}

/// The rule applied, level after level, to the windows of five cells; after
/// `n` levels the one neighbourhood left gives the value. It runs only where no
/// window reaches past the end of the cells: one level, or two levels of two
/// or three cells, where the second level gets no cells at all.
pub fn nest<F: Fn(Vec<usize>) -> usize>(f: F, n: u32, v: Vec<usize>) -> (r: usize)
    requires
        n == 1 || (n == 2 && (v@.len() == 2 || v@.len() == 3)),
        forall|w: Vec<usize>| #[trigger] f.requires((w,)),
    ensures
        n == 1 ==> f.ensures((v,), r),
        n == 2 ==> exists|w: Vec<usize>| #[trigger] f.ensures((w,), r) && w@.len() == 0,
    decreases n,
{
    if n == 1 {
        f(v)
    } else {
        let mut newv: Vec<usize> = Vec::new();
        let mut i: usize = 1;
        while i < v.len() - 2
            invariant
                v@.len() == 2 || v@.len() == 3,
                i == 1,
                newv@.len() == 0,
            decreases v@.len() - 2 - i,
        {
            let mut window: Vec<usize> = Vec::new();
            let mut j: usize = i;
            while j < i + 5
                invariant
                    v@.len() == 2 || v@.len() == 3,
                    i == 1,
                    i < v@.len() - 2,
                    i <= j <= i + 5,
                decreases i + 5 - j,
            {
                window.push(v[j]);
                j = j + 1;
            }
            newv.push(f(window));
            i = i + 1;
        }
        let ghost w = newv;
        let r = nest(f, n - 1, newv);
        assert(f.ensures((w,), r));
        r
    }
}

} // verus!
