//! Code 20 on finite rows of cells, and the search for periodic patterns
//! that grows a row one cell at a time.
use vstd::prelude::*;

verus! {

/// Cell `j` of the row `s`, dead outside the row.
pub open spec fn padded(s: Seq<u8>, j: int) -> int {
    if 0 <= j < s.len() {
        s[j] as int
    } else {
        0
    }
}

/// The sum of the five cells centred on `i`.
pub open spec fn window_sum(s: Seq<u8>, i: int) -> int {
    padded(s, i - 2) + padded(s, i - 1) + padded(s, i) + padded(s, i + 1) + padded(s, i + 2)
}

/// One step of Code 20 on a row with dead cells beyond both ends.
pub open spec fn ca_step(s: Seq<u8>) -> Seq<u8> {
    Seq::new(
        s.len(),
        |i: int|
            if window_sum(s, i) == 2 || window_sum(s, i) == 4 {
                1u8
            } else {
                0u8
            },
    )
}

/// The row after `t` steps.
pub open spec fn ca_iter(s: Seq<u8>, t: nat) -> Seq<u8>
    decreases t,
{
    if t == 0 {
        s
    } else {
        ca_step(ca_iter(s, (t - 1) as nat))
    }
}

/// Every cell is at most `m`.
pub open spec fn cells_at_most(s: Seq<u8>, m: u8) -> bool {
    forall|i: int| 0 <= i < s.len() ==> #[trigger] s[i] <= m
}

/// A stepped row keeps its length and holds only 0s and 1s.
pub proof fn lemma_ca_iter_shape(s: Seq<u8>, t: nat)
    ensures
        ca_iter(s, t).len() == s.len(),
        t > 0 ==> cells_at_most(ca_iter(s, t), 1),
    decreases t,
{
    if t > 0 {
        lemma_ca_iter_shape(s, (t - 1) as nat);
    }
}

/// One step of Code 20: a cell lives when two or four of the five cells
/// around it (itself included) live.
pub fn castep(inp: &Vec<u8>) -> (out: Vec<u8>)
    requires
        cells_at_most(inp@, 51),
    ensures
        out@ == ca_step(inp@),
{
    let mut thing: Vec<u8> = vec![0, 0];
    for i in 0..inp.len()
        invariant
            thing@.len() == i + 2,
            thing@[0] == 0 && thing@[1] == 0,
            forall|j: int| 0 <= j < i ==> #[trigger] thing@[j + 2] == inp@[j],
    {
        thing.push(inp[i]);
    }
    thing.push(0);
    thing.push(0);
    proof {
        assert forall|j: int| 0 <= j < thing@.len() implies #[trigger] thing@[j] as int == padded(inp@, j - 2) by {
            if 2 <= j < inp@.len() + 2 {
                assert(thing@[(j - 2) + 2] == inp@[j - 2]);
            }
        }
    }

    let mut out: Vec<u8> = Vec::new();
    let tl = thing.len();
    for i in 0..inp.len()
        invariant
            tl == thing@.len(),
            thing@.len() == inp@.len() + 4,
            cells_at_most(inp@, 51),
            forall|j: int| 0 <= j < thing@.len() ==> #[trigger] thing@[j] as int == padded(inp@, j - 2),
            out@.len() == i,
            forall|j: int| 0 <= j < i ==> #[trigger] out@[j] == ca_step(inp@)[j],
    {
        proof {
            assert(0 <= padded(inp@, i - 2) <= 51);
            assert(0 <= padded(inp@, i - 1) <= 51);
            assert(0 <= padded(inp@, i as int) <= 51);
            assert(0 <= padded(inp@, i + 1) <= 51);
            assert(0 <= padded(inp@, i + 2) <= 51);
            assert(thing@[i as int] as int == padded(inp@, i - 2));
            assert(thing@[i + 1] as int == padded(inp@, i - 1));
            assert(thing@[i + 2] as int == padded(inp@, i as int));
            assert(thing@[i + 3] as int == padded(inp@, i + 1));
            assert(thing@[i + 4] as int == padded(inp@, i + 2));
        }
        let (c0, c1, c2, c3, c4) = (thing[i], thing[i + 1], thing[i + 2], thing[i + 3], thing[i + 4]);
        assert(c0 <= 51 && c1 <= 51 && c2 <= 51 && c3 <= 51 && c4 <= 51);
        let sum = c0 + c1 + c2 + c3 + c4;
        proof {
            assert(sum == window_sum(inp@, i as int));
        }
        out.push(if sum == 2 || sum == 4 {
            1
        } else {
            0
        });
    }
    assert(out@ =~= ca_step(inp@));
    out
}

/// The row and its next `t` steps.
pub fn carun(inp: Vec<u8>, t: usize) -> (o: Vec<Vec<u8>>)
    requires
        cells_at_most(inp@, 51),
    ensures
        o@.len() == t + 1,
        forall|k: int| 0 <= k <= t ==> #[trigger] o@[k]@ == ca_iter(inp@, k as nat),
{
    let ghost start = inp@;
    let mut o: Vec<Vec<u8>> = vec![inp];
    for k in 0..t
        invariant
            o@.len() == k + 1,
            cells_at_most(start, 51),
            forall|j: int| 0 <= j <= k ==> #[trigger] o@[j]@ == ca_iter(start, j as nat),
    {
        let last = o.len() - 1;
        proof {
            lemma_ca_iter_shape(start, k as nat);
            assert(cells_at_most(o@[last as int]@, 51));
        }
        let next = castep(&o[last]);
        o.push(next);
    }
    o
}

/// The length of the run of zeros that ends just before position `i`.
pub open spec fn zero_run(s: Seq<u8>, i: int) -> nat
    decreases i,
{
    if i <= 0 {
        0
    } else if s[i - 1] == 0 {
        zero_run(s, i - 1) + 1
    } else {
        0
    }
}

/// The length of the longest run of consecutive zeros.
pub fn largest_sequential_zeros(list: Vec<u8>) -> (r: usize)
    ensures
        exists|i: int| 0 <= i <= list@.len() && zero_run(list@, i) == r,
        forall|i: int| 0 <= i <= list@.len() ==> zero_run(list@, i) <= r,
{
    let mut best: usize = 0;
    let mut cur: usize = 0;
    assert(zero_run(list@, 0) == 0);
    for i in 0..list.len()
        invariant
            cur == zero_run(list@, i as int),
            cur <= i,
            exists|j: int| 0 <= j <= i && zero_run(list@, j) == best,
            forall|j: int| 0 <= j <= i ==> zero_run(list@, j) <= best,
    {
        if list[i] == 0 {
            cur = cur + 1;
        } else {
            cur = 0;
        }
        if cur > best {
            best = cur;
        }
        proof {
            assert(cur == zero_run(list@, i + 1));
        }
    }
    best
}

/// `sub` occurs in `list` at position `i`.
pub open spec fn occurs_at(list: Seq<u8>, sub: Seq<u8>, i: int) -> bool {
    0 <= i && i + sub.len() <= list.len() && list.subrange(i, i + sub.len()) == sub
}

/// The number of positions below `n` at which `sub` occurs in `list`.
pub open spec fn count_occurrences(list: Seq<u8>, sub: Seq<u8>, n: int) -> nat
    decreases n,
{
    if n <= 0 {
        0
    } else {
        count_occurrences(list, sub, n - 1) + if occurs_at(list, sub, n - 1) {
            1nat
        } else {
            0nat
        }
    }
}

/// Whether `sub` occurs in `list` at `i`.
fn matches_at(list: &[u8], sub: &[u8], i: usize) -> (r: bool)
    requires
        i + sub@.len() <= list@.len(),
    ensures
        r == occurs_at(list@, sub@, i as int),
{
    let n = sub.len();
    let ll = list.len();
    for j in 0..n
        invariant
            n == sub@.len(),
            ll == list@.len(),
            i + sub@.len() <= list@.len(),
            forall|m: int| 0 <= m < j ==> list@[i + m] == sub@[m],
    {
        assert(i + j < list@.len());
        if list[i + j] != sub[j] {
            proof {
                assert(list@.subrange(i as int, i + sub@.len())[j as int] != sub@[j as int]);
            }
            return false;
        }
    }
    assert(list@.subrange(i as int, i + sub@.len()) =~= sub@);
    true
}

/// The number of (possibly overlapping) occurrences of `sub` in `list`;
/// zero when `sub` is empty or longer than `list`.
pub fn sequence_count(list: &[u8], sub: &[u8]) -> (r: usize)
    ensures
        r == if sub@.len() == 0 || sub@.len() > list@.len() {
            0
        } else {
            count_occurrences(list@, sub@, list@.len() - sub@.len() + 1)
        },
{
    if sub.len() == 0 || sub.len() > list.len() {
        return 0;
    }
    let windows = list.len() - sub.len() + 1;
    let mut count: usize = 0;
    for i in 0..windows
        invariant
            windows == list@.len() - sub@.len() + 1,
            sub@.len() <= list@.len(),
            count == count_occurrences(list@, sub@, i as int),
            count <= i,
    {
        if matches_at(list, sub, i) {
            count = count + 1;
        }
    }
    count
}

/// The index of the first nonzero cell at or after `i`, or the row's length.
pub open spec fn first_nonzero_from(v: Seq<u8>, i: int) -> int
    decreases v.len() - i,
{
    if i >= v.len() {
        v.len() as int
    } else if v[i] != 0 {
        i
    } else {
        first_nonzero_from(v, i + 1)
    }
}

/// The row without its leading and trailing zeros (empty when all are zero).
pub open spec fn trimmed(v: Seq<u8>) -> Seq<u8> {
    let start = first_nonzero_from(v, 0);
    if start >= v.len() {
        Seq::empty()
    } else {
        let end = v.len() - first_nonzero_from(v.reverse(), 0);
        v.subrange(start, end)
    }
}

/// `first_nonzero_from` finds the first nonzero cell at or after `i`.
pub proof fn lemma_first_nonzero_from(v: Seq<u8>, i: int)
    requires
        0 <= i <= v.len(),
    ensures
        i <= first_nonzero_from(v, i) <= v.len(),
        forall|j: int| i <= j < first_nonzero_from(v, i) ==> v[j] == 0,
        first_nonzero_from(v, i) < v.len() ==> v[first_nonzero_from(v, i)] != 0,
    decreases v.len() - i,
{
    if i < v.len() && v[i] == 0 {
        lemma_first_nonzero_from(v, i + 1);
    }
}

/// The row without its leading and trailing zeros.
pub fn remove_surrounding_zeros(v: Vec<u8>) -> (r: Vec<u8>)
    ensures
        r@ == trimmed(v@),
{
    proof {
        lemma_first_nonzero_from(v@, 0);
        lemma_first_nonzero_from(v@.reverse(), 0);
    }
    let mut start: usize = 0;
    while start < v.len() && v[start] == 0
        invariant
            start <= v@.len(),
            forall|j: int| 0 <= j < start ==> v@[j] == 0,
        decreases v@.len() - start,
    {
        start = start + 1;
    }
    proof {
        assert(start == first_nonzero_from(v@, 0)) by {
            let f = first_nonzero_from(v@, 0);
            if f < start {
                assert(v@[f] == 0);
            }
            if start < f {
                assert(v@[start as int] == 0);
            }
        }
    }
    let mut end: usize = v.len();
    while end > 0 && v[end - 1] == 0
        invariant
            end <= v@.len(),
            forall|j: int| end <= j < v@.len() ==> v@[j] == 0,
        decreases end,
    {
        end = end - 1;
    }
    proof {
        let rv = v@.reverse();
        let f = first_nonzero_from(rv, 0);
        assert(v@.len() - end == f) by {
            if f < v@.len() - end {
                assert(rv[f] == v@[v@.len() - 1 - f]);
            }
            if v@.len() - end < f {
                assert(rv[v@.len() - end] == v@[end - 1]);
                assert(rv[v@.len() - end] == 0);
            }
        }
    }
    if start >= end {
        proof {
            if start < v@.len() {
                assert(v@[start as int] != 0);
                assert(start < end);
            }
        }
        Vec::new()
    } else {
        let mut r: Vec<u8> = Vec::new();
        for i in start..end
            invariant
                start <= end <= v@.len(),
                r@ == v@.subrange(start as int, i as int),
        {
            r.push(v[i]);
            proof {
                assert(r@ =~= v@.subrange(start as int, i + 1));
            }
        }
        r
    }
}

/// `n` dead cells.
pub open spec fn zeros(n: nat) -> Seq<u8> {
    Seq::new(n, |i: int| 0u8)
}

/// The row with `pad` dead cells added on both sides.
pub open spec fn padded_row(s: Seq<u8>, pad: nat) -> Seq<u8> {
    zeros(pad) + s + zeros(pad)
}

/// Appends `n` dead cells to `v`.
fn push_zeros(v: &mut Vec<u8>, n: usize)
    ensures
        final(v)@ == old(v)@ + zeros(n as nat),
{
    for i in 0..n
        invariant
            v@ == old(v)@ + zeros(i as nat),
    {
        v.push(0);
        proof {
            assert(v@ =~= old(v)@ + zeros((i + 1) as nat));
        }
    }
}

/// Appends the cells of `s` to `v`.
fn push_all(v: &mut Vec<u8>, s: &Vec<u8>)
    ensures
        final(v)@ == old(v)@ + s@,
{
    for i in 0..s.len()
        invariant
            v@ == old(v)@ + s@.subrange(0, i as int),
    {
        v.push(s[i]);
        proof {
            assert(v@ =~= old(v)@ + s@.subrange(0, i + 1));
        }
    }
    assert(s@.subrange(0, s@.len() as int) =~= s@);
}

/// The row `s` with `pad` dead cells on both sides.
fn pad_row(s: &Vec<u8>, pad: usize) -> (r: Vec<u8>)
    ensures
        r@ == padded_row(s@, pad as nat),
{
    let mut r: Vec<u8> = Vec::new();
    push_zeros(&mut r, pad);
    push_all(&mut r, s);
    push_zeros(&mut r, pad);
    proof {
        assert(r@ =~= padded_row(s@, pad as nat));
    }
    r
}

/// The or of column `ci` over the rows `0..n`.
pub open spec fn or_column(rows: spec_fn(nat) -> Seq<u8>, ci: int, n: nat) -> u8
    decreases n,
{
    if n == 0 {
        0
    } else {
        or_column(rows, ci, (n - 1) as nat) | rows((n - 1) as nat)[ci]
    }
}

/// The rows of the evolution of `s` padded with `2 p` dead cells.
pub open spec fn m8_rows(s: Seq<u8>, p: nat) -> spec_fn(nat) -> Seq<u8> {
    |t: nat| ca_iter(padded_row(s, 2 * p), t)
}

/// The column-wise or over the first `p` rows of the evolution of `s`.
pub open spec fn m8_condensed(s: Seq<u8>, p: nat) -> Seq<u8> {
    Seq::new((s.len() + 4 * p) as nat, |ci: int| or_column(m8_rows(s, p), ci, p))
}

/// The centre cell after `p` steps is what a row of period `p` needs there.
pub open spec fn m8_center_invariant(s: Seq<u8>, p: nat) -> bool {
    let cbp = s.len() - 2 * p - 1;
    let expected: u8 = if cbp < 4 * p + 1 {
        0
    } else if cbp == 4 * p + 1 {
        1
    } else {
        s[cbp]
    };
    expected == m8_rows(s, p)(p)[cbp + 2 * p]
}

/// No run of dead columns of length `2 p + 1` or more in the inner part of
/// the condensed evolution.
pub open spec fn m8_unseparated(s: Seq<u8>, p: nat) -> bool {
    forall|i: int| 0 <= i <= m8_inner(s, p).len() ==> #[trigger] zero_run(m8_inner(s, p), i) < 2 * p + 1
}

/// The inner part of the condensed evolution, where no long gap may appear.
pub open spec fn m8_inner(s: Seq<u8>, p: nat) -> Seq<u8> {
    m8_condensed(s, p).subrange((6 * p + 1) as int, s.len() + 2 * p - 1)
}

/// No known pattern occurs in `s`.
pub open spec fn m8_not_known(s: Seq<u8>, known: Seq<Seq<u8>>) -> bool {
    forall|j: int|
        0 <= j < known.len() ==> (known[j].len() == 0 || known[j].len() > s.len()
            || count_occurrences(s, known[j], s.len() - known[j].len() + 1) == 0)
}

/// All the checks that keep a partial row in the search.
pub open spec fn m8_total(s: Seq<u8>, p: nat, known: Seq<Seq<u8>>) -> bool {
    m8_center_invariant(s, p) && m8_unseparated(s, p) && m8_not_known(s, known)
}

/// The partial row is a finished pattern: after `p` steps it looks the same.
pub open spec fn m8_done(s: Seq<u8>, p: nat) -> bool {
    trimmed(s) == trimmed(m8_rows(s, p)(p))
}

/// The rows that the search from `s` reports, in the order it finds them.
pub open spec fn m8_collect(s: Seq<u8>, p: nat, known: Seq<Seq<u8>>, limit: nat) -> Seq<Seq<u8>>
    decreases limit - s.len(),
{
    if s.len() >= limit || !m8_total(s, p, known) {
        Seq::empty()
    } else if m8_done(s, p) {
        seq![s]
    } else {
        m8_collect(s.push(0), p, known, limit) + m8_collect(s.push(1), p, known, limit)
    }
}

/// Whether some known pattern occurs in `s`.
fn any_known(s: &Vec<u8>, known: &Vec<Vec<u8>>) -> (r: bool)
    ensures
        r == !m8_not_known(s@, known@.map_values(|k: Vec<u8>| k@)),
{
    let ghost ks = known@.map_values(|k: Vec<u8>| k@);
    for j in 0..known.len()
        invariant
            ks == known@.map_values(|k: Vec<u8>| k@),
            forall|m: int|
                0 <= m < j ==> (ks[m].len() == 0 || ks[m].len() > s@.len()
                    || count_occurrences(s@, ks[m], s@.len() - ks[m].len() + 1) == 0),
    {
        let c = sequence_count(s.as_slice(), known[j].as_slice());
        proof {
            assert(ks[j as int] == known@[j as int]@);
        }
        if c >= 1 {
            return true;
        }
    }
    false
}

/// The column-wise or over the first `p` rows of `fullca`.
fn condense(fullca: &Vec<Vec<u8>>, p: usize, width: usize, ghost_rows: Ghost<spec_fn(nat) -> Seq<u8>>) -> (c: Vec<u8>)
    requires
        fullca@.len() > p,
        forall|ri: int| 0 <= ri < fullca@.len() ==> #[trigger] fullca@[ri]@ == ghost_rows@(ri as nat),
        forall|ri: int| 0 <= ri < fullca@.len() ==> #[trigger] fullca@[ri]@.len() == width,
    ensures
        c@ == Seq::new(width as nat, |ci: int| or_column(ghost_rows@, ci, p as nat)),
{
    let mut c: Vec<u8> = Vec::new();
    for ci in 0..width
        invariant
            fullca@.len() > p,
            forall|ri: int| 0 <= ri < fullca@.len() ==> #[trigger] fullca@[ri]@ == ghost_rows@(ri as nat),
            forall|ri: int| 0 <= ri < fullca@.len() ==> #[trigger] fullca@[ri]@.len() == width,
            c@.len() == ci,
            forall|j: int| 0 <= j < ci ==> #[trigger] c@[j] == or_column(ghost_rows@, j, p as nat),
    {
        let mut acc: u8 = 0;
        for ri in 0..p
            invariant
                fullca@.len() > p,
                ci < width,
                forall|r: int| 0 <= r < fullca@.len() ==> #[trigger] fullca@[r]@ == ghost_rows@(r as nat),
                forall|r: int| 0 <= r < fullca@.len() ==> #[trigger] fullca@[r]@.len() == width,
                acc == or_column(ghost_rows@, ci as int, ri as nat),
        {
            acc = acc | fullca[ri][ci];
        }
        c.push(acc);
    }
    assert(c@ =~= Seq::new(width as nat, |ci: int| or_column(ghost_rows@, ci, p as nat)));
    c
}

/// Whether two rows are equal.
fn rows_equal(a: &Vec<u8>, b: &Vec<u8>) -> (r: bool)
    ensures
        r == (a@ == b@),
{
    if a.len() != b.len() {
        return false;
    }
    for i in 0..a.len()
        invariant
            a@.len() == b@.len(),
            forall|j: int| 0 <= j < i ==> a@[j] == b@[j],
    {
        if a[i] != b[i] {
            return false;
        }
    }
    assert(a@ =~= b@);
    true
}

/// The checks of the search on the partial row `s`: whether it passes them
/// all, and its padded row after `p` steps.
fn m8_check(s: &Vec<u8>, p: usize, known: &Vec<Vec<u8>>) -> (r: (bool, Vec<u8>))
    requires
        1 <= p,
        4 * p + 2 <= s@.len(),
        s@.len() + 4 * p + 2 <= usize::MAX,
        cells_at_most(s@, 1),
    ensures
        r.0 == m8_total(s@, p as nat, known@.map_values(|k: Vec<u8>| k@)),
        r.1@ == m8_rows(s@, p as nat)(p as nat),
{
    let ghost ks = known@.map_values(|k: Vec<u8>| k@);
    let slen = s.len();
    let centerbitpos = slen - 2 * p - 1;

    let spad = pad_row(s, 2 * p);
    proof {
        assert forall|i: int| 0 <= i < spad@.len() implies #[trigger] spad@[i] <= 51 by {
            if 2 * p <= i < 2 * p + slen {
                assert(spad@[i] == s@[i - 2 * p]);
            }
        }
    }

    let fullca: Vec<Vec<u8>> = carun(spad, p);
    let ghost rows = m8_rows(s@, p as nat);
    proof {
        assert forall|ri: int| 0 <= ri < fullca@.len() implies #[trigger] fullca@[ri]@.len() == slen + 4 * p by {
            lemma_ca_iter_shape(padded_row(s@, 2 * p as nat), ri as nat);
        }
    }

    let expected: u8 = if centerbitpos < 4 * p + 1 {
        0
    } else if centerbitpos == 4 * p + 1 {
        1
    } else {
        s[centerbitpos]
    };
    let centerinvariant = expected == fullca[p][centerbitpos + 2 * p];

    let condensed = condense(&fullca, p, slen + 4 * p, Ghost(rows));
    let mut inner: Vec<u8> = Vec::new();
    let lo = 6 * p + 1;
    let hi = slen + 4 * p - 2 * p - 1;
    let mut ci = lo;
    while ci < hi
        invariant
            condensed@.len() == slen + 4 * p,
            lo == 6 * p + 1,
            lo <= ci <= hi,
            hi == slen + 4 * p - 2 * p - 1,
            hi <= condensed@.len(),
            inner@ == condensed@.subrange(lo as int, ci as int),
        decreases hi - ci,
    {
        inner.push(condensed[ci]);
        proof {
            assert(inner@ =~= condensed@.subrange(lo as int, ci + 1));
        }
        ci = ci + 1;
    }
    let ghost inner_view = inner@;
    let largest = largest_sequential_zeros(inner);
    let unseperated = largest < 2 * p + 1;
    let notknown = !any_known(s, known);

    let total = centerinvariant && unseperated && notknown;
    proof {
        assert(condensed@ =~= m8_condensed(s@, p as nat));
        assert(fullca@[p as int]@ == rows(p as nat));
        assert(centerinvariant == m8_center_invariant(s@, p as nat));
        let target = m8_inner(s@, p as nat);
        assert(inner_view =~= target);
        if !unseperated {
            let i = choose|i: int| 0 <= i <= inner_view.len() && zero_run(inner_view, i) == largest;
            assert(zero_run(target, i) >= 2 * p + 1);
        }
        assert(unseperated == m8_unseparated(s@, p as nat));
        assert(notknown == m8_not_known(s@, ks));
    }
    let last_row = fullca[p].clone();
    (total, last_row)
}

/// The search step: checks the partial row `s` and either records it,
/// drops it, or tries it extended by a dead and then by a live cell.
fn m8r(s: Vec<u8>, p: usize, known: &Vec<Vec<u8>>, working: &mut Vec<Vec<u8>>, limit: usize)
    requires
        1 <= p,
        4 * p + 2 <= s@.len(),
        limit + 4 * p + 2 <= usize::MAX,
        cells_at_most(s@, 1),
    ensures
        final(working)@.map_values(|v: Vec<u8>| v@) == old(working)@.map_values(|v: Vec<u8>| v@)
            + m8_collect(s@, p as nat, known@.map_values(|k: Vec<u8>| k@), limit as nat),
    decreases limit - s@.len(),
{
    let ghost ks = known@.map_values(|k: Vec<u8>| k@);
    let ghost before = old(working)@.map_values(|v: Vec<u8>| v@);
    if s.len() >= limit {
        proof {
            assert(working@.map_values(|v: Vec<u8>| v@) =~= before + Seq::<Seq<u8>>::empty());
        }
        return;
    }
    let (total, last_row) = m8_check(&s, p, known);

    if total {
        let a = remove_surrounding_zeros(s.clone());
        let b = remove_surrounding_zeros(last_row);
        if rows_equal(&a, &b) {
            working.push(s.clone());
            proof {
                assert(working@.map_values(|v: Vec<u8>| v@) =~= before + seq![s@]);
            }
        } else {
            let mut s1 = s.clone();
            let mut s2 = s.clone();
            s1.push(0);
            s2.push(1);
            proof {
                assert(s1@ == s@.push(0));
                assert(s2@ == s@.push(1));
            }
            m8r(s1, p, known, working, limit);
            let ghost mid = working@.map_values(|v: Vec<u8>| v@);
            m8r(s2, p, known, working, limit);
            proof {
                assert(working@.map_values(|v: Vec<u8>| v@) =~= before + m8_collect(s@, p as nat, ks, limit as nat));
            }
        }
    } else {
        proof {
            assert(working@.map_values(|v: Vec<u8>| v@) =~= before + Seq::<Seq<u8>>::empty());
        }
    }
}

/// Searches for rows of period `p`, growing a row from a single live cell
/// after `4 p + 1` dead ones. Rows in which a pattern of `known` occurs are
/// dropped. Rows are grown while they fit in memory: not beyond
/// `isize::MAX - 4 p - 2` cells.
pub fn method8(p: usize, known: &Vec<Vec<u8>>) -> (working: Vec<Vec<u8>>)
    requires
        1 <= p,
        4 * p + 2 <= isize::MAX,
    ensures
        working@.map_values(|v: Vec<u8>| v@) == m8_collect(
            zeros((4 * p + 1) as nat).push(1),
            p as nat,
            known@.map_values(|k: Vec<u8>| k@),
            (isize::MAX - 4 * p - 2) as nat,
        ),
{
    let mut s0: Vec<u8> = Vec::new();
    push_zeros(&mut s0, 4 * p + 1);
    s0.push(1);
    proof {
        assert(s0@ =~= zeros((4 * p + 1) as nat).push(1));
    }

    let mut working: Vec<Vec<u8>> = Vec::new();
    let limit = (isize::MAX as usize) - 4 * p - 2;
    m8r(s0, p, known, &mut working, limit);
    proof {
        assert(working@.map_values(|v: Vec<u8>| v@) =~= Seq::<Seq<u8>>::empty() + m8_collect(
            zeros((4 * p + 1) as nat).push(1),
            p as nat,
            known@.map_values(|k: Vec<u8>| k@),
            limit as nat,
        ));
    }
    working
}

/// The padded evolution that `normal` looks at for the row `s`.
pub open spec fn normal_rows(s: Seq<u8>, p: nat) -> spec_fn(nat) -> Seq<u8> {
    |t: nat| ca_iter(padded_row(s, 2 * p + 1), t)
}

/// Steps `1..p` of the padded evolution all differ from the row itself, up to surrounding zeros.
pub open spec fn no_early_return(s: Seq<u8>, p: nat) -> bool {
    forall|t: nat| 1 <= t < p ==> trimmed(#[trigger] normal_rows(s, p)(t)) != trimmed(normal_rows(s, p)(0))
}

/// What `normal` has kept, and the trimmed rows it has seen, after the first `n` candidates.
pub open spec fn normal_state(sv: Seq<Seq<u8>>, p: nat, n: nat) -> (Seq<Seq<u8>>, Seq<Seq<u8>>)
    decreases n,
{
    if n == 0 || n > sv.len() {
        (Seq::empty(), Seq::empty())
    } else {
        let prev = normal_state(sv, p, (n - 1) as nat);
        let s = sv[n - 1];
        if no_early_return(s, p) && !prev.1.contains(trimmed(s)) {
            (prev.0.push(s), prev.1 + Seq::new(p + 1, |t: int| trimmed(normal_rows(s, p)(t as nat))))
        } else {
            prev
        }
    }
}

/// Whether the rows contain `x`.
fn contains_row(rows: &Vec<Vec<u8>>, x: &Vec<u8>) -> (r: bool)
    ensures
        r == rows@.map_values(|v: Vec<u8>| v@).contains(x@),
{
    let ghost rs = rows@.map_values(|v: Vec<u8>| v@);
    for i in 0..rows.len()
        invariant
            rs == rows@.map_values(|v: Vec<u8>| v@),
            forall|j: int| 0 <= j < i ==> rs[j] != x@,
    {
        if rows_equal(&rows[i], x) {
            proof {
                assert(rs[i as int] == x@);
            }
            return true;
        }
    }
    false
}

/// Keeps the rows of exact period `p` (no earlier step looks like the row
/// itself), dropping any whose trimmed form showed up in the evolution of a
/// row kept before.
pub fn normal(sv: Vec<Vec<u8>>, p: usize) -> (o: Vec<Vec<u8>>)
    requires
        forall|i: int| 0 <= i < sv@.len() ==> cells_at_most(#[trigger] sv@[i]@, 1),
        forall|i: int| 0 <= i < sv@.len() ==> #[trigger] sv@[i]@.len() + 4 * p + 2 <= usize::MAX,
        p + 1 <= usize::MAX,
    ensures
        o@.map_values(|v: Vec<u8>| v@) == normal_state(sv@.map_values(|v: Vec<u8>| v@), p as nat, sv@.len() as nat).0,
{
    let ghost svs = sv@.map_values(|v: Vec<u8>| v@);
    let mut seen: Vec<Vec<u8>> = Vec::new();
    let mut o: Vec<Vec<u8>> = Vec::new();

    for i in 0..sv.len()
        invariant
            svs == sv@.map_values(|v: Vec<u8>| v@),
            forall|j: int| 0 <= j < sv@.len() ==> cells_at_most(#[trigger] sv@[j]@, 1),
            forall|j: int| 0 <= j < sv@.len() ==> #[trigger] sv@[j]@.len() + 4 * p + 2 <= usize::MAX,
            o@.map_values(|v: Vec<u8>| v@) == normal_state(svs, p as nat, i as nat).0,
            seen@.map_values(|v: Vec<u8>| v@) == normal_state(svs, p as nat, i as nat).1,
    {
        let s = &sv[i];
        proof {
            assert(svs[i as int] == s@);
        }
        let thing = pad_row(s, 2 * p + 1);
        proof {
            assert forall|j: int| 0 <= j < thing@.len() implies #[trigger] thing@[j] <= 51 by {
                if 2 * p + 1 <= j < 2 * p + 1 + s@.len() {
                    assert(thing@[j] == s@[j - (2 * p + 1)]);
                }
            }
        }

        let fullca = carun(thing, p);
        let ghost rows = normal_rows(s@, p as nat);
        let first = remove_surrounding_zeros(fullca[0].clone());
        let mut all_differ = true;
        let mut r: usize = 1;
        while r < p
            invariant
                1 <= r,
                r <= p || r == 1,
                fullca@.len() == p + 1,
                forall|k: int| 0 <= k <= p ==> #[trigger] fullca@[k]@ == rows(k as nat),
                first@ == trimmed(rows(0)),
                all_differ == forall|t: nat| 1 <= t < r ==> trimmed(#[trigger] rows(t)) != trimmed(rows(0)),
            decreases p - r,
        {
            let tr = remove_surrounding_zeros(fullca[r].clone());
            if rows_equal(&tr, &first) {
                all_differ = false;
            }
            proof {
                assert(fullca@[r as int]@ == rows(r as nat));
            }
            r = r + 1;
        }
        proof {
            if p == 0 {
                assert(all_differ == no_early_return(s@, p as nat));
            }
            assert(all_differ == no_early_return(s@, p as nat));
        }

        if all_differ {
            let ts = remove_surrounding_zeros(s.clone());
            if !contains_row(&seen, &ts) {
                o.push(s.clone());

                let ghost seen_before = seen@.map_values(|v: Vec<u8>| v@);
                for k in 0..fullca.len()
                    invariant
                        fullca@.len() == p + 1,
                        forall|m: int| 0 <= m <= p ==> #[trigger] fullca@[m]@ == rows(m as nat),
                        seen@.map_values(|v: Vec<u8>| v@) == seen_before + Seq::new(k as nat, |t: int| trimmed(rows(t as nat))),
                {
                    let tr = remove_surrounding_zeros(fullca[k].clone());
                    proof {
                        assert(fullca@[k as int]@ == rows(k as nat));
                    }
                    let ghost trv = tr@;
                    let ghost prev = seen@;
                    seen.push(tr);
                    proof {
                        assert(seen@.map_values(|v: Vec<u8>| v@) =~= prev.map_values(|v: Vec<u8>| v@).push(trv));
                        assert(seen@.map_values(|v: Vec<u8>| v@) =~= seen_before + Seq::new((k + 1) as nat, |t: int| trimmed(rows(t as nat))));
                    }
                }
                proof {
                    assert(o@.map_values(|v: Vec<u8>| v@) =~= normal_state(svs, p as nat, i as nat).0.push(s@));
                }
            }
        }
    }
    proof {
        assert(svs.len() == sv@.len());
    }
    o
}

/// The trimmed rows of the padded evolution of `k` over steps `0..=p` hold `x`.
proof fn lemma_seen_rows(sv: Seq<Seq<u8>>, p: nat, n: nat, x: Seq<u8>)
    ensures
        normal_state(sv, p, n).1.contains(x) <==> exists|j: int, t: nat|
            0 <= j < normal_state(sv, p, n).0.len() && t <= p && x == trimmed(
                #[trigger] ca_iter(padded_row(normal_state(sv, p, n).0[j], 2 * p + 1), t),
            ),
    decreases n,
{
    if n == 0 || n > sv.len() {
    } else {
        let prev = normal_state(sv, p, (n - 1) as nat);
        lemma_seen_rows(sv, p, (n - 1) as nat, x);
        let s = sv[n - 1];
        if no_early_return(s, p) && !prev.1.contains(trimmed(s)) {
            let add = Seq::new(p + 1, |t: int| trimmed(normal_rows(s, p)(t as nat)));
            let cur = normal_state(sv, p, n);
            assert(cur.0 == prev.0.push(s));
            assert(cur.1 == prev.1 + add);
            if cur.1.contains(x) {
                let i = choose|i: int| 0 <= i < cur.1.len() && cur.1[i] == x;
                if i < prev.1.len() {
                    assert(prev.1[i] == x);
                    let (j, t) = choose|j: int, t: nat|
                        0 <= j < prev.0.len() && t <= p && x == trimmed(
                            #[trigger] ca_iter(padded_row(prev.0[j], 2 * p + 1), t),
                        );
                    assert(cur.0[j] == prev.0[j]);
                } else {
                    let t = (i - prev.1.len()) as nat;
                    assert(add[t as int] == x);
                    assert(cur.0[prev.0.len() as int] == s);
                    assert(x == trimmed(ca_iter(padded_row(cur.0[prev.0.len() as int], 2 * p + 1), t)));
                }
            }
            if exists|j: int, t: nat|
                0 <= j < cur.0.len() && t <= p && x == trimmed(#[trigger] ca_iter(padded_row(cur.0[j], 2 * p + 1), t)) {
                let (j, t) = choose|j: int, t: nat|
                    0 <= j < cur.0.len() && t <= p && x == trimmed(#[trigger] ca_iter(padded_row(cur.0[j], 2 * p + 1), t));
                if j < prev.0.len() {
                    assert(cur.0[j] == prev.0[j]);
                    assert(prev.1.contains(x));
                    let i = choose|i: int| 0 <= i < prev.1.len() && prev.1[i] == x;
                    assert(cur.1[i] == x);
                } else {
                    assert(cur.0[j] == s);
                    assert(add[t as int] == x);
                    assert(cur.1[(prev.1.len() + t) as int] == x);
                }
            }
        }
    }
}

/// What `normal` does with each candidate row `s = sv[i]`, given the rows it
/// kept from the candidates before: it keeps `s` exactly when no step of the
/// padded evolution of `s` among `1..p` shows the same trimmed row as `s`
/// itself, and the trimmed `s` is not the trimmed row of any step `0..=p` of
/// the padded evolution of a row kept before; otherwise it leaves the kept
/// rows as they were.
pub proof fn law_normal_keeps(sv: Seq<Seq<u8>>, p: nat, i: nat)
    requires
        i < sv.len(),
    ensures
        ({
            let s = sv[i as int];
            let before = normal_state(sv, p, i).0;
            let keep = (forall|t: nat|
                1 <= t < p ==> #[trigger] trimmed(ca_iter(padded_row(s, 2 * p + 1), t)) != trimmed(
                    ca_iter(padded_row(s, 2 * p + 1), 0),
                )) && !(exists|j: int, t: nat|
                0 <= j < before.len() && t <= p && trimmed(s) == trimmed(
                    #[trigger] ca_iter(padded_row(before[j], 2 * p + 1), t),
                ));
            normal_state(sv, p, i + 1).0 == if keep {
                before.push(s)
            } else {
                before
            }
        }),
{
    lemma_seen_rows(sv, p, i, trimmed(sv[i as int]));
    let s = sv[i as int];
    assert(no_early_return(s, p) == forall|t: nat|
        1 <= t < p ==> #[trigger] trimmed(ca_iter(padded_row(s, 2 * p + 1), t)) != trimmed(
            ca_iter(padded_row(s, 2 * p + 1), 0),
        )) by {
        if no_early_return(s, p) {
            assert forall|t: nat| 1 <= t < p implies #[trigger] trimmed(ca_iter(padded_row(s, 2 * p + 1), t))
                != trimmed(ca_iter(padded_row(s, 2 * p + 1), 0)) by {
                assert(trimmed(normal_rows(s, p)(t)) != trimmed(normal_rows(s, p)(0)));
            }
        } else {
            let t = choose|t: nat| 1 <= t < p && !(trimmed(#[trigger] normal_rows(s, p)(t)) != trimmed(normal_rows(s, p)(0)));
            assert(trimmed(ca_iter(padded_row(s, 2 * p + 1), t)) == trimmed(ca_iter(padded_row(s, 2 * p + 1), 0)));
        }
    }
}

/// Every row `normal` keeps from `sv` comes back, trimmed, after no step
/// among `1..p` of its padded evolution, and none of them is a trimmed row of
/// the evolution (steps `0..=p`) of a row kept before it.
pub proof fn law_normal_kept_rows(sv: Seq<Seq<u8>>, p: nat, n: nat)
    requires
        n <= sv.len(),
    ensures
        forall|j: int, t: nat|
            0 <= j < normal_state(sv, p, n).0.len() && 1 <= t < p ==> #[trigger] trimmed(
                ca_iter(padded_row(normal_state(sv, p, n).0[j], 2 * p + 1), t),
            ) != trimmed(ca_iter(padded_row(normal_state(sv, p, n).0[j], 2 * p + 1), 0)),
        forall|j: int, k: int, t: nat|
            0 <= j < k < normal_state(sv, p, n).0.len() && t <= p ==> #[trigger] trimmed(normal_state(sv, p, n).0[k])
                != #[trigger] trimmed(ca_iter(padded_row(normal_state(sv, p, n).0[j], 2 * p + 1), t)),
    decreases n,
{
    if n > 0 {
        let m = (n - 1) as nat;
        law_normal_kept_rows(sv, p, m);
        law_normal_keeps(sv, p, m);
        let prev = normal_state(sv, p, m).0;
        let cur = normal_state(sv, p, n).0;
        assert forall|j: int, t: nat| 0 <= j < cur.len() && 1 <= t < p implies #[trigger] trimmed(
            ca_iter(padded_row(cur[j], 2 * p + 1), t),
        ) != trimmed(ca_iter(padded_row(cur[j], 2 * p + 1), 0)) by {
            if j < prev.len() {
                assert(cur[j] == prev[j]);
            }
        }
        assert forall|j: int, k: int, t: nat| 0 <= j < k < cur.len() && t <= p implies #[trigger] trimmed(cur[k])
            != #[trigger] trimmed(ca_iter(padded_row(cur[j], 2 * p + 1), t)) by {
            assert(cur[j] == prev[j]);
            if k < prev.len() {
                assert(cur[k] == prev[k]);
            }
        }
    }
}

} // verus!
