//! The exchange with an outside satisfiability solver: clause lists written
//! in the DIMACS format, and the values read back from the solver's answer.
use vstd::prelude::*;
use crate::decimal::{nat_text, int_text, push_decimal, push_signed};
use crate::render::string_push;

verus! {

/// The absolute value of a literal.
pub open spec fn lit_abs(x: i32) -> nat {
    if x < 0 {
        (-x) as nat
    } else {
        x as nat
    }
}

/// The largest absolute value among the literals of `c`; 0 when there are none.
pub open spec fn lits_abs_max(c: Seq<i32>) -> nat
    decreases c.len(),
{
    if c.len() == 0 {
        0
    } else {
        let m = lits_abs_max(c.drop_last());
        if lit_abs(c.last()) > m {
            lit_abs(c.last())
        } else {
            m
        }
    }
}

/// The largest absolute value among the literals of all the clauses; 0 when there are none.
pub open spec fn clauses_abs_max(cs: Seq<Vec<i32>>) -> nat
    decreases cs.len(),
{
    if cs.len() == 0 {
        0
    } else {
        let m = clauses_abs_max(cs.drop_last());
        if lits_abs_max(cs.last()@) > m {
            lits_abs_max(cs.last()@)
        } else {
            m
        }
    }
}

/// The literals of a clause, each followed by a space.
pub open spec fn lits_text(c: Seq<i32>) -> Seq<char>
    decreases c.len(),
{
    if c.len() == 0 {
        Seq::empty()
    } else {
        lits_text(c.drop_last()) + int_text(c.last() as int) + seq![' ']
    }
}

/// The clauses one to a line: the literals, each followed by a space, then `0`.
pub open spec fn clauses_text(cs: Seq<Vec<i32>>) -> Seq<char>
    decreases cs.len(),
{
    if cs.len() == 0 {
        Seq::empty()
    } else {
        clauses_text(cs.drop_last()) + lits_text(cs.last()@) + seq!['0', '\n']
    }
}

/// The header line: `p cnf`, the number of variables (the largest absolute
/// value of a literal) and the number of clauses.
pub open spec fn dimacs_header(cs: Seq<Vec<i32>>) -> Seq<char> {
    seq!['p', ' ', 'c', 'n', 'f', ' '] + nat_text(clauses_abs_max(cs)) + seq![' '] + nat_text(cs.len()) + seq!['\n']
}

/// The clauses in the DIMACS format: the header line, then the clauses.
pub open spec fn dimacs(cs: Seq<Vec<i32>>) -> Seq<char> {
    dimacs_header(cs) + clauses_text(cs)
}

/// No literal is `i32::MIN`, whose absolute value is not an `i32`.
pub open spec fn lits_in_range(cs: Seq<Vec<i32>>) -> bool {
    forall|i: int, j: int| 0 <= i < cs.len() && 0 <= j < cs[i]@.len() ==> #[trigger] cs[i]@[j] != i32::MIN
}

/// The largest absolute value among the literals of `c`.
fn lits_max(c: &Vec<i32>) -> (m: u64)
    requires
        forall|j: int| 0 <= j < c@.len() ==> #[trigger] c@[j] != i32::MIN,
    ensures
        m == lits_abs_max(c@),
        m <= i32::MAX,
{
    let mut m: u64 = 0;
    let mut j: usize = 0;
    while j < c.len()
        invariant
            j <= c@.len(),
            forall|j: int| 0 <= j < c@.len() ==> #[trigger] c@[j] != i32::MIN,
            m == lits_abs_max(c@.take(j as int)),
            m <= i32::MAX,
        decreases c@.len() - j,
    {
        let x = c[j];
        let a: u64 = if x < 0 {
            (-x) as u64
        } else {
            x as u64
        };
        assert(c@.take(j + 1).drop_last() =~= c@.take(j as int));
        if a > m {
            m = a;
        }
        j = j + 1;
    }
    assert(c@.take(c@.len() as int) =~= c@);
    m
}

/// The clauses in the DIMACS format, as a solver reads them from a file.
pub fn dimacs_text(clauses: &Vec<Vec<i32>>) -> (r: String)
    requires
        lits_in_range(clauses@),
    ensures
        r@ == dimacs(clauses@),
{
    let ghost cs = clauses@;
    let mut m: u64 = 0;
    let mut i: usize = 0;
    while i < clauses.len()
        invariant
            cs == clauses@,
            i <= cs.len(),
            lits_in_range(cs),
            m == clauses_abs_max(cs.take(i as int)),
            m <= i32::MAX,
        decreases cs.len() - i,
    {
        let c = lits_max(&clauses[i]);
        assert(cs.take(i + 1).drop_last() =~= cs.take(i as int));
        if c > m {
            m = c;
        }
        i = i + 1;
    }
    assert(cs.take(cs.len() as int) =~= cs);
    let mut s = String::new();
    string_push(&mut s, 'p');
    string_push(&mut s, ' ');
    string_push(&mut s, 'c');
    string_push(&mut s, 'n');
    string_push(&mut s, 'f');
    string_push(&mut s, ' ');
    push_decimal(&mut s, m);
    string_push(&mut s, ' ');
    push_decimal(&mut s, clauses.len() as u64);
    string_push(&mut s, '\n');
    let ghost head = s@;
    assert(head =~= dimacs_header(cs));
    let mut i: usize = 0;
    while i < clauses.len()
        invariant
            cs == clauses@,
            i <= cs.len(),
            s@ == head + clauses_text(cs.take(i as int)),
        decreases cs.len() - i,
    {
        let c = &clauses[i];
        let ghost before = s@;
        let mut j: usize = 0;
        while j < c.len()
            invariant
                c@ == cs[i as int]@,
                j <= c@.len(),
                s@ == before + lits_text(c@.take(j as int)),
            decreases c@.len() - j,
        {
            push_signed(&mut s, c[j]);
            string_push(&mut s, ' ');
            assert(c@.take(j + 1).drop_last() =~= c@.take(j as int));
            assert(s@ =~= before + lits_text(c@.take(j + 1)));
            j = j + 1;
        }
        assert(c@.take(c@.len() as int) =~= c@);
        string_push(&mut s, '0');
        string_push(&mut s, '\n');
        assert(cs.take(i + 1).drop_last() =~= cs.take(i as int));
        assert(s@ =~= head + clauses_text(cs.take(i + 1)));
        i = i + 1;
    }
    assert(cs.take(cs.len() as int) =~= cs);
    s
}

/// The lines of `s`: the pieces between line breaks, the piece after the
/// last break included.
pub open spec fn lines(s: Seq<char>) -> Seq<Seq<char>>
    decreases s.len(),
{
    if s.len() == 0 {
        seq![Seq::empty()]
    } else {
        let p = lines(s.drop_last());
        if s.last() == '\n' {
            p.push(Seq::empty())
        } else {
            p.update(p.len() - 1, p.last().push(s.last()))
        }
    }
}

/// What a line of the answer contributes: for a line of three characters or
/// more that starts with `v`, everything after its second character.
pub open spec fn payload(l: Seq<char>) -> Seq<char> {
    if l.len() >= 3 && l[0] == 'v' {
        l.subrange(2, l.len() as int)
    } else {
        Seq::empty()
    }
}

/// The payloads of the lines, run together with nothing between them.
pub open spec fn joined(ls: Seq<Seq<char>>) -> Seq<char>
    decreases ls.len(),
{
    if ls.len() == 0 {
        Seq::empty()
    } else {
        joined(ls.drop_last()) + payload(ls.last())
    }
}

/// Every line that starts with `v` and goes on has a one-byte character
/// second, so that its text after the second byte is whole characters.
pub open spec fn value_lines_well_cut(s: Seq<char>) -> bool {
    forall|i: int|
        0 <= i < lines(s).len() && (#[trigger] lines(s)[i]).len() >= 2 && lines(s)[i][0] == 'v'
            ==> (lines(s)[i][1] as u32) < 128
}

/// `c` has Unicode's `White_Space` property.
pub open spec fn is_white(c: char) -> bool {
    let u = c as u32;
    ||| 0x09 <= u <= 0x0D
    ||| u == 0x20
    ||| u == 0x85
    ||| u == 0xA0
    ||| u == 0x1680
    ||| 0x2000 <= u <= 0x200A
    ||| u == 0x2028
    ||| u == 0x2029
    ||| u == 0x202F
    ||| u == 0x205F
    ||| u == 0x3000
}

/// The maximal runs of characters that are not white space, in order.
pub open spec fn tokens(s: Seq<char>) -> Seq<Seq<char>>
    decreases s.len(),
{
    if s.len() == 0 {
        Seq::empty()
    } else {
        let p = tokens(s.drop_last());
        let c = s.last();
        if is_white(c) {
            p
        } else if s.len() >= 2 && !is_white(s[s.len() - 2]) {
            p.update(p.len() - 1, p.last().push(c))
        } else {
            p.push(seq![c])
        }
    }
}

/// `c` is one of the ASCII digits `0` to `9`.
pub open spec fn is_digit(c: char) -> bool {
    48 <= (c as u32) <= 57
}

/// The value of a run of ASCII digits, the most significant first.
pub open spec fn digits_val(d: Seq<char>) -> nat
    decreases d.len(),
{
    if d.len() == 0 {
        0
    } else {
        digits_val(d.drop_last()) * 10 + ((d.last() as u32) - 48) as nat
    }
}

/// `t` starts with a sign.
pub open spec fn has_sign(t: Seq<char>) -> bool {
    t.len() > 0 && (t[0] == '-' || t[0] == '+')
}

/// `t` without its sign.
pub open spec fn magnitude(t: Seq<char>) -> Seq<char> {
    if has_sign(t) {
        t.drop_first()
    } else {
        t
    }
}

/// Every character of `d` is a digit.
pub open spec fn all_digits(d: Seq<char>) -> bool {
    forall|i: int| 0 <= i < d.len() ==> is_digit(#[trigger] d[i])
}

/// The signed 32-bit number written as `t`: an optional `+` or `-`, then one
/// digit or more; nothing when it is written otherwise or does not fit.
pub open spec fn parse_i32(t: Seq<char>) -> Option<i32> {
    let d = magnitude(t);
    let v: int = if t.len() > 0 && t[0] == '-' {
        -(digits_val(d) as int)
    } else {
        digits_val(d) as int
    };
    if d.len() == 0 || !all_digits(d) {
        None
    } else if i32::MIN <= v <= i32::MAX {
        Some(v as i32)
    } else {
        None
    }
}

/// The numbers among the tokens, in order; tokens that are no number are skipped.
pub open spec fn numbers(ts: Seq<Seq<char>>) -> Seq<i32>
    decreases ts.len(),
{
    if ts.len() == 0 {
        Seq::empty()
    } else {
        match parse_i32(ts.last()) {
            Some(v) => numbers(ts.drop_last()).push(v),
            None => numbers(ts.drop_last()),
        }
    }
}

/// The values of a solver's answer: the numbers in the lines that start with
/// `v`, with those lines run together.
pub open spec fn answer_values(text: Seq<char>) -> Seq<i32> {
    numbers(tokens(joined(lines(text))))
}

/// There is always a line, possibly empty.
proof fn lemma_lines_nonempty(s: Seq<char>)
    ensures
        lines(s).len() >= 1,
    decreases s.len(),
{
    if s.len() > 0 {
        lemma_lines_nonempty(s.drop_last());
    }
}

/// The payloads of the lines of `text`, run together.
fn joined_payloads(text: &Vec<char>) -> (j: Vec<char>)
    ensures
        j@ == joined(lines(text@)),
{
    let mut j: Vec<char> = Vec::new();
    let mut pos: usize = 0;
    let mut is_v: bool = false;
    let mut k: usize = 0;
    proof {
        assert(text@.take(0) =~= Seq::<char>::empty());
        assert(joined(lines(Seq::<char>::empty())) =~= Seq::<char>::empty()) by {
            let ls = lines(Seq::<char>::empty());
            assert(ls =~= seq![Seq::<char>::empty()]);
            assert(ls.drop_last() =~= Seq::<Seq<char>>::empty());
            assert(joined(Seq::<Seq<char>>::empty()) =~= Seq::<char>::empty());
            assert(payload(ls.last()) =~= Seq::<char>::empty());
        }
    }
    while k < text.len()
        invariant
            k <= text@.len(),
            lines(text@.take(k as int)).len() >= 1,
            pos == lines(text@.take(k as int)).last().len(),
            is_v == (pos > 0 && lines(text@.take(k as int)).last()[0] == 'v'),
            j@ == joined(lines(text@.take(k as int))),
            pos <= k,
        decreases text@.len() - k,
    {
        let c = text[k];
        let ghost s0 = text@.take(k as int);
        let ghost s1 = text@.take(k + 1);
        let ghost ls = lines(s0);
        let ghost l = ls.last();
        proof {
            assert(s1.drop_last() =~= s0);
            assert(s1.last() == c);
            lemma_lines_nonempty(s0);
        }
        if c == '\n' {
            proof {
                let ls1 = lines(s1);
                assert(ls1 == ls.push(Seq::empty()));
                assert(ls1.drop_last() =~= ls);
                assert(payload(Seq::<char>::empty()) =~= Seq::<char>::empty());
                assert(joined(ls1) =~= joined(ls));
            }
            pos = 0;
            is_v = false;
        } else {
            if pos == 0 {
                is_v = c == 'v';
            }
            if is_v && pos >= 2 {
                j.push(c);
            }
            proof {
                let l1 = l.push(c);
                let ls1 = lines(s1);
                assert(ls1 == ls.update(ls.len() - 1, l1));
                assert(ls1.drop_last() =~= ls.drop_last());
                assert(ls1.last() == l1);
                if l1.len() >= 3 && l1[0] == 'v' {
                    if l.len() >= 3 {
                        assert(payload(l1) =~= payload(l).push(c));
                    } else {
                        assert(payload(l1) =~= seq![c]);
                        assert(payload(l) =~= Seq::<char>::empty());
                    }
                } else {
                    assert(payload(l1) =~= Seq::<char>::empty());
                    assert(payload(l) =~= Seq::<char>::empty());
                }
            }
            pos = pos + 1;
        }
        k = k + 1;
    }
    assert(text@.take(text@.len() as int) =~= text@);
    j
}

/// Whether `c` has Unicode's `White_Space` property.
fn is_white_char(c: char) -> (r: bool)
    ensures
        r == is_white(c),
{
    let u = c as u32;
    (0x09 <= u && u <= 0x0D) || u == 0x20 || u == 0x85 || u == 0xA0 || u == 0x1680 || (0x2000 <= u && u
        <= 0x200A) || u == 0x2028 || u == 0x2029 || u == 0x202F || u == 0x205F || u == 0x3000
}

/// The tokens of `j`: its maximal runs of characters that are not white space.
fn split_tokens(j: &Vec<char>) -> (ts: Vec<Vec<char>>)
    ensures
        ts@.map_values(|t: Vec<char>| t@) == tokens(j@),
{
    let mut ts: Vec<Vec<char>> = Vec::new();
    let mut cur: Vec<char> = Vec::new();
    let mut k: usize = 0;
    assert(j@.take(0) =~= Seq::<char>::empty());
    assert(ts@.map_values(|t: Vec<char>| t@) =~= Seq::<Seq<char>>::empty());
    while k < j.len()
        invariant
            k <= j@.len(),
            tokens(j@.take(k as int)) == ts@.map_values(|t: Vec<char>| t@) + (if cur@.len() > 0 {
                seq![cur@]
            } else {
                Seq::empty()
            }),
            cur@.len() > 0 <==> (k > 0 && !is_white(j@[k - 1])),
        decreases j@.len() - k,
    {
        let c = j[k];
        let ghost s0 = j@.take(k as int);
        let ghost s1 = j@.take(k + 1);
        let ghost tv = ts@.map_values(|t: Vec<char>| t@);
        let ghost cv = cur@;
        proof {
            assert(s1.drop_last() =~= s0);
            assert(s1.last() == c);
        }
        if is_white_char(c) {
            if cur.len() > 0 {
                ts.push(cur);
                cur = Vec::new();
                assert(ts@.map_values(|t: Vec<char>| t@) =~= tv.push(cv));
                assert(tv + seq![cv] =~= tv.push(cv));
            }
            assert(tokens(s1) == tokens(s0));
            assert(ts@.map_values(|t: Vec<char>| t@) + Seq::<Seq<char>>::empty() =~= ts@.map_values(
                |t: Vec<char>| t@,
            ));
        } else {
            cur.push(c);
            proof {
                if k > 0 && !is_white(j@[k - 1]) {
                    assert(s1[s1.len() - 2] == j@[k - 1]);
                    let p = tv + seq![cv];
                    assert(tokens(s1) == p.update(p.len() - 1, p.last().push(c)));
                    assert(p.update(p.len() - 1, p.last().push(c)) =~= tv + seq![cur@]);
                } else {
                    if k > 0 {
                        assert(s1[s1.len() - 2] == j@[k - 1]);
                    }
                    assert(tv + Seq::<Seq<char>>::empty() =~= tv);
                    assert(cur@ =~= seq![c]);
                    assert(tv.push(seq![c]) =~= tv + seq![cur@]);
                }
            }
        }
        k = k + 1;
    }
    assert(j@.take(j@.len() as int) =~= j@);
    let ghost tv = ts@.map_values(|t: Vec<char>| t@);
    let ghost cv = cur@;
    if cur.len() > 0 {
        ts.push(cur);
        assert(ts@.map_values(|t: Vec<char>| t@) =~= tv + seq![cv]);
    } else {
        assert(tv + Seq::<Seq<char>>::empty() =~= tv);
    }
    ts
}

/// A longer run of digits is worth at least as much.
proof fn lemma_digits_val_push(d: Seq<char>, c: char)
    requires
        is_digit(c),
    ensures
        digits_val(d.push(c)) >= digits_val(d),
        digits_val(d.push(c)) == digits_val(d) * 10 + ((c as u32) - 48) as nat,
{
    assert(d.push(c).drop_last() =~= d);
}

/// The signed 32-bit number written as `t`, if it is one.
fn parse_i32_of(t: &Vec<char>) -> (r: Option<i32>)
    ensures
        r == parse_i32(t@),
{
    let n = t.len();
    if n == 0 {
        return None;
    }
    let neg = t[0] == '-';
    let start: usize = if t[0] == '-' || t[0] == '+' {
        1
    } else {
        0
    };
    let ghost d = magnitude(t@);
    assert(d =~= t@.subrange(start as int, n as int));
    if start == n {
        return None;
    }
    let mut v: u64 = 0;
    let mut big = false;
    let mut k: usize = start;
    assert(t@.subrange(start as int, start as int) =~= Seq::<char>::empty());
    while k < n
        invariant
            start <= k <= n,
            n == t@.len(),
            d == magnitude(t@),
            d == t@.subrange(start as int, n as int),
            forall|i: int| start <= i < k ==> is_digit(#[trigger] t@[i]),
            !big ==> v == digits_val(t@.subrange(start as int, k as int)) && v <= 2147483648,
            big ==> digits_val(t@.subrange(start as int, k as int)) > 2147483648,
        decreases n - k,
    {
        let c = t[k];
        let u = c as u32;
        if u < 48 || u > 57 {
            assert(d[k - start] == c);
            assert(!is_digit(d[k - start]));
            assert(!all_digits(d));
            return None;
        }
        proof {
            let p = t@.subrange(start as int, k as int);
            assert(t@.subrange(start as int, k + 1) =~= p.push(c));
            lemma_digits_val_push(p, c);
        }
        if !big {
            v = v * 10 + (u - 48) as u64;
            if v > 2147483648 {
                big = true;
            }
        }
        k = k + 1;
    }
    assert forall|i: int| 0 <= i < d.len() implies is_digit(#[trigger] d[i]) by {
        assert(d[i] == t@[i + start]);
    }
    if big {
        return None;
    }
    if neg {
        Some((-(v as i64)) as i32)
    } else if v <= 2147483647 {
        Some(v as i32)
    } else {
        None
    }
}

/// The numbers among the tokens, in order.
fn numbers_of(ts: &Vec<Vec<char>>) -> (o: Vec<i32>)
    ensures
        o@ == numbers(ts@.map_values(|t: Vec<char>| t@)),
{
    let ghost tv = ts@.map_values(|t: Vec<char>| t@);
    let mut o: Vec<i32> = Vec::new();
    let mut i: usize = 0;
    assert(tv.take(0) =~= Seq::<Seq<char>>::empty());
    while i < ts.len()
        invariant
            tv == ts@.map_values(|t: Vec<char>| t@),
            i <= ts@.len(),
            o@ == numbers(tv.take(i as int)),
        decreases ts@.len() - i,
    {
        assert(tv.take(i + 1).drop_last() =~= tv.take(i as int));
        assert(tv.take(i + 1).last() == ts@[i as int]@);
        match parse_i32_of(&ts[i]) {
            Some(v) => {
                o.push(v);
            },
            None => {},
        }
        i = i + 1;
    }
    assert(tv.take(ts@.len() as int) =~= tv);
    o
}

/// The values of a solver's answer `text`: the numbers in its lines that
/// start with `v`, read after the second character of each such line, with
/// those lines run together. For the answer to a symmetric search the values
/// are followed by the same values in reverse order.
pub fn solver_values(text: &Vec<char>, symmetric: bool) -> (o: Vec<i32>)
    requires
        value_lines_well_cut(text@),
    ensures
        o@ == (if symmetric {
            answer_values(text@) + answer_values(text@).reverse()
        } else {
            answer_values(text@)
        }),
{
    let j = joined_payloads(text);
    let ts = split_tokens(&j);
    let mut o = numbers_of(&ts);
    if symmetric {
        let ghost vals = o@;
        let n = o.len();
        let mut i: usize = 0;
        while i < n
            invariant
                n == vals.len(),
                i <= n,
                o@ == vals + vals.reverse().take(i as int),
            decreases n - i,
        {
            let x = o[n - 1 - i];
            o.push(x);
            assert(vals.reverse().take(i + 1) =~= vals.reverse().take(i as int).push(x));
            i = i + 1;
        }
        assert(vals.reverse().take(n as int) =~= vals.reverse());
    }
    o
}

/// The word `symmetric`.
pub open spec fn symmetric_word() -> Seq<char> {
    seq!['s', 'y', 'm', 'm', 'e', 't', 'r', 'i', 'c']
}

/// The word `symmetric` occurs somewhere in `s`.
pub open spec fn mentions_symmetric(s: Seq<char>) -> bool {
    exists|i: int| 0 <= i && i + 9 <= s.len() && #[trigger] s.subrange(i, i + 9) == symmetric_word()
}

/// Whether the name of a run names the symmetric search: it holds the word `symmetric`.
pub fn names_symmetric(name: &Vec<char>) -> (r: bool)
    ensures
        r == mentions_symmetric(name@),
{
    if name.len() < 9 {
        return false;
    }
    let mut i: usize = 0;
    while i <= name.len() - 9
        invariant
            name@.len() >= 9,
            i <= name@.len() - 8,
            forall|k: int| 0 <= k < i ==> #[trigger] name@.subrange(k, k + 9) != symmetric_word(),
        decreases name@.len() - i,
    {
        if name[i] == 's' && name[i + 1] == 'y' && name[i + 2] == 'm' && name[i + 3] == 'm' && name[i + 4] == 'e'
            && name[i + 5] == 't' && name[i + 6] == 'r' && name[i + 7] == 'i' && name[i + 8] == 'c' {
            assert(name@.subrange(i as int, i + 9) =~= symmetric_word());
            return true;
        }
        proof {
            let w = name@.subrange(i as int, i + 9);
            if w == symmetric_word() {
                assert(w[0] == name@[i as int]);
                assert(w[1] == name@[i + 1]);
                assert(w[2] == name@[i + 2]);
                assert(w[3] == name@[i + 3]);
                assert(w[4] == name@[i + 4]);
                assert(w[5] == name@[i + 5]);
                assert(w[6] == name@[i + 6]);
                assert(w[7] == name@[i + 7]);
                assert(w[8] == name@[i + 8]);
            }
        }
        i = i + 1;
    }
    false
}

} // verus!
