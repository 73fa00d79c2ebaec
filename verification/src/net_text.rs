//! A network written as a Wolfram Language list: one list per node, holding
//! for each letter the rules `letter->follower`, followers counted from 1.
use vstd::prelude::*;
use crate::decimal::{nat_text, push_decimal};
use crate::net::{Net, succ};
use crate::render::string_push;

verus! {

/// The most nodes a network may have to be written out in full.
pub const MAX_NODES_SHOWN: usize = 1_000_000;

/// The rule `a->n+1`.
pub open spec fn rule_text(a: nat, n: usize) -> Seq<char> {
    nat_text(a) + seq!['-', '>'] + nat_text(n as nat + 1)
}

/// The rules from letter `a` to each follower in `ns`, joined by commas.
pub open spec fn letter_text(a: nat, ns: Seq<usize>) -> Seq<char>
    decreases ns.len(),
{
    if ns.len() == 0 {
        Seq::empty()
    } else if ns.len() == 1 {
        rule_text(a, ns[0])
    } else {
        letter_text(a, ns.drop_last()) + seq![','] + rule_text(a, ns.last())
    }
}

/// The list for one node: the rules of both letters, each letter's part left
/// out when it has no followers, the parts joined by a comma and a space.
pub open spec fn node_text(row: [Vec<usize>; 2]) -> Seq<char> {
    let s0 = letter_text(0, row@[0]@);
    let s1 = letter_text(1, row@[1]@);
    seq!['{'] + (if s0.len() == 0 {
        s1
    } else if s1.len() == 0 {
        s0
    } else {
        s0 + seq![',', ' '] + s1
    }) + seq!['}']
}

/// The lists of the nodes, joined by a comma and a space.
pub open spec fn nodes_text(rows: Seq<[Vec<usize>; 2]>) -> Seq<char>
    decreases rows.len(),
{
    if rows.len() == 0 {
        Seq::empty()
    } else if rows.len() == 1 {
        node_text(rows[0])
    } else {
        nodes_text(rows.drop_last()) + seq![',', ' '] + node_text(rows.last())
    }
}

/// The whole network in braces, or just `{}` when it has more than
/// `MAX_NODES_SHOWN` nodes.
pub open spec fn mathematica_text(rows: Seq<[Vec<usize>; 2]>) -> Seq<char> {
    if rows.len() > MAX_NODES_SHOWN {
        seq!['{', '}']
    } else {
        seq!['{'] + nodes_text(rows) + seq!['}']
    }
}

/// No follower is `usize::MAX`, so each can be counted from 1.
pub open spec fn followers_countable(rows: Seq<[Vec<usize>; 2]>) -> bool {
    forall|s: int, a: int, j: int|
        0 <= s < rows.len() && 0 <= a < 2 && 0 <= j < succ(rows, s, a).len() ==> #[trigger] succ(rows, s, a)[j]
            < usize::MAX
}

/// The letter text never is empty for a nonempty list.
proof fn lemma_letter_text_empty(a: nat, ns: Seq<usize>)
    ensures
        (letter_text(a, ns).len() == 0) == (ns.len() == 0),
    decreases ns.len(),
{
    if ns.len() > 1 {
        lemma_letter_text_empty(a, ns.drop_last());
    }
    if ns.len() >= 1 {
        assert(nat_text(a).len() + 2 <= rule_text(a, ns.last()).len());
    }
}

/// Appends the rules from letter `a` to each follower in `ns`.
fn push_letter(out: &mut String, a: usize, ns: &Vec<usize>)
    requires
        forall|j: int| 0 <= j < ns@.len() ==> #[trigger] ns@[j] < usize::MAX,
    ensures
        final(out)@ == old(out)@ + letter_text(a as nat, ns@),
{
    let ghost start = old(out)@;
    let mut j: usize = 0;
    while j < ns.len()
        invariant
            j <= ns@.len(),
            forall|i: int| 0 <= i < ns@.len() ==> #[trigger] ns@[i] < usize::MAX,
            out@ == start + letter_text(a as nat, ns@.take(j as int)),
        decreases ns@.len() - j,
    {
        let ghost before = out@;
        if j > 0 {
            string_push(out, ',');
        }
        push_decimal(out, a as u64);
        string_push(out, '-');
        string_push(out, '>');
        let n = ns[j];
        push_decimal(out, (n + 1) as u64);
        assert(ns@.take(j + 1).drop_last() =~= ns@.take(j as int));
        assert(ns@.take(j + 1).last() == n);
        if j > 0 {
            assert(out@ =~= before + seq![','] + rule_text(a as nat, n));
        } else {
            assert(out@ =~= before + rule_text(a as nat, n));
        }
        assert(out@ =~= start + letter_text(a as nat, ns@.take(j + 1)));
        j = j + 1;
    }
    assert(ns@.take(ns@.len() as int) =~= ns@);
}

impl Net {
    /// The network as a Wolfram Language list: node `i`'s list is the `i`-th,
    /// and in it `a->m` says that letter `a` leads to node `m - 1`. A network
    /// with more than `MAX_NODES_SHOWN` nodes is written `{}`.
    pub fn to_mathematica(&self) -> (r: String)
        requires
            followers_countable(self.r@),
        ensures
            r@ == mathematica_text(self.r@),
    {
        let mut out = String::new();
        string_push(&mut out, '{');
        if self.r.len() > MAX_NODES_SHOWN {
            string_push(&mut out, '}');
            assert(out@ =~= mathematica_text(self.r@));
            return out;
        }
        let ghost rows = self.r@;
        let mut i: usize = 0;
        while i < self.r.len()
            invariant
                rows == self.r@,
                i <= rows.len(),
                followers_countable(rows),
                out@ == seq!['{'] + nodes_text(rows.take(i as int)),
            decreases rows.len() - i,
        {
            let ghost before = out@;
            if i > 0 {
                string_push(&mut out, ',');
                string_push(&mut out, ' ');
            }
            let row = &self.r[i];
            let l0 = &row[0];
            let l1 = &row[1];
            assert(l0@ == succ(rows, i as int, 0));
            assert(l1@ == succ(rows, i as int, 1));
            assert forall|j: int| 0 <= j < l0@.len() implies #[trigger] l0@[j] < usize::MAX by {
                assert(succ(rows, i as int, 0)[j] < usize::MAX);
            }
            assert forall|j: int| 0 <= j < l1@.len() implies #[trigger] l1@[j] < usize::MAX by {
                assert(succ(rows, i as int, 1)[j] < usize::MAX);
            }
            let ghost mid = out@;
            string_push(&mut out, '{');
            push_letter(&mut out, 0, l0);
            proof {
                lemma_letter_text_empty(0, l0@);
                lemma_letter_text_empty(1, l1@);
            }
            if l0.len() > 0 && l1.len() > 0 {
                string_push(&mut out, ',');
                string_push(&mut out, ' ');
            }
            push_letter(&mut out, 1, l1);
            string_push(&mut out, '}');
            assert(out@ =~= mid + node_text(rows[i as int]));
            assert(rows.take(i + 1).drop_last() =~= rows.take(i as int));
            assert(rows.take(i + 1).last() == rows[i as int]);
            assert(out@ =~= seq!['{'] + nodes_text(rows.take(i + 1)));
            i = i + 1;
        }
        assert(rows.take(rows.len() as int) =~= rows);
        string_push(&mut out, '}');
        out
    }
}

} // verus!
