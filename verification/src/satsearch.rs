//! Helpers of the satisfiability search for Code 20 patterns on a ring of 256
//! cells: the step of the automaton, bits of a row, and rows read back from
//! a solver's assignment.
use vstd::prelude::*;
use crate::customuint::U256;
use crate::search::code20_cell;
use crate::bits::lemma_limbs_or_bit;

verus! {

/// One step of Code 20 on a ring of 256 cells: a cell lives when two or four of
/// the five cells around it (itself included) live.
pub fn step256(init: U256) -> (r: U256)
    ensures
        forall|k: int|
            0 <= k < 256 ==> #[trigger] r.bit(k) == code20_cell(
                init.rotl_bit(-2, k),
                init.rotl_bit(-1, k),
                init.bit(k),
                init.rotl_bit(1, k),
                init.rotl_bit(2, k),
            ),
{
    // Bitshift to have the neighbors of each bit be (a, b, c, d, e)
    let a = init.rotate_right(2);
    let b = init.rotate_right(1);
    let c = init;
    let d = init.rotate_left(1);
    let e = init.rotate_left(2);

    // Bitwise definition of code 20
    let o1 = a.bitor(b);
    let o2 = o1.bitor(c);
    let o3 = o2.bitor(d);
    let o4 = o3.bitor(e);
    let x1 = a.bitxor(b);
    let x2 = x1.bitxor(c);
    let x3 = x2.bitxor(d);
    let x4 = x3.bitxor(e);
    let r = o4.bitxor(x4);
    proof {
        assert forall|k: int|
            0 <= k < 256 implies #[trigger] r.bit(k) == code20_cell(
                init.rotl_bit(-2, k),
                init.rotl_bit(-1, k),
                init.bit(k),
                init.rotl_bit(1, k),
                init.rotl_bit(2, k),
            ) by {
            lemma_limbs_or_bit(a.0@, b.0@, o1.0@, k);
            lemma_limbs_or_bit(o1.0@, c.0@, o2.0@, k);
            lemma_limbs_or_bit(o2.0@, d.0@, o3.0@, k);
            lemma_limbs_or_bit(o3.0@, e.0@, o4.0@, k);
            assert(a.bit(k) == init.rotl_bit(-2, k));
            assert(b.bit(k) == init.rotl_bit(-1, k));
            assert(d.bit(k) == init.rotl_bit(1, k));
            assert(e.bit(k) == init.rotl_bit(2, k));
        }
    }
    r
}


/// The 256 bits of `n`, the most significant first, each as 0 or 1.
pub fn u256tobits(n: U256) -> (bits: Vec<u8>)
    ensures
        bits@.len() == 256,
        forall|j: int| 0 <= j < 256 ==> #[trigger] bits@[j] == (if n.bit(255 - j) { 1u8 } else { 0u8 }),
{
    let mut bits: Vec<u8> = Vec::new();
    let mut i: u32 = 256;
    while i > 0
        invariant
            i <= 256,
            bits@.len() == 256 - i,
            forall|j: int| 0 <= j < 256 - i ==> #[trigger] bits@[j] == (if n.bit(255 - j) { 1u8 } else { 0u8 }),
        decreases i,
    {
        i = i - 1;
        let s = n.shr(i);
        let one = U256::from_u64(1);
        let m = s.bitand(one);
        let w0 = s.0[0];
        proof {
            assert(m.0@[0] == w0 & 1u64);
            assert(m.0@[1] == s.0@[1] & 0u64 && m.0@[2] == s.0@[2] & 0u64 && m.0@[3] == s.0@[3] & 0u64);
            let a1 = s.0@[1];
            let a2 = s.0@[2];
            let a3 = s.0@[3];
            assert(a1 & 0u64 == 0u64 && a2 & 0u64 == 0u64 && a3 & 0u64 == 0u64) by (bit_vector);
            assert((w0 & 1u64 == 1u64 || w0 & 1u64 == 0u64) && ((w0 >> 0u64) & 1u64 == w0 & 1u64)) by (bit_vector);
            assert(crate::bits::limb_bit(s.0@, 0) == crate::bits::limb_bit(n.0@, 0 + i));
        }
        let v = m.as_u64();
        let ghost before = bits@;
        bits.push(v as u8);
        proof {
            assert(n.bit(255 - (255 - i)) == n.bit(i as int));
            assert forall|j: int| 0 <= j < 256 - i implies #[trigger] bits@[j] == (if n.bit(255 - j) { 1u8 } else { 0u8 }) by {
                if j < 255 - i {
                    assert(bits@[j] == before[j]);
                }
            }
        }
    }
    bits
}


/// The row of a solver's assignment as a number: the signs of the values
/// `o[1..w]`, a positive value a 1, read as binary with `o[1]` the most
/// significant digit; digits beyond 256 drop off the top.
pub fn solution_number(o: &[i32], w: usize) -> (r: U256)
    requires
        1 <= w <= o@.len(),
    ensures
        forall|k: int| 0 <= k < 256 ==> #[trigger] r.bit(k) == (k < w - 1 && o@[w - 1 - k] > 0),
{
    let mut as_num = U256::from_u64(0);
    let one = U256::from_u64(1);
    proof {
        assert forall|k: int| #[trigger] as_num.bit(k) == false by {
            if 0 <= k < 256 {
                let b = (k % 64) as u64;
                assert(b < 64 ==> (0u64 >> b) & 1u64 == 0u64) by (bit_vector);
            }
        }
        assert forall|k: int| #[trigger] one.bit(k) == (k == 0) by {
            if 0 <= k < 256 {
                let b = (k % 64) as u64;
                assert(b < 64 ==> (((1u64 >> b) & 1u64 == 1u64) <==> b == 0)) by (bit_vector);
                assert(b < 64 ==> (0u64 >> b) & 1u64 == 0u64) by (bit_vector);
            }
        }
    }
    let mut idx: usize = 1;
    while idx < w
        invariant
            1 <= idx <= w,
            w <= o@.len(),
            forall|k: int| #[trigger] one.bit(k) == (k == 0),
            forall|k: int| 0 <= k < 256 ==> #[trigger] as_num.bit(k) == (k < idx - 1 && o@[idx - 1 - k] > 0),
        decreases w - idx,
    {
        let ghost prev = as_num;
        let shifted = as_num.shl(1);
        if o[idx] > 0 {
            as_num = shifted.bitor(one);
        } else {
            as_num = shifted;
        }
        proof {
            assert forall|k: int| 0 <= k < 256 implies #[trigger] as_num.bit(k) == (k < idx && o@[idx - k] > 0) by {
                assert(shifted.bit(k) == (1 <= k && prev.bit(k - 1)));
                assert(one.bit(k) == (k == 0));
                if o@[idx as int] > 0 {
                    lemma_limbs_or_bit(shifted.0@, one.0@, as_num.0@, k);
                }
                if k >= 1 {
                    assert(prev.bit(k - 1) == (k - 1 < idx - 1 && o@[idx - 1 - (k - 1)] > 0));
                }
            }
        }
        idx = idx + 1;
    }
    as_num
}


/// Bit `k` of byte `b`, counted from the least significant.
pub open spec fn byte_bit(b: u8, k: int) -> bool {
    0 <= k < 8 && (b >> (k as u8)) & 1u8 == 1u8
}

/// Appending bit `b` to the `m` bits held in `byte`.
proof fn lemma_push_bit(byte: u8, b: u8, m: u8, p: u8)
    by (bit_vector)
    requires
        m < 8,
        b <= 1,
        byte >> m == 0,
    ensures
        p < m ==> (((byte << 1u8) | b) >> ((p + 1) as u8)) & 1u8 == (byte >> p) & 1u8,
        ((byte << 1u8) | b) & 1u8 == b,
        ((byte << 1u8) | b) >> ((m + 1) as u8) == 0,
{
}

/// Moving the `c` bits held in `byte` to the top.
proof fn lemma_align_bits(byte: u8, c: u8, p: u8)
    by (bit_vector)
    requires
        1 <= c <= 8,
        c == 8 || byte >> c == 0,
        p < 8,
    ensures
        p < c ==> ((byte << ((8 - c) as u8)) >> ((p + 8 - c) as u8)) & 1u8 == (byte >> p) & 1u8,
        p < 8 - c ==> ((byte << ((8 - c) as u8)) >> p) & 1u8 == 0,
{
}

/// The bits packed into bytes, eight to a byte, the first bit of each group
/// the most significant; the last byte is padded with zeros at the bottom.
pub fn vec_bool_to_bytes(bits: &[bool]) -> (bytes: Vec<u8>)
    ensures
        bytes@.len() == (bits@.len() + 7) / 8,
        forall|i: int| 0 <= i < bits@.len() ==> #[trigger] byte_bit(bytes@[i / 8], 7 - i % 8) == bits@[i],
        forall|i: int| bits@.len() <= i < 8 * bytes@.len() ==> !#[trigger] byte_bit(bytes@[i / 8], 7 - i % 8),
{
    let mut bytes: Vec<u8> = Vec::new();
    let len = bits.len();
    let mut start: usize = 0;
    while start < len
        invariant
            len == bits@.len(),
            start <= len,
            start % 8 == 0 || start == len,
            bytes@.len() == (start + 7) / 8,
            forall|i: int| 0 <= i < start ==> #[trigger] byte_bit(bytes@[i / 8], 7 - i % 8) == bits@[i],
            forall|i: int| len <= i < 8 * bytes@.len() ==> !#[trigger] byte_bit(bytes@[i / 8], 7 - i % 8),
        decreases len - start,
    {
        let end = if len - start < 8 { len } else { start + 8 };
        let c = end - start;
        let mut byte: u8 = 0;
        assert(0u8 >> 0u8 == 0u8) by (bit_vector);
        let mut j: usize = start;
        while j < end
            invariant
                start <= j <= end,
                end - start <= 8,
                end <= len,
                len == bits@.len(),
                j - start < 8 ==> byte >> ((j - start) as u8) == 0,
                forall|t: int| 0 <= t < j - start ==> #[trigger] ((byte >> ((j - start - 1 - t) as u8)) & 1u8) == (if bits@[start + t] { 1u8 } else { 0u8 }),
            decreases end - j,
        {
            let b: u8 = if bits[j] { 1 } else { 0 };
            let m = (j - start) as u8;
            let ghost old_byte = byte;
            byte = (byte << 1u8) | b;
            proof {
                assert forall|t: int| 0 <= t < j + 1 - start implies #[trigger] ((byte >> ((j + 1 - start - 1 - t) as u8)) & 1u8) == (if bits@[start + t] { 1u8 } else { 0u8 }) by {
                    if t < j - start {
                        let p = (j - start - 1 - t) as u8;
                        lemma_push_bit(old_byte, b, m, p);
                        assert((j + 1 - start - 1 - t) as u8 == (p + 1) as u8);
                    } else {
                        lemma_push_bit(old_byte, b, m, 0);
                        assert((j + 1 - start - 1 - t) as u8 == 0u8);
                        assert(byte >> 0u8 == byte) by (bit_vector);
                    }
                }
                lemma_push_bit(old_byte, b, m, 0);
            }
            j = j + 1;
        }
        let cc = c as u8;
        let ghost packed = byte;
        byte = byte << (8 - cc);
        let ghost before = bytes@;
        bytes.push(byte);
        proof {
            let q = (start / 8) as int;
            assert(start % 8 == 0);
            assert(bytes@.len() == q + 1);
            assert forall|i: int| 0 <= i < end implies #[trigger] byte_bit(bytes@[i / 8], 7 - i % 8) == bits@[i] by {
                if i < start {
                    assert(bytes@[i / 8] == before[i / 8]);
                } else {
                    let t = i - start;
                    vstd::arithmetic::div_mod::lemma_fundamental_div_mod_converse(i, 8, q, t);
                    assert(bytes@[q] == byte);
                    let p = (c - 1 - t) as u8;
                    lemma_align_bits(packed, cc, p);
                    assert((7 - i % 8) as u8 == (p + 8 - cc) as u8);
                    assert(((packed >> p) & 1u8) == (if bits@[start + t] { 1u8 } else { 0u8 }));
                }
            }
            assert forall|i: int| len <= i < 8 * bytes@.len() implies !#[trigger] byte_bit(bytes@[i / 8], 7 - i % 8) by {
                if i < start {
                    assert(bytes@[i / 8] == before[i / 8]);
                } else {
                    let t = i - start;
                    vstd::arithmetic::div_mod::lemma_fundamental_div_mod_converse(i, 8, q, t);
                    assert(bytes@[q] == byte);
                    let p = (7 - t) as u8;
                    lemma_align_bits(packed, cc, p);
                }
            }
        }
        start = end;
    }
    bytes
}


/// The bits of a byte widened to a word.
proof fn lemma_byte_word_bit(b: u8, k: u64)
    by (bit_vector)
    requires
        k < 64,
    ensures
        k < 8 ==> ((((b as u64) >> k) & 1u64 == 1u64) <==> ((b >> (k as u8)) & 1u8 == 1u8)),
        k >= 8 ==> ((b as u64) >> k) & 1u64 == 0u64,
{
}

/// The number whose big-endian bytes are `bytes` (at most 32 of them): bit
/// `k` is bit `k % 8` of the `k / 8`-th byte from the end.
pub fn from_big_endian(bytes: &[u8]) -> (r: U256)
    requires
        bytes@.len() <= 32,
    ensures
        forall|k: int|
            0 <= k < 256 ==> #[trigger] r.bit(k) == (k < 8 * bytes@.len() && byte_bit(bytes@[bytes@.len() - 1 - k / 8], k % 8)),
{
    let mut acc = U256::from_u64(0);
    proof {
        assert forall|k: int| #[trigger] acc.bit(k) == false by {
            if 0 <= k < 256 {
                let b = (k % 64) as u64;
                assert(b < 64 ==> (0u64 >> b) & 1u64 == 0u64) by (bit_vector);
            }
        }
    }
    let mut m: usize = 0;
    while m < bytes.len()
        invariant
            m <= bytes@.len() <= 32,
            forall|k: int| 0 <= k < 256 ==> #[trigger] acc.bit(k) == (k < 8 * m && byte_bit(bytes@[m - 1 - k / 8], k % 8)),
        decreases bytes@.len() - m,
    {
        let ghost prev = acc;
        let shifted = acc.shl(8);
        let low = U256::from_u64(bytes[m] as u64);
        acc = shifted.bitor(low);
        proof {
            assert forall|k: int| 0 <= k < 256 implies #[trigger] acc.bit(k) == (k < 8 * (m + 1) && byte_bit(bytes@[m + 1 - 1 - k / 8], k % 8)) by {
                lemma_limbs_or_bit(shifted.0@, low.0@, acc.0@, k);
                assert(shifted.bit(k) == (8 <= k && prev.bit(k - 8)));
                if k < 64 {
                    lemma_byte_word_bit(bytes@[m as int], k as u64);
                    assert(low.bit(k) == crate::bits::wbit(low.0@[0], k as u64));
                    assert(k / 64 == 0 && k % 64 == k);
                } else {
                    assert(low.0@[k / 64] == 0u64);
                    let bb = (k % 64) as u64;
                    assert(bb < 64 ==> (0u64 >> bb) & 1u64 == 0u64) by (bit_vector);
                }
                if k >= 8 {
                    assert((k - 8) / 8 == k / 8 - 1);
                    assert((k - 8) % 8 == k % 8);
                }
            }
        }
        m = m + 1;
    }
    acc
}


/// Cell `k` of the first row read from the assignment `ans` of width `width`:
/// the signs of `ans[1..=width]`, packed eight to a byte with the first sign
/// the top bit, and the bytes read big-endian.
pub open spec fn start_bit(ans: Seq<i32>, width: int, k: int) -> bool {
    let nb = (width + 7) / 8;
    let j = 8 * (nb - 1 - k / 8) + 7 - k % 8;
    0 <= k < 8 * nb && j < width && ans[1 + j] > 0
}

/// Cell `k` (on the ring of 256) after `t` steps of Code 20 from the first row.
pub open spec fn ring_bit(ans: Seq<i32>, width: int, t: nat, k: int) -> bool
    decreases t,
{
    if t == 0 {
        start_bit(ans, width, k)
    } else {
        let p = (t - 1) as nat;
        code20_cell(
            ring_bit(ans, width, p, (k + 2) % 256),
            ring_bit(ans, width, p, (k + 1) % 256),
            ring_bit(ans, width, p, k),
            ring_bit(ans, width, p, (k - 1) % 256),
            ring_bit(ans, width, p, (k - 2) % 256),
        )
    }
}

/// The cells of `s`, cell 0 first, each 0 or 1.
fn row_of(s: U256) -> (row: Vec<u8>)
    ensures
        row@.len() == 256,
        forall|k: int| 0 <= k < 256 ==> #[trigger] row@[k] == (if s.bit(k) { 1u8 } else { 0u8 }),
{
    let bits = u256tobits(s);
    let mut row: Vec<u8> = Vec::new();
    let mut j: usize = 256;
    while j > 0
        invariant
            j <= 256,
            bits@.len() == 256,
            row@.len() == 256 - j,
            forall|q: int| 0 <= q < 256 - j ==> #[trigger] row@[q] == bits@[255 - q],
        decreases j,
    {
        j = j - 1;
        row.push(bits[j]);
    }
    proof {
        assert forall|k: int| 0 <= k < 256 implies #[trigger] row@[k] == (if s.bit(k) { 1u8 } else { 0u8 }) by {
            assert(row@[k] == bits@[255 - k]);
            assert(s.bit(255 - (255 - k)) == s.bit(k));
        }
    }
    row
}

/// A step of Code 20 on the ring takes the cells of step `t` to those of
/// step `t + 1`.
proof fn lemma_ring_step(ans: Seq<i32>, width: int, t: nat, s: U256, next: U256)
    requires
        forall|k: int| 0 <= k < 256 ==> #[trigger] s.bit(k) == ring_bit(ans, width, t, k),
        forall|k: int|
            0 <= k < 256 ==> #[trigger] next.bit(k) == code20_cell(
                s.rotl_bit(-2, k),
                s.rotl_bit(-1, k),
                s.bit(k),
                s.rotl_bit(1, k),
                s.rotl_bit(2, k),
            ),
    ensures
        forall|k: int| 0 <= k < 256 ==> #[trigger] next.bit(k) == ring_bit(ans, width, t + 1, k),
{
    assert forall|k: int| 0 <= k < 256 implies #[trigger] next.bit(k) == ring_bit(ans, width, t + 1, k) by {
        assert(s.bit((k + 2) % 256) == ring_bit(ans, width, t, (k + 2) % 256));
        assert(s.bit((k + 1) % 256) == ring_bit(ans, width, t, (k + 1) % 256));
        assert(s.bit((k - 1) % 256) == ring_bit(ans, width, t, (k - 1) % 256));
        assert(s.bit((k - 2) % 256) == ring_bit(ans, width, t, (k - 2) % 256));
    }
}

/// The row of the assignment: its signs packed into bytes and read as a number.
fn start_row(ans: &[i32], width: usize) -> (r: Option<U256>)
    requires
        width + 1 <= ans@.len(),
    ensures
        r is Some <==> (width + 7) / 8 < 32,
        r matches Some(s) ==> forall|k: int| 0 <= k < 256 ==> #[trigger] s.bit(k) == start_bit(ans@, width as int, k),
{
    let alen = ans.len();
    let mut binary_row: Vec<bool> = Vec::new();
    let mut i: usize = 1;
    while i <= width
        invariant
            alen == ans@.len(),
            1 <= i <= width + 1,
            width + 1 <= ans@.len(),
            binary_row@.len() == i - 1,
            forall|j: int| 0 <= j < i - 1 ==> #[trigger] binary_row@[j] == (ans@[1 + j] > 0),
        decreases width + 1 - i,
    {
        binary_row.push(ans[i] > 0);
        i = i + 1;
    }
    let row_bytes = vec_bool_to_bytes(binary_row.as_slice());
    if row_bytes.len() >= 32 {
        return None;
    }
    let state = from_big_endian(row_bytes.as_slice());
    let nb = row_bytes.len();
    proof {
        assert forall|k: int| 0 <= k < 256 implies #[trigger] state.bit(k) == start_bit(ans@, width as int, k) by {
            if k < 8 * nb {
                let bi = nb - 1 - k / 8;
                let j = 8 * bi + 7 - k % 8;
                vstd::arithmetic::div_mod::lemma_fundamental_div_mod_converse(j, 8, bi, 7 - k % 8);
                assert(j / 8 == bi && j % 8 == 7 - k % 8);
                assert(7 - j % 8 == k % 8);
                if j < width {
                    assert(byte_bit(row_bytes@[j / 8], 7 - j % 8) == binary_row@[j]);
                } else {
                    assert(!byte_bit(row_bytes@[j / 8], 7 - j % 8));
                }
            }
        }
    }
    Some(state)
}

/// The first `5 * period` rows of Code 20 on a ring of 256 cells from the row
/// of the assignment `ans`, cell 0 first, each cell 0 or 1; `None` when the
/// row takes 32 bytes or more.
pub fn solution_rows(ans: &[i32], width: usize, period: usize) -> (rows: Option<Vec<Vec<u8>>>)
    requires
        width + 1 <= ans@.len(),
        5 * period <= usize::MAX,
    ensures
        rows is Some <==> (width + 7) / 8 < 32,
        rows matches Some(v) ==> v@.len() == 5 * period && (forall|t: int| 0 <= t < 5 * period ==> (#[trigger] v@[t])@.len() == 256)
            && forall|t: int, k: int|
            0 <= t < 5 * period && 0 <= k < 256 ==> (#[trigger] v@[t]@[k]) == (if ring_bit(
                ans@,
                width as int,
                t as nat,
                k,
            ) {
                1u8
            } else {
                0u8
            }),
{
    let mut s = match start_row(ans, width) {
        Some(s) => s,
        None => {
            return None;
        },
    };
    let mut rows: Vec<Vec<u8>> = Vec::new();
    let total = 5 * period;
    let mut t: usize = 0;
    while t < total
        invariant
            t <= total,
            total == 5 * period,
            rows@.len() == t,
            forall|k: int| 0 <= k < 256 ==> #[trigger] s.bit(k) == ring_bit(ans@, width as int, t as nat, k),
            forall|tt: int| 0 <= tt < t ==> (#[trigger] rows@[tt])@.len() == 256,
            forall|tt: int, k: int|
                0 <= tt < t && 0 <= k < 256 ==> (#[trigger] rows@[tt]@[k]) == (if ring_bit(
                    ans@,
                    width as int,
                    tt as nat,
                    k,
                ) {
                    1u8
                } else {
                    0u8
                }),
        decreases total - t,
    {
        let row = row_of(s);
        let ghost before = rows@;
        rows.push(row);
        let next = step256(s);
        proof {
            assert forall|tt: int| 0 <= tt < t + 1 implies (#[trigger] rows@[tt])@.len() == 256 by {
                if tt < t {
                    assert(rows@[tt] == before[tt]);
                }
            }
            assert forall|tt: int, k: int| 0 <= tt < t + 1 && 0 <= k < 256 implies (#[trigger] rows@[tt]@[k])
                == (if ring_bit(ans@, width as int, tt as nat, k) {
                1u8
            } else {
                0u8
            }) by {
                if tt < t {
                    assert(rows@[tt] == before[tt]);
                } else {
                    assert(rows@[tt] == row);
                }
            }
            lemma_ring_step(ans@, width as int, t as nat, s, next);
        }
        s = next;
        t = t + 1;
    }
    Some(rows)
}

/// The literals of `first`, each negated where the matching cell of `s` is
/// alive: literal `i` goes with cell `255 - i`; as many literals as the
/// shorter of the row and the 256 cells.
pub open spec fn signed_row(first: Seq<i32>, s: U256) -> Seq<i32> {
    let n: int = if first.len() < 256 {
        first.len() as int
    } else {
        256
    };
    Seq::new(
        n as nat,
        |i: int|
            if s.bit(255 - i) {
                (-first[i]) as i32
            } else {
                first[i]
            },
    )
}

/// For each row of `later` whose cell 0 is alive, `first` signed by that row.
pub open spec fn later_clauses(first: Seq<i32>, later: Seq<U256>) -> Seq<Seq<i32>>
    decreases later.len(),
{
    if later.len() == 0 {
        Seq::empty()
    } else {
        let p = later_clauses(first, later.drop_last());
        if later.last().bit(0) {
            p.push(signed_row(first, later.last()))
        } else {
            p
        }
    }
}

/// The clauses that keep the solver from finding the first row of `output`
/// (its values `1..=width`) again: that row with every literal negated, then,
/// for each row of `later` whose cell 0 is alive, the row signed by it (see
/// `signed_row`).
pub fn blocking_clauses(output: &[i32], width: usize, later: &[U256]) -> (cs: Vec<Vec<i32>>)
    requires
        width + 1 <= output@.len(),
        forall|i: int| 1 <= i <= width ==> #[trigger] output@[i] != i32::MIN,
    ensures
        cs@.len() >= 1,
        cs@[0]@ == output@.subrange(1, width + 1).map_values(|x: i32| (-x) as i32),
        cs@.drop_first().map_values(|c: Vec<i32>| c@) == later_clauses(output@.subrange(1, width + 1), later@),
{
    let ghost first = output@.subrange(1, width + 1);
    let mut row: Vec<i32> = Vec::new();
    let mut neg: Vec<i32> = Vec::new();
    let mut i: usize = 1;
    while i <= width
        invariant
            first == output@.subrange(1, width + 1),
            width + 1 <= output@.len(),
            forall|i: int| 1 <= i <= width ==> #[trigger] output@[i] != i32::MIN,
            1 <= i <= width + 1,
            row@ == first.take(i - 1),
            neg@ == first.take(i - 1).map_values(|x: i32| (-x) as i32),
        decreases width + 1 - i,
    {
        let x = output[i];
        row.push(x);
        neg.push(-x);
        assert(first.take(i as int) =~= first.take(i - 1).push(x));
        assert(first.take(i as int).map_values(|x: i32| (-x) as i32) =~= first.take(i - 1).map_values(
            |x: i32| (-x) as i32,
        ).push((-x) as i32));
        i = i + 1;
    }
    assert(first.take(width as int) =~= first);
    let mut cs: Vec<Vec<i32>> = Vec::new();
    cs.push(neg);
    let n = if row.len() < 256 {
        row.len()
    } else {
        256
    };
    let mut k: usize = 0;
    assert(cs@.drop_first().map_values(|c: Vec<i32>| c@) =~= Seq::<Seq<i32>>::empty());
    assert(later@.take(0) =~= Seq::<U256>::empty());
    while k < later.len()
        invariant
            row@ == first,
            n == (if first.len() < 256 { first.len() } else { 256 }),
            forall|i: int| 0 <= i < first.len() ==> #[trigger] first[i] != i32::MIN,
            k <= later@.len(),
            cs@.len() >= 1,
            cs@[0]@ == first.map_values(|x: i32| (-x) as i32),
            cs@.drop_first().map_values(|c: Vec<i32>| c@) == later_clauses(first, later@.take(k as int)),
        decreases later@.len() - k,
    {
        let s = later[k];
        let ghost before = cs@.drop_first().map_values(|c: Vec<i32>| c@);
        assert(later@.take(k + 1).drop_last() =~= later@.take(k as int));
        assert(later@.take(k + 1).last() == s);
        let w = s.0[0];
        let alive = w & 1 == 1;
        assert(alive == s.bit(0)) by {
            assert((w & 1u64 == 1u64) == crate::bits::wbit(w, 0u64)) by (bit_vector);
        }
        if alive {
            let bits = u256tobits(s);
            let mut c: Vec<i32> = Vec::new();
            let mut j: usize = 0;
            while j < n
                invariant
                    row@ == first,
                    n == (if first.len() < 256 { first.len() } else { 256 }),
                    forall|i: int| 0 <= i < first.len() ==> #[trigger] first[i] != i32::MIN,
                    bits@.len() == 256,
                    forall|j: int| 0 <= j < 256 ==> #[trigger] bits@[j] == (if s.bit(255 - j) { 1u8 } else { 0u8 }),
                    j <= n,
                    c@ == signed_row(first, s).take(j as int),
                decreases n - j,
            {
                let x = row[j];
                let v = if bits[j] == 1 {
                    -x
                } else {
                    x
                };
                c.push(v);
                assert(c@ =~= signed_row(first, s).take(j + 1));
                j = j + 1;
            }
            assert(signed_row(first, s).take(n as int) =~= signed_row(first, s));
            let ghost cv = c@;
            cs.push(c);
            assert(cs@.drop_first().map_values(|c: Vec<i32>| c@) =~= before.push(cv));
        }
        k = k + 1;
    }
    assert(later@.take(later@.len() as int) =~= later@);
    cs
}

} // verus!
