//! Little-endian base-128 numbers: seven payload bits a byte, the high bit set on all but the last.

use vstd::arithmetic::power::{lemma_pow1, pow};
use vstd::prelude::*;

verus! {

/// Past the largest `u64`.
pub open spec fn word() -> int {
    0x1_0000_0000_0000_0000
}

/// The longest encoding that the readers take.
pub open spec fn max_bytes() -> int {
    10
}

/// The bytes `s` stand in `b` at `p`.
pub open spec fn holds(b: Seq<u8>, p: int, s: Seq<u8>) -> bool {
    0 <= p && p + s.len() <= b.len() && b.subrange(p, p + s.len()) == s
}

/// What holds a concatenation holds its parts one after the other.
pub(crate) proof fn lemma_holds_split(b: Seq<u8>, p: int, s: Seq<u8>, t: Seq<u8>)
    requires
        holds(b, p, s + t),
    ensures
        holds(b, p, s),
        holds(b, p + s.len(), t),
{
    let w = b.subrange(p, p + s.len() + t.len());
    assert(w == s + t);
    assert forall|k: int| 0 <= k < s.len() implies b.subrange(p, p + s.len())[k] == s[k] by {
        assert(w[k] == (s + t)[k]);
    }
    assert(b.subrange(p, p + s.len()) =~= s);
    assert forall|k: int| 0 <= k < t.len() implies b.subrange(
        p + s.len(),
        p + s.len() + t.len(),
    )[k] == t[k] by {
        assert(w[s.len() + k] == (s + t)[s.len() + k]);
    }
    assert(b.subrange(p + s.len(), p + s.len() + t.len()) =~= t);
}

/// The encoding of a natural number.
pub open spec fn uleb_bytes(v: nat) -> Seq<u8>
    decreases v,
{
    if v < 128 {
        seq![v as u8]
    } else {
        seq![(128 + v % 128) as u8] + uleb_bytes(v / 128)
    }
}

/// The number whose encoding starts at `p`, and where it ends.
pub open spec fn uleb_number(b: Seq<u8>, p: int) -> Option<(int, int)>
    decreases b.len() - p,
{
    if p < 0 || p >= b.len() {
        None
    } else if b[p] < 128 {
        Some((b[p] as int, p + 1))
    } else {
        match uleb_number(b, p + 1) {
            Some((v, e)) => Some((b[p] - 128 + 128 * v, e)),
            None => None,
        }
    }
}

/// The number read at `p`, reduced to 64 bits, and where it ends; none where it is cut off or too
/// long.
pub open spec fn uleb_at(b: Seq<u8>, p: int) -> Option<(u64, int)> {
    match uleb_number(b, p) {
        Some((v, e)) => if e - p <= max_bytes() {
            Some(((v % word()) as u64, e))
        } else {
            None
        },
        None => None,
    }
}

/// The encoding of an integer; the last byte's second-highest bit is the sign.
pub open spec fn sleb_bytes(v: int) -> Seq<u8>
    decreases (if v < 0 { -v } else { v }),
{
    if -64 <= v < 64 {
        seq![(v % 128) as u8]
    } else {
        seq![(128 + v % 128) as u8] + sleb_bytes(v / 128)
    }
}

/// The integer whose encoding starts at `p`, and where it ends.
pub open spec fn sleb_number(b: Seq<u8>, p: int) -> Option<(int, int)>
    decreases b.len() - p,
{
    if p < 0 || p >= b.len() {
        None
    } else if b[p] < 64 {
        Some((b[p] as int, p + 1))
    } else if b[p] < 128 {
        Some((b[p] - 128, p + 1))
    } else {
        match sleb_number(b, p + 1) {
            Some((v, e)) => Some((b[p] - 128 + 128 * v, e)),
            None => None,
        }
    }
}

/// The signed 64-bit number that agrees with `v` in its low 64 bits.
pub open spec fn wrapped(v: int) -> i64 {
    let m = v % word();
    (if m >= word() / 2 {
        m - word()
    } else {
        m
    }) as i64
}

/// The integer read at `p`, reduced to 64 bits, and where it ends; none where it is cut off or too
/// long.
pub open spec fn sleb_at(b: Seq<u8>, p: int) -> Option<(i64, int)> {
    match sleb_number(b, p) {
        Some((v, e)) => if e - p <= max_bytes() {
            Some((wrapped(v), e))
        } else {
            None
        },
        None => None,
    }
}

/// Appends the encoding of `v`.
pub fn write_uleb(out: &mut Vec<u8>, v: u64)
    ensures
        final(out)@ == old(out)@ + uleb_bytes(v as nat),
{
    let mut v: u64 = v;
    let ghost all = out@ + uleb_bytes(v as nat);
    while v >= 128
        invariant
            all == out@ + uleb_bytes(v as nat),
        decreases v,
    {
        let byte: u8 = (128 + v % 128) as u8;
        proof {
            assert(out@ + (seq![byte] + uleb_bytes((v / 128) as nat)) =~= out@.push(byte)
                + uleb_bytes((v / 128) as nat));
        }
        out.push(byte);
        v = v / 128;
    }
    proof {
        assert(out@ + seq![v as u8] =~= out@.push(v as u8));
    }
    out.push(v as u8);
}

fn uleb_from(buf: &[u8], pos: usize) -> (r: (u64, usize))
    requires
        uleb_number(buf@, pos as int) is Some,
    ensures
        uleb_number(buf@, pos as int) matches Some((v, e)) ==> r.0 as int == v % word()
            && r.1 == e,
    decreases buf@.len() - pos,
{
    let byte: u8 = buf[pos];
    if byte < 128 {
        (byte as u64, pos + 1)
    } else {
        let (rest, end) = uleb_from(buf, pos + 1);
        let low: u64 = (byte - 128) as u64;
        let high: u64 = rest.wrapping_mul(128);
        proof {
            lemma_scaled_mod(low as int, (uleb_number(buf@, pos + 1)->0).0);
        }
        (high.wrapping_add(low), end)
    }
}

/// Reducing before the next digit is added changes nothing.
proof fn lemma_scaled_mod(a: int, v: int)
    ensures
        (a + (128 * (v % word())) % word()) % word() == (a + 128 * v) % word(),
{
    vstd::arithmetic::div_mod::lemma_mul_mod_noop_right(128, v, word());
    vstd::arithmetic::div_mod::lemma_add_mod_noop(a, 128 * v, word());
    vstd::arithmetic::div_mod::lemma_add_mod_noop(a, (128 * (v % word())) % word(), word());
    vstd::arithmetic::div_mod::lemma_mod_twice(128 * (v % word()), word());
}

/// Reads the number at `*pos` and moves `*pos` past it.
pub fn read_uleb(buf: &[u8], pos: &mut usize) -> (r: u64)
    requires
        uleb_at(buf@, *old(pos) as int) is Some,
    ensures
        uleb_at(buf@, *old(pos) as int) == Some((r, *final(pos) as int)),
{
    let (v, end) = uleb_from(buf, *pos);
    *pos = end;
    v
}

/// Appends the encoding of `v`.
pub fn write_sleb(out: &mut Vec<u8>, v: i64)
    ensures
        final(out)@ == old(out)@ + sleb_bytes(v as int),
{
    let mut v: i64 = v;
    let ghost all = out@ + sleb_bytes(v as int);
    while v < -64 || v >= 64
        invariant
            all == out@ + sleb_bytes(v as int),
        decreases (if v < 0 { -v } else { v as int }),
    {
        let low: i64 = v & 0x7f;
        let rest: i64 = v >> 7;
        proof {
            lemma_sleb_digit(v);
        }
        let byte: u8 = (128 + low) as u8;
        proof {
            assert(out@ + (seq![byte] + sleb_bytes(v as int / 128)) =~= out@.push(byte)
                + sleb_bytes(v as int / 128));
        }
        out.push(byte);
        v = rest;
    }
    proof {
        lemma_sleb_digit(v);
        assert(out@ + seq![(v as int % 128) as u8] =~= out@.push((v as int % 128) as u8));
    }
    out.push((v & 0x7f) as u8);
}

/// The low seven bits are the remainder by 128, the rest is the quotient.
proof fn lemma_sleb_digit(v: i64)
    ensures
        (v & 0x7f) as int == v as int % 128,
        (v >> 7) as int == v as int / 128,
{
    assert(0 <= (v & 0x7f) < 128 && v == 128 * (v >> 7) + (v & 0x7f)) by (bit_vector);
    let q = (v >> 7) as int;
    let r = (v & 0x7f) as int;
    assert(v as int == 128 * q + r);
}

fn sleb_from(buf: &[u8], pos: usize) -> (r: (u64, usize))
    requires
        sleb_number(buf@, pos as int) is Some,
    ensures
        sleb_number(buf@, pos as int) matches Some((v, e)) ==> r.0 as int == v % word() && r.1 == e,
    decreases buf@.len() - pos,
{
    let byte: u8 = buf[pos];
    if byte < 64 {
        (byte as u64, pos + 1)
    } else if byte < 128 {
        (u64::MAX - (127 - byte) as u64, pos + 1)
    } else {
        let (rest, end) = sleb_from(buf, pos + 1);
        let low: u64 = (byte - 128) as u64;
        let high: u64 = rest.wrapping_mul(128);
        proof {
            lemma_scaled_mod(low as int, (sleb_number(buf@, pos + 1)->0).0);
        }
        (high.wrapping_add(low), end)
    }
}

/// Reads the integer at `*pos` and moves `*pos` past it.
pub fn read_sleb(buf: &[u8], pos: &mut usize) -> (r: i64)
    requires
        sleb_at(buf@, *old(pos) as int) is Some,
    ensures
        sleb_at(buf@, *old(pos) as int) == Some((r, *final(pos) as int)),
{
    let (m, end) = sleb_from(buf, *pos);
    *pos = end;
    if m >= 0x8000_0000_0000_0000 {
        (m - 0x8000_0000_0000_0000) as i64 + i64::MIN
    } else {
        m as i64
    }
}

proof fn lemma_uleb_number(b: Seq<u8>, p: int, v: nat)
    requires
        holds(b, p, uleb_bytes(v)),
    ensures
        uleb_number(b, p) == Some((v as int, p + uleb_bytes(v).len())),
    decreases v,
{
    if v < 128 {
        assert(b.subrange(p, p + 1)[0] == v as u8);
    } else {
        let first = seq![(128 + v % 128) as u8];
        lemma_holds_split(b, p, first, uleb_bytes(v / 128));
        assert(b.subrange(p, p + 1)[0] == first[0]);
        lemma_uleb_number(b, p + 1, v / 128);
    }
}

proof fn lemma_uleb_len(v: nat, k: nat)
    requires
        k >= 1,
        v < pow(128, k),
    ensures
        1 <= uleb_bytes(v).len() <= k,
    decreases k,
{
    if v >= 128 {
        if k == 1 {
            lemma_pow1(128);
        } else {
            vstd::arithmetic::power::lemma_pow_adds(128, 1, (k - 1) as nat);
            lemma_pow1(128);
            let q = pow(128, (k - 1) as nat);
            assert(v < 128 * q);
            assert(v / 128 < q);
            lemma_uleb_len(v / 128, (k - 1) as nat);
        }
    }
}

/// Reading gives back what was written, and ends where the writing ended.
pub proof fn law_uleb_round_trip(b: Seq<u8>, p: int, v: u64)
    requires
        holds(b, p, uleb_bytes(v as nat)),
    ensures
        uleb_at(b, p) == Some((v, p + uleb_bytes(v as nat).len())),
{
    lemma_uleb_number(b, p, v as nat);
    lemma_pow_bound();
    lemma_uleb_len(v as nat, 10);
}

proof fn lemma_pow_bound()
    ensures
        pow(128, 10) == 0x40_0000_0000_0000_0000,
        pow(128, 9) == 0x8000_0000_0000_0000,
{
    reveal(pow);
    reveal_with_fuel(pow, 11);
}

proof fn lemma_sleb_number(b: Seq<u8>, p: int, v: int)
    requires
        holds(b, p, sleb_bytes(v)),
    ensures
        sleb_number(b, p) == Some((v, p + sleb_bytes(v).len())),
    decreases (if v < 0 { -v } else { v }),
{
    if -64 <= v < 64 {
        assert(b.subrange(p, p + 1)[0] == (v % 128) as u8);
    } else {
        let first = seq![(128 + v % 128) as u8];
        lemma_holds_split(b, p, first, sleb_bytes(v / 128));
        assert(b.subrange(p, p + 1)[0] == first[0]);
        lemma_sleb_number(b, p + 1, v / 128);
    }
}

proof fn lemma_sleb_len(v: int, k: nat)
    requires
        k >= 1,
        -64 * pow(128, (k - 1) as nat) <= v < 64 * pow(128, (k - 1) as nat),
    ensures
        1 <= sleb_bytes(v).len() <= k,
    decreases k,
{
    if !(-64 <= v < 64) {
        if k == 1 {
            reveal(pow);
        } else {
            vstd::arithmetic::power::lemma_pow_adds(128, 1, (k - 2) as nat);
            lemma_pow1(128);
            let q = pow(128, (k - 2) as nat);
            assert(-64 * (128 * q) <= v < 64 * (128 * q));
            assert(-64 * q <= v / 128 < 64 * q);
            lemma_sleb_len(v / 128, (k - 1) as nat);
        }
    }
}

/// Reading gives back what was written, and ends where the writing ended.
pub proof fn law_sleb_round_trip(b: Seq<u8>, p: int, v: i64)
    requires
        holds(b, p, sleb_bytes(v as int)),
    ensures
        sleb_at(b, p) == Some((v, p + sleb_bytes(v as int).len())),
{
    lemma_sleb_number(b, p, v as int);
    lemma_pow_bound();
    lemma_sleb_len(v as int, 10);
}

} // verus!
