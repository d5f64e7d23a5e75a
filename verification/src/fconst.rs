//! Conversion of a small integer to the bits of the double nearest to it.

use vstd::prelude::*;
use vstd::arithmetic::power2::{
    lemma2_to64, lemma2_to64_rest, lemma_pow2_adds, lemma_pow2_pos, lemma_pow2_unfold, pow2,
};

verus! {

/// The position of the highest set bit.
pub open spec fn top_bit(m: nat) -> nat
    decreases m,
{
    if m < 2 {
        0
    } else {
        1 + top_bit(m / 2)
    }
}

/// A positive magnitude scaled to 53 significant bits: exactly where it fits, else rounded to
/// nearest with ties to even.
pub open spec fn significand(m: nat) -> nat {
    let e = top_bit(m);
    if e <= 52 {
        m * pow2((52 - e) as nat)
    } else {
        let unit = pow2((e - 52) as nat);
        let q = m / unit;
        let r = m % unit;
        if 2 * r > unit || (2 * r == unit && q % 2 == 1) {
            q + 1
        } else {
            q
        }
    }
}

/// The IEEE 754 binary64 encoding of `v`: sign, exponent biased by 1023, 52 fraction bits. A
/// significand that rounds up to the next power of two carries into the exponent.
pub open spec fn double_encoding(v: int) -> int {
    if v == 0 {
        0
    } else {
        let m = (if v < 0 {
            -v
        } else {
            v
        }) as nat;
        (if v < 0 {
            0x8000_0000_0000_0000int
        } else {
            0
        }) + (top_bit(m) + 1022) * 0x10_0000_0000_0000 + significand(m)
    }
}

proof fn lemma_top_bit_bounds(m: nat)
    requires
        m > 0,
    ensures
        pow2(top_bit(m)) <= m < pow2(top_bit(m) + 1),
    decreases m,
{
    lemma2_to64();
    if m >= 2 {
        lemma_top_bit_bounds(m / 2);
        lemma_pow2_unfold(top_bit(m));
        lemma_pow2_unfold(top_bit(m) + 1);
    }
}

fn power_of_two(n: u32) -> (r: u64)
    requires
        n < 64,
    ensures
        r == pow2(n as nat),
{
    let mut r: u64 = 1;
    proof {
        lemma2_to64();
    }
    for k in 0..n
        invariant
            n < 64,
            r == pow2(k as nat),
    {
        proof {
            lemma_pow2_unfold((k + 1) as nat);
            lemma2_to64();
            vstd::arithmetic::power2::lemma_pow2_strictly_increases((k + 1) as nat, 64);
        }
        r = r * 2;
    }
    r
}

proof fn lemma_scaled(m: nat, e: nat)
    requires
        m > 0,
        e == top_bit(m),
        e <= 52,
    ensures
        pow2(52) <= m * pow2((52 - e) as nat) < pow2(53),
{
    lemma_top_bit_bounds(m);
    let s = pow2((52 - e) as nat);
    lemma_pow2_pos((52 - e) as nat);
    lemma_pow2_adds(e, (52 - e) as nat);
    lemma_pow2_adds(e + 1, (52 - e) as nat);
    assert(pow2(e) * s <= m * s < pow2(e + 1) * s) by (nonlinear_arith)
        requires
            pow2(e) <= m < pow2(e + 1),
            s > 0,
    {
    }
}

proof fn lemma_quotient(m: nat, e: nat)
    requires
        m > 0,
        e == top_bit(m),
        e > 52,
    ensures
        pow2((e - 52) as nat) > 0,
        pow2(52) <= m / pow2((e - 52) as nat) < pow2(53),
{
    lemma_top_bit_bounds(m);
    let u = pow2((e - 52) as nat);
    lemma_pow2_pos((e - 52) as nat);
    lemma_pow2_adds(52, (e - 52) as nat);
    lemma_pow2_adds(53, (e - 52) as nat);
    let q = m / u;
    vstd::arithmetic::div_mod::lemma_fundamental_div_mod(m as int, u as int);
    let r = m % u;
    assert(pow2(52) <= q < pow2(53)) by (nonlinear_arith)
        requires
            m == u * q + r,
            0 <= r < u,
            pow2(52) * u <= m < pow2(53) * u,
            u > 0,
    {
    }
}

/// The bits of the double nearest to `v`.
pub fn smi_to_double_bits(v: i64) -> (r: u64)
    ensures
        r == double_encoding(v as int),
{
    if v == 0 {
        return 0;
    }
    let m: u64 = if v < 0 {
        if v == i64::MIN {
            0x8000_0000_0000_0000
        } else {
            (-v) as u64
        }
    } else {
        v as u64
    };
    let sign: u64 = if v < 0 {
        0x8000_0000_0000_0000
    } else {
        0
    };
    proof {
        lemma2_to64();
        lemma2_to64_rest();
    }
    let mut x: u64 = m;
    let mut e: u32 = 0;
    while x >= 2
        invariant
            top_bit(m as nat) == e + top_bit(x as nat),
            e <= 63,
            x as nat * pow2(e as nat) <= m,
            x > 0,
        decreases x,
    {
        proof {
            lemma2_to64();
            lemma2_to64_rest();
            lemma_pow2_unfold((e + 1) as nat);
            let p = pow2(e as nat);
            assert((x / 2) * (2 * p) <= m) by (nonlinear_arith)
                requires
                    x as nat * p <= m,
                    p >= 0,
            {
            }
            if e >= 63 {
                if e > 63 {
                    vstd::arithmetic::power2::lemma_pow2_strictly_increases(63, e as nat);
                }
                assert(x as nat * p >= 2 * 0x8000_0000_0000_0000) by (nonlinear_arith)
                    requires
                        x >= 2,
                        p >= 0x8000_0000_0000_0000,
                {
                }
            }
        }
        x = x / 2;
        e = e + 1;
    }
    proof {
        lemma2_to64();
        lemma_top_bit_bounds(m as nat);
    }
    let sig: u64 = if e <= 52 {
        let scale: u64 = power_of_two(52 - e);
        proof {
            lemma_scaled(m as nat, e as nat);
        }
        m * scale
    } else {
        let unit: u64 = power_of_two(e - 52);
        proof {
            lemma_quotient(m as nat, e as nat);
        }
        let q: u64 = m / unit;
        let rem: u64 = m % unit;
        let half: u64 = unit / 2;
        proof {
            lemma_pow2_unfold((e - 52) as nat);
        }
        if rem > half || (rem == half && q % 2 == 1) {
            q + 1
        } else {
            q
        }
    };
    assert((e + 1022) * 0x10_0000_0000_0000 <= 1085 * 0x10_0000_0000_0000);
    sign + (e as u64 + 1022) * 0x10_0000_0000_0000 + sig
}

} // verus!
