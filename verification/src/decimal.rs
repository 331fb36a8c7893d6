//! One-decimal display of byte counts, as `format!("{:.1}", n as f64 / d)`
//! shows them, computed exactly with integers: the conversion to `f64`
//! rounds to 53 significant bits (ties to even), dividing by a power of two
//! is exact, and `{:.1}` rounds the exact value to tenths, ties to even.
use vstd::prelude::*;

use crate::text::{dec, push_decimal};

verus! {

/// `2^53`: integers below it convert to `f64` exactly.
pub open spec fn f64_exact_limit() -> nat {
    0x20_0000_0000_0000
}

/// The spacing of `f64` values around `n`: 1 below `2^53`, and doubling with
/// each further binary digit of `n`.
pub open spec fn f64_unit(n: nat) -> nat
    decreases n,
{
    if n < f64_exact_limit() {
        1
    } else {
        2 * f64_unit(n / 2)
    }
}

/// `n as f64` for a natural number `n`: the nearest multiple of the spacing,
/// ties to the one with an even multiplier.
pub open spec fn f64_of(n: nat) -> nat {
    let p = f64_unit(n);
    let q = n / p;
    let r = n % p;
    if 2 * r > p || (2 * r == p && q % 2 == 1) {
        (q + 1) * p
    } else {
        q * p
    }
}

/// `x / scale` rounded to tenths (ties to even), as a count of tenths.
pub open spec fn tenths(x: nat, scale: nat) -> nat {
    let q = (x * 10) / scale;
    let r = (x * 10) % scale;
    if 2 * r > scale || (2 * r == scale && q % 2 == 1) {
        q + 1
    } else {
        q
    }
}

/// A count of tenths written with one decimal: `123` is `"12.3"`.
pub open spec fn fixed1_text(t: nat) -> Seq<char> {
    dec(t / 10) + seq!['.'] + dec(t % 10)
}

/// `format!("{:.1}", n as f64 / scale)` for `scale` 1 or 1024.
pub open spec fn scaled_text(n: nat, scale: nat) -> Seq<char> {
    fixed1_text(tenths(f64_of(n), scale))
}

/// `n as f64`, as an integer.
pub fn f64_value(n: u64) -> (r: u128)
    ensures
        r as nat == f64_of(n as nat),
        r <= 0x2_0000_0000_0000_0000,
{
    let mut p: u64 = 1;
    while n / p >= 0x20_0000_0000_0000
        invariant
            1 <= p < 0x1000,
            f64_unit(n as nat) == p * f64_unit((n / p) as nat),
        decreases n / p,
    {
        let ghost m = n / p;
        proof {
            vstd::arithmetic::div_mod::lemma_div_denominator(n as int, p as int, 2);
            vstd::arithmetic::div_mod::lemma_fundamental_div_mod(n as int, p as int);
            assert(n as int >= p * m);
            assert(p * m >= p * 0x20_0000_0000_0000) by (nonlinear_arith)
                requires
                    m >= 0x20_0000_0000_0000,
                    p >= 1,
            ;
            assert(p < 0x800) by (nonlinear_arith)
                requires
                    n as int >= p * 0x20_0000_0000_0000,
                    n <= u64::MAX,
                    p >= 1,
            ;
            assert(f64_unit(m as nat) == 2 * f64_unit((m / 2) as nat));
            assert(f64_unit(n as nat) == (p * 2) * f64_unit((n as int / (p * 2)) as nat)) by (
            nonlinear_arith)
                requires
                    f64_unit(n as nat) == p * f64_unit(m as nat),
                    f64_unit(m as nat) == 2 * f64_unit((m / 2) as nat),
                    m / 2 == n as int / (p * 2),
            ;
            assert(n as int / (p * 2) < m) by (nonlinear_arith)
                requires
                    n as int / (p * 2) == m / 2,
                    m > 0,
            ;
        }
        p = p * 2;
    }
    assert(f64_unit((n / p) as nat) == 1);
    assert(f64_unit(n as nat) == p) by (nonlinear_arith)
        requires
            f64_unit(n as nat) == p * f64_unit((n / p) as nat),
            f64_unit((n / p) as nat) == 1,
    ;
    let q: u64 = n / p;
    let r: u64 = n % p;
    proof {
        vstd::arithmetic::div_mod::lemma_fundamental_div_mod(n as int, p as int);
    }
    let up = 2 * (r as u128) > p as u128 || (2 * (r as u128) == p as u128 && q % 2 == 1);
    let q2: u128 = if up {
        q as u128 + 1
    } else {
        q as u128
    };
    proof {
        assert(q2 * p <= n + p) by (nonlinear_arith)
            requires
                q2 <= q + 1,
                n as int == p * q + r,
                r >= 0,
                p >= 1,
        ;
    }
    q2 * (p as u128)
}

/// Appends `n as f64 / scale` with one decimal (`format!("{:.1}", ..)`), for
/// `scale` 1 or 1024.
pub fn push_scaled(out: &mut String, n: u64, scale: u128)
    requires
        scale == 1 || scale == 1024,
    ensures
        final(out)@ == old(out)@ + scaled_text(n as nat, scale as nat),
{
    let f = f64_value(n);
    let num: u128 = f * 10;
    let q: u128 = num / scale;
    let r: u128 = num % scale;
    let t: u128 = if 2 * r > scale || (2 * r == scale && q % 2 == 1) {
        q + 1
    } else {
        q
    };
    push_decimal(out, t / 10);
    out.push('.');
    push_decimal(out, t % 10);
    assert(out@ =~= old(out)@ + scaled_text(n as nat, scale as nat));
}

} // verus!
