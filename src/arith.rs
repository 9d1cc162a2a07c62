//! Integer helpers: division rounding toward zero, and square roots.

use vstd::prelude::*;

verus! {

/// Division that rounds toward zero, as Rust's `/` does on signed integers.
pub open spec fn trunc_div(a: int, d: int) -> int {
    if a >= 0 {
        a / d
    } else {
        -((-a) / d)
    }
}

/// The largest integer whose square does not exceed `n`.
pub open spec fn floor_sqrt(n: nat) -> nat
    decreases n,
{
    if n == 0 {
        0
    } else {
        let r = 2 * floor_sqrt(n / 4);
        if (r + 1) * (r + 1) <= n {
            (r + 1) as nat
        } else {
            r
        }
    }
}

/// The smallest integer whose square is at least `n`.
pub open spec fn ceil_sqrt(n: nat) -> nat {
    let r = floor_sqrt(n);
    if r * r == n {
        r
    } else {
        (r + 1) as nat
    }
}

/// `a` divided by a positive `d` never exceeds `b` in magnitude when `|a| <= d * b`.
pub proof fn lemma_trunc_div_bound(a: int, d: int, b: int)
    requires
        d > 0,
        b >= 0,
        -(d * b) <= a <= d * b,
    ensures
        -b <= trunc_div(a, d) <= b,
        a >= 0 ==> trunc_div(a, d) >= 0,
        a <= 0 ==> trunc_div(a, d) <= 0,
{
    let m = if a >= 0 { a } else { -a };
    assert(0 <= m <= d * b);
    assert(m / d <= b) by {
        vstd::arithmetic::div_mod::lemma_fundamental_div_mod(m, d);
        assert(m == d * (m / d) + m % d);
        assert(0 <= m % d < d) by {
            vstd::arithmetic::div_mod::lemma_mod_pos_bound(m, d);
        }
        if m / d > b {
            assert(d * (m / d) >= d * (b + 1)) by (nonlinear_arith)
                requires
                    m / d >= b + 1,
                    d > 0,
            ;
            assert(d * (b + 1) == d * b + d) by (nonlinear_arith);
        }
    }
    assert(m / d >= 0) by {
        vstd::arithmetic::div_mod::lemma_div_pos_is_pos(m, d);
    }
}

/// For a non-negative `a` and a positive `d`, the quotient times `d` does not exceed `a`.
pub proof fn lemma_trunc_div_mul(a: int, d: int)
    requires
        d > 0,
    ensures
        a >= 0 ==> 0 <= trunc_div(a, d) * d <= a,
        a <= 0 ==> a <= trunc_div(a, d) * d <= 0,
{
    let m = if a >= 0 { a } else { -a };
    vstd::arithmetic::div_mod::lemma_fundamental_div_mod(m, d);
    vstd::arithmetic::div_mod::lemma_mod_pos_bound(m, d);
    vstd::arithmetic::div_mod::lemma_div_pos_is_pos(m, d);
    assert(0 <= (m / d) * d) by (nonlinear_arith)
        requires
            m / d >= 0,
            d > 0,
    ;
    assert(d * (m / d) == (m / d) * d) by (nonlinear_arith);
    if a < 0 {
        assert(trunc_div(a, d) * d == -((m / d) * d)) by (nonlinear_arith)
            requires
                trunc_div(a, d) == -(m / d),
        ;
    }
}

/// Rounds `a / d` toward zero.
pub fn div_toward_zero(a: i128, d: i128) -> (r: i128)
    requires
        d > 0,
        a > i128::MIN,
    ensures
        r == trunc_div(a as int, d as int),
{
    if a >= 0 {
        a / d
    } else {
        let q = (-a) / d;
        proof {
            vstd::arithmetic::div_mod::lemma_div_pos_is_pos(-a as int, d as int);
            vstd::arithmetic::div_mod::lemma_div_is_ordered_by_denominator(-a as int, 1, d as int);
        }
        -q
    }
}

/// The square of `floor_sqrt(n)` does not exceed `n`, and the next square does.
pub proof fn lemma_floor_sqrt(n: nat)
    ensures
        floor_sqrt(n) * floor_sqrt(n) <= n,
        n < (floor_sqrt(n) + 1) * (floor_sqrt(n) + 1),
    decreases n,
{
    if n > 0 {
        let q = floor_sqrt(n / 4);
        lemma_floor_sqrt(n / 4);
        let r = 2 * q;
        assert(r * r <= n) by (nonlinear_arith)
            requires
                q * q <= n / 4,
                r == 2 * q,
                n / 4 * 4 <= n,
        ;
        assert(n < (r + 2) * (r + 2)) by (nonlinear_arith)
            requires
                n / 4 < (q + 1) * (q + 1),
                r == 2 * q,
                n < n / 4 * 4 + 4,
        ;
        let f = floor_sqrt(n);
        if (r + 1) * (r + 1) <= n {
            assert(f == r + 1);
            assert(f * f <= n);
            assert((f + 1) * (f + 1) == (r + 2) * (r + 2));
        } else {
            assert(f == r);
            assert(f * f <= n);
            assert(n < (f + 1) * (f + 1));
        }
    } else {
        let f = floor_sqrt(n);
        assert(f == 0);
        assert((f + 1) * (f + 1) == 1) by (nonlinear_arith)
            requires
                f == 0,
        ;
    }
}

/// `ceil_sqrt(n)` is the least integer whose square reaches `n`.
pub proof fn lemma_ceil_sqrt(n: nat)
    ensures
        n <= ceil_sqrt(n) * ceil_sqrt(n),
        ceil_sqrt(n) == 0 || (ceil_sqrt(n) - 1) * (ceil_sqrt(n) - 1) < n,
{
    lemma_floor_sqrt(n);
    let r = floor_sqrt(n);
    if r * r != n {
        assert(r * r < n);
    } else if r > 0 {
        assert((r - 1) * (r - 1) < r * r) by (nonlinear_arith)
            requires
                r > 0,
        ;
    }
}

/// Computes `floor_sqrt(n)`.
pub fn floor_sqrt_u128(n: u128) -> (r: u128)
    requires
        n <= 0x10_0000_0000_0000_0000_0000_0000u128,
    ensures
        r == floor_sqrt(n as nat),
        r <= 0x4_0000_0000_0000u128,
    decreases n,
{
    if n == 0 {
        0
    } else {
        let q = floor_sqrt_u128(n / 4);
        proof {
            lemma_floor_sqrt((n / 4) as nat);
            lemma_floor_sqrt(n as nat);
            let fq = floor_sqrt((n / 4) as nat);
            assert(fq * fq <= n / 4);
            assert(q <= 0x2_0000_0000_0000u128) by (nonlinear_arith)
                requires
                    q * q <= n / 4,
                    n / 4 <= 0x4_0000_0000_0000_0000_0000_0000u128,
                    q >= 0,
            ;
        }
        let r = 2 * q;
        let r1 = r + 1;
        assert(r1 * r1 <= 0x40_0000_0000_0000_0000_0000_0000u128) by (nonlinear_arith)
            requires
                r1 <= 0x4_0000_0000_0001u128,
        ;
        if r1 * r1 <= n {
            proof {
                assert(floor_sqrt(n as nat) == r1);
                assert(r1 <= 0x4_0000_0000_0000u128) by (nonlinear_arith)
                    requires
                        r1 * r1 <= n,
                        n <= 0x10_0000_0000_0000_0000_0000_0000u128,
                        r1 >= 0,
                ;
            }
            r1
        } else {
            r
        }
    }
}

/// Computes `ceil_sqrt(n)`.
pub fn ceil_sqrt_u128(n: u128) -> (r: u128)
    requires
        n <= 0x10_0000_0000_0000_0000_0000_0000u128,
    ensures
        r == ceil_sqrt(n as nat),
        r <= 0x4_0000_0000_0001u128,
{
    let r = floor_sqrt_u128(n);
    assert(r * r <= 0x10_0000_0000_0000_0000_0000_0000u128) by (nonlinear_arith)
        requires
            r <= 0x4_0000_0000_0000u128,
    ;
    if r * r == n {
        r
    } else {
        r + 1
    }
}

} // verus!
