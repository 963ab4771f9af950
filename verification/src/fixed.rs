//! Fixed-point scalar arithmetic.
//!
//! A physical quantity is stored as an `i64` holding the quantity multiplied
//! by [`SCALE`]; squared quantities carry a factor of `SCALE * SCALE`.
//! Division truncates toward zero ([`tdiv`]), square and cube roots round
//! down ([`sqrt_floor`], [`cbrt_floor`]), and values that leave the working
//! range are saturated ([`clamp_lim`]).  Every executable helper is proved to
//! return exactly the value its spec-level counterpart defines, so all higher
//! layers can state their results as closed formulas.

use vstd::prelude::*;

verus! {

/// Number of fixed-point steps that represent the real value `1.0`.
pub const SCALE: i64 = 1_000_000;

/// `SCALE * SCALE`, the unit of squared quantities.
pub const SCALE2: i64 = 1_000_000_000_000;

/// Largest magnitude a stored coordinate or velocity may take (2^50).
/// Keeping positions and velocities inside this range lets every
/// intermediate product in the force computation fit in an `i128`.
pub const LIMIT: i64 = 0x4_0000_0000_0000;

/// Truncating division (round toward zero), the rounding used by all
/// fixed-point divisions in this crate.  Only meaningful for `b > 0`.
pub open spec fn tdiv(a: int, b: int) -> int
    recommends
        b > 0,
{
    if a >= 0 {
        a / b
    } else {
        -((-a) / b)
    }
}

/// Saturate `v` into the interval `[-lim, lim]`.
pub open spec fn clamp_lim(v: int, lim: int) -> int {
    if v > lim {
        lim
    } else if v < -lim {
        -lim
    } else {
        v
    }
}

/// The square root of `n`, rounded down; `0` for negative arguments.
pub open spec fn sqrt_floor(n: int) -> int
    decreases n,
{
    if n <= 0 {
        0
    } else {
        let s = sqrt_floor(n - 1);
        if (s + 1) * (s + 1) <= n {
            s + 1
        } else {
            s
        }
    }
}

/// The cube root of `n`, rounded down; `0` for negative arguments.
pub open spec fn cbrt_floor(n: int) -> int
    decreases n,
{
    if n <= 0 {
        0
    } else {
        let c = cbrt_floor(n - 1);
        if (c + 1) * (c + 1) * (c + 1) <= n {
            c + 1
        } else {
            c
        }
    }
}

/// `sqrt_floor(n)` is the unique `r >= 0` with `r^2 <= n < (r+1)^2`.
pub proof fn lemma_sqrt_floor(n: int)
    requires
        n >= 0,
    ensures
        0 <= sqrt_floor(n),
        sqrt_floor(n) * sqrt_floor(n) <= n,
        n < (sqrt_floor(n) + 1) * (sqrt_floor(n) + 1),
    decreases n,
{
    if n > 0 {
        lemma_sqrt_floor(n - 1);
        let s = sqrt_floor(n - 1);
        if (s + 1) * (s + 1) <= n {
            assert(n - 1 < (s + 1) * (s + 1));
            assert((s + 2) * (s + 2) > (s + 1) * (s + 1)) by (nonlinear_arith)
                requires s >= 0;
        }
    }
}

/// Any `r >= 0` with `r^2 <= n < (r+1)^2` equals `sqrt_floor(n)`.
pub proof fn lemma_sqrt_floor_unique(n: int, r: int)
    requires
        n >= 0,
        r >= 0,
        r * r <= n,
        n < (r + 1) * (r + 1),
    ensures
        r == sqrt_floor(n),
{
    lemma_sqrt_floor(n);
    let s = sqrt_floor(n);
    assert(r == s) by (nonlinear_arith)
        requires
            r >= 0,
            s >= 0,
            r * r <= n,
            n < (r + 1) * (r + 1),
            s * s <= n,
            n < (s + 1) * (s + 1);
}

/// `cbrt_floor(n)` is the unique `r >= 0` with `r^3 <= n < (r+1)^3`.
pub proof fn lemma_cbrt_floor(n: int)
    requires
        n >= 0,
    ensures
        0 <= cbrt_floor(n),
        cbrt_floor(n) * cbrt_floor(n) * cbrt_floor(n) <= n,
        n < (cbrt_floor(n) + 1) * (cbrt_floor(n) + 1) * (cbrt_floor(n) + 1),
    decreases n,
{
    if n > 0 {
        lemma_cbrt_floor(n - 1);
        let c = cbrt_floor(n - 1);
        if (c + 1) * (c + 1) * (c + 1) <= n {
            assert(n - 1 < (c + 1) * (c + 1) * (c + 1));
            assert((c + 2) * (c + 2) * (c + 2) > (c + 1) * (c + 1) * (c + 1)) by (nonlinear_arith)
                requires c >= 0;
        }
    }
}

/// Any `r >= 0` with `r^3 <= n < (r+1)^3` equals `cbrt_floor(n)`.
pub proof fn lemma_cbrt_floor_unique(n: int, r: int)
    requires
        n >= 0,
        r >= 0,
        r * r * r <= n,
        n < (r + 1) * (r + 1) * (r + 1),
    ensures
        r == cbrt_floor(n),
{
    lemma_cbrt_floor(n);
    let c = cbrt_floor(n);
    assert(r == c) by (nonlinear_arith)
        requires
            r >= 0,
            c >= 0,
            r * r * r <= n,
            n < (r + 1) * (r + 1) * (r + 1),
            c * c * c <= n,
            n < (c + 1) * (c + 1) * (c + 1);
}

/// Truncating division shrinks magnitudes: `|tdiv(a, b)| <= |a|`.
pub proof fn lemma_tdiv_in_range(a: int, b: int)
    requires
        b > 0,
    ensures
        a >= 0 ==> 0 <= tdiv(a, b) <= a,
        a < 0 ==> a <= tdiv(a, b) <= 0,
{
    if a >= 0 {
        vstd::arithmetic::div_mod::lemma_div_pos_is_pos(a, b);
        vstd::arithmetic::div_mod::lemma_div_nonincreasing(a, b);
    } else {
        vstd::arithmetic::div_mod::lemma_div_pos_is_pos(-a, b);
        vstd::arithmetic::div_mod::lemma_div_nonincreasing(-a, b);
    }
}

/// Dividing something no larger than `c * b` by `b` yields at most `c`.
pub proof fn lemma_tdiv_bound(a: int, b: int, c: int)
    requires
        b > 0,
        c >= 0,
        -(c * b) <= a <= c * b,
    ensures
        -c <= tdiv(a, b) <= c,
{
    vstd::arithmetic::div_mod::lemma_div_multiples_vanish(c, b);
    assert(b * c == c * b);
    assert((c * b) / b == c);
    if a >= 0 {
        vstd::arithmetic::div_mod::lemma_div_pos_is_pos(a, b);
        vstd::arithmetic::div_mod::lemma_div_is_ordered(a, c * b, b);
        assert(a / b <= c);
    } else {
        vstd::arithmetic::div_mod::lemma_div_pos_is_pos(-a, b);
        vstd::arithmetic::div_mod::lemma_div_is_ordered(-a, c * b, b);
        assert((-a) / b <= c);
    }
}

/// Truncating division, executable form.
pub fn tdiv_i128(a: i128, b: i128) -> (q: i128)
    requires
        b > 0,
    ensures
        q == tdiv(a as int, b as int),
        a >= 0 ==> 0 <= q <= a,
        a < 0 ==> a <= q <= 0,
{
    proof {
        lemma_tdiv_in_range(a as int, b as int);
    }
    let r = a.checked_div(b);
    r.unwrap()
}

/// Truncating division on `i64` values.
pub fn tdiv_i64(a: i64, b: i64) -> (q: i64)
    requires
        b > 0,
    ensures
        q == tdiv(a as int, b as int),
        a >= 0 ==> 0 <= q <= a,
        a < 0 ==> a <= q <= 0,
{
    let r: i128 = tdiv_i128(a as i128, b as i128);
    r as i64
}

/// Saturate an `i128` into `[-LIMIT, LIMIT]` and narrow it to `i64`.
pub fn sat_limit(v: i128) -> (r: i64)
    ensures
        r == clamp_lim(v as int, LIMIT as int),
        -LIMIT <= r <= LIMIT,
{
    let lim: i128 = LIMIT as i128;
    if v > lim {
        LIMIT
    } else if v < -lim {
        -LIMIT
    } else {
        v as i64
    }
}

/// Integer square root by bisection over the invariant
/// `lo^2 <= n < hi^2`.
pub fn isqrt_u128(n: u128) -> (r: u128)
    ensures
        r == sqrt_floor(n as int),
        r * r <= n < (r + 1) * (r + 1),
{
    let mut lo: u128 = 0;
    let mut hi: u128 = 0x1_0000_0000_0000_0000;
    proof {
        assert(hi * hi > n as int) by (nonlinear_arith)
            requires
                hi == 0x1_0000_0000_0000_0000,
                n <= u128::MAX;
    }
    while lo + 1 < hi
        invariant
            0 <= lo < hi <= 0x1_0000_0000_0000_0000,
            lo * lo <= n as int,
            (hi as int) * (hi as int) > n as int,
        decreases hi - lo,
    {
        let mid: u128 = lo + (hi - lo) / 2;
        assert(lo < mid < hi);
        // `mid <= n / mid` is exactly `mid * mid <= n` for positive `mid`.
        if mid <= n / mid {
            proof {
                vstd::arithmetic::div_mod::lemma_fundamental_div_mod(n as int, mid as int);
                assert(mid * mid <= n) by (nonlinear_arith)
                    requires
                        mid > 0,
                        mid <= (n as int) / (mid as int),
                        n as int == (mid as int) * ((n as int) / (mid as int)) + (n as int) % (mid as int),
                        (n as int) % (mid as int) >= 0;
            }
            lo = mid;
        } else {
            proof {
                vstd::arithmetic::div_mod::lemma_fundamental_div_mod(n as int, mid as int);
                assert(mid * mid > n) by (nonlinear_arith)
                    requires
                        mid > 0,
                        mid > (n as int) / (mid as int),
                        n as int == (mid as int) * ((n as int) / (mid as int)) + (n as int) % (mid as int),
                        (n as int) % (mid as int) < (mid as int);
            }
            hi = mid;
        }
    }
    proof {
        lemma_sqrt_floor_unique(n as int, lo as int);
    }
    lo
}

/// Integer cube root by bisection over the invariant
/// `lo^3 <= n < hi^3`.
pub fn icbrt_u128(n: u128) -> (r: u128)
    ensures
        r == cbrt_floor(n as int),
        r * r * r <= n < (r + 1) * (r + 1) * (r + 1),
{
    let mut lo: u128 = 0;
    let mut hi: u128 = 0x10_0000_0000_0000;
    proof {
        assert(hi * hi * hi > n as int) by (nonlinear_arith)
            requires
                hi == 0x10_0000_0000_0000,
                n <= u128::MAX;
    }
    while lo + 1 < hi
        invariant
            0 <= lo < hi <= 0x10_0000_0000_0000,
            lo * lo * lo <= n as int,
            (hi as int) * (hi as int) * (hi as int) > n as int,
        decreases hi - lo,
    {
        let mid: u128 = lo + (hi - lo) / 2;
        assert(lo < mid < hi);
        let q1: u128 = n / mid;
        let q2: u128 = q1 / mid;
        proof {
            vstd::arithmetic::div_mod::lemma_fundamental_div_mod(n as int, mid as int);
            vstd::arithmetic::div_mod::lemma_fundamental_div_mod(q1 as int, mid as int);
        }
        if mid <= q2 {
            proof {
                assert(mid * mid * mid <= n) by (nonlinear_arith)
                    requires
                        mid > 0,
                        mid <= q2 as int,
                        n as int == (mid as int) * (q1 as int) + (n as int) % (mid as int),
                        (n as int) % (mid as int) >= 0,
                        q1 as int == (mid as int) * (q2 as int) + (q1 as int) % (mid as int),
                        (q1 as int) % (mid as int) >= 0;
            }
            lo = mid;
        } else {
            proof {
                assert(mid * mid * mid > n) by (nonlinear_arith)
                    requires
                        mid > 0,
                        mid > q2 as int,
                        n as int == (mid as int) * (q1 as int) + (n as int) % (mid as int),
                        (n as int) % (mid as int) < (mid as int),
                        q1 as int == (mid as int) * (q2 as int) + (q1 as int) % (mid as int),
                        (q1 as int) % (mid as int) < (mid as int);
            }
            hi = mid;
        }
    }
    proof {
        lemma_cbrt_floor_unique(n as int, lo as int);
    }
    lo
}

} // verus!
