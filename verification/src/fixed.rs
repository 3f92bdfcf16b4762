//! Fixed-point scalar arithmetic. A raw `i64` value `r` stands for the real
//! number `r / SCALE`. Division truncates toward zero, as the hardware does
//! for signed integers; results that leave the working range are saturated
//! at `LIMIT` (the magnitude 2.0), which never binds for the near-unit
//! quaternions this library manipulates.

use vstd::prelude::*;
use vstd::arithmetic::div_mod::{
    lemma_div_is_ordered, lemma_div_multiples_vanish, lemma_div_pos_is_pos,
    lemma_remainder_lower, lemma_remainder_upper,
};

verus! {

broadcast use vstd::arithmetic::mul::group_mul_is_commutative_and_distributive;

/// One unit (1.0) in fixed-point raw form.
pub const SCALE: i64 = 1_000_000;

/// Saturation bound for stored components: 2.0 in fixed-point raw form.
pub const LIMIT: i64 = 2_000_000;

/// Division truncating toward zero, the rounding of Rust's `/` on signed
/// integers (ghost `/` is Euclidean, hence the sign split).
pub open spec fn sdiv(a: int, d: int) -> int {
    if a >= 0 {
        a / d
    } else {
        -((-a) / d)
    }
}

/// Saturation of a raw value into the working range `[-LIMIT, LIMIT]`.
pub open spec fn sat(a: int) -> int {
    if a > LIMIT {
        LIMIT as int
    } else if a < -(LIMIT as int) {
        -(LIMIT as int)
    } else {
        a
    }
}

/// Truncating division of `a` by a positive divisor `d`.
pub fn div_trunc(a: i64, d: i64) -> (r: i64)
    requires
        d > 0,
        a > i64::MIN,
    ensures
        r == sdiv(a as int, d as int),
{
    if a >= 0 {
        let q: u64 = (a as u64) / (d as u64);
        q as i64
    } else {
        let m: u64 = (-a) as u64;
        let q: u64 = m / (d as u64);
        -(q as i64)
    }
}

/// Saturates a raw value into `[-LIMIT, LIMIT]`.
pub fn saturate(a: i64) -> (r: i64)
    ensures
        r == sat(a as int),
        -LIMIT <= r <= LIMIT,
{
    if a > LIMIT {
        LIMIT
    } else if a < -LIMIT {
        -LIMIT
    } else {
        a
    }
}

/// Bounds on a product follow from bounds on its factors.
pub proof fn lemma_mul_bound(x: int, y: int, xb: int, yb: int)
    requires
        -xb <= x <= xb,
        -yb <= y <= yb,
        0 <= xb,
        0 <= yb,
    ensures
        -(xb * yb) <= x * y <= xb * yb,
{
    assert(-(xb * yb) <= x * y <= xb * yb) by (nonlinear_arith)
        requires
            -xb <= x <= xb,
            -yb <= y <= yb,
            0 <= xb,
            0 <= yb,
    {
    }
}

/// Truncating division of an exact multiple recovers the factor.
pub proof fn lemma_sdiv_exact(x: int, d: int)
    requires
        0 < d,
    ensures
        sdiv(x * d, d) == x,
{
    if x >= 0 {
        assert(x * d >= 0) by (nonlinear_arith)
            requires
                x >= 0,
                d > 0,
        {
        }
        lemma_div_multiples_vanish(x, d);
        assert(x * d == d * x);
    } else {
        assert(x * d < 0) by (nonlinear_arith)
            requires
                x < 0,
                d > 0,
        {
        }
        lemma_div_multiples_vanish(-x, d);
        assert(-(x * d) == d * (-x));
    }
}

/// A bound on the dividend gives the matching bound on the quotient.
pub proof fn lemma_sdiv_mag(a: int, d: int, b: int)
    requires
        0 < d,
        0 <= b,
        -(b * d) <= a <= b * d,
    ensures
        -b <= sdiv(a, d) <= b,
{
    if a >= 0 {
        lemma_div_pos_is_pos(a, d);
        lemma_div_is_ordered(a, b * d, d);
        lemma_div_multiples_vanish(b, d);
        assert(b * d == d * b);
    } else {
        lemma_div_pos_is_pos(-a, d);
        lemma_div_is_ordered(-a, b * d, d);
        lemma_div_multiples_vanish(b, d);
        assert(b * d == d * b);
    }
}

/// Truncating division leaves a remainder smaller than the divisor, on the
/// same side of zero as the dividend.
pub proof fn lemma_sdiv_rem(a: int, d: int)
    requires
        0 < d,
    ensures
        0 <= a ==> 0 <= a - d * sdiv(a, d) < d,
        a < 0 ==> -d < a - d * sdiv(a, d) <= 0,
{
    if a >= 0 {
        lemma_remainder_lower(a, d);
        lemma_remainder_upper(a, d);
        assert(a / d * d == d * (a / d));
    } else {
        lemma_remainder_lower(-a, d);
        lemma_remainder_upper(-a, d);
        assert((-a) / d * d == d * ((-a) / d));
    }
}

/// Floor of the square root of `n`.
pub open spec fn isqrt_spec(n: nat) -> nat
    decreases n,
{
    if n == 0 {
        0
    } else {
        let r = isqrt_spec((n - 1) as nat);
        if (r + 1) * (r + 1) <= n {
            r + 1
        } else {
            r
        }
    }
}

/// `isqrt_spec(n)` is the unique `r` with `r * r <= n < (r + 1) * (r + 1)`.
pub proof fn lemma_isqrt_bounds(n: nat)
    ensures
        isqrt_spec(n) * isqrt_spec(n) <= n,
        n < (isqrt_spec(n) + 1) * (isqrt_spec(n) + 1),
    decreases n,
{
    if n == 0 {
        let s = isqrt_spec(n);
        assert(s == 0);
        assert(n < (s + 1) * (s + 1)) by (nonlinear_arith)
            requires
                n == 0nat,
                s == 0nat,
        {
        }
    } else {
        lemma_isqrt_bounds((n - 1) as nat);
        let r = isqrt_spec((n - 1) as nat);
        assert(r * r <= n - 1);
        assert(n - 1 < (r + 1) * (r + 1));
        if (r + 1) * (r + 1) <= n {
            assert(isqrt_spec(n) == r + 1);
            assert(n <= (r + 1) * (r + 1));
            assert(n < (r + 2) * (r + 2)) by (nonlinear_arith)
                requires
                    0 <= r,
                    n <= (r + 1) * (r + 1),
            {
            }
        } else {
            assert(isqrt_spec(n) == r);
        }
    }
}

/// Any `r` with `r * r <= n < (r + 1) * (r + 1)` equals `isqrt_spec(n)`.
pub proof fn lemma_isqrt_unique(n: nat, r: nat)
    requires
        r * r <= n,
        n < (r + 1) * (r + 1),
    ensures
        r == isqrt_spec(n),
{
    lemma_isqrt_bounds(n);
    let s = isqrt_spec(n);
    if r < s {
        assert((r + 1) * (r + 1) <= s * s) by (nonlinear_arith)
            requires
                r + 1 <= s,
            {
            }
    }
    if s < r {
        assert((s + 1) * (s + 1) <= r * r) by (nonlinear_arith)
            requires
                s + 1 <= r,
            {
            }
    }
}

/// Floor square root by binary search.
pub fn isqrt(n: u64) -> (r: u64)
    ensures
        r == isqrt_spec(n as nat),
        r * r <= n,
{
    let mut lo: u64 = 0;
    let mut hi: u64 = 4_294_967_296;
    while lo + 1 < hi
        invariant
            lo < hi <= 4_294_967_296,
            lo * lo <= n,
            (n as int) < (hi as int) * (hi as int),
        decreases hi - lo,
    {
        let mid: u64 = lo + (hi - lo) / 2;
        proof {
            assert((mid as int) * (mid as int) < 4_294_967_296int * 4_294_967_296int)
                by (nonlinear_arith)
                requires
                    0 <= (mid as int) < 4_294_967_296int,
            {
            }
        }
        if mid * mid <= n {
            lo = mid;
        } else {
            hi = mid;
        }
    }
    proof {
        lemma_isqrt_unique(n as nat, lo as nat);
    }
    lo
}

} // verus!
