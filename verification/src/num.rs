//! Exact integer numerics used by the similarity metrics: a truncating signed
//! division and an integer square root, both fully specified.

use vstd::prelude::*;
use vstd::arithmetic::div_mod::{
    lemma_div_is_ordered, lemma_div_multiples_vanish, lemma_div_nonincreasing,
    lemma_div_pos_is_pos, lemma_fundamental_div_mod, lemma_mod_bound,
};

verus! {

/// Division that rounds toward zero, as machine division does. Defined over
/// the magnitudes, so it agrees with mathematical (Euclidean) division on
/// non-negative operands.
pub open spec fn div_trunc(n: int, d: int) -> int
    recommends
        d != 0,
{
    if n >= 0 {
        if d > 0 {
            n / d
        } else {
            -(n / (-d))
        }
    } else {
        if d > 0 {
            -((-n) / d)
        } else {
            (-n) / (-d)
        }
    }
}

/// The quotient of a truncating division never exceeds the numerator's
/// magnitude when the divisor is at least one.
pub proof fn lemma_div_trunc_bound(n: int, d: int)
    requires
        d >= 1,
    ensures
        n >= 0 ==> 0 <= div_trunc(n, d) <= n,
        n < 0 ==> n <= div_trunc(n, d) <= 0,
{
    if n >= 0 {
        lemma_div_nonincreasing(n, d);
        lemma_div_pos_is_pos(n, d);
    } else {
        lemma_div_nonincreasing(-n, d);
        lemma_div_pos_is_pos(-n, d);
    }
}

/// A weighted-average bound: if the numerator's magnitude is at most `b`
/// times the divisor, the quotient's magnitude is at most `b`.
pub proof fn lemma_div_trunc_avg_bound(n: int, d: int, b: int)
    requires
        d >= 1,
        b >= 0,
        -(d * b) <= n <= d * b,
    ensures
        -b <= div_trunc(n, d) <= b,
{
    if n >= 0 {
        lemma_div_is_ordered(n, d * b, d);
        lemma_div_multiples_vanish(b, d);
        lemma_div_pos_is_pos(n, d);
    } else {
        lemma_div_is_ordered(-n, d * b, d);
        lemma_div_multiples_vanish(b, d);
        lemma_div_pos_is_pos(-n, d);
    }
}

/// Truncating division on `i128`, computed over unsigned magnitudes.
pub fn div_trunc_i128(n: i128, d: i128) -> (r: i128)
    requires
        d != 0,
        -100_000_000_000_000_000_000_000_000_000_000_000_000 <= n
            <= 100_000_000_000_000_000_000_000_000_000_000_000_000,
        -100_000_000_000_000_000_000_000_000_000_000_000_000 <= d
            <= 100_000_000_000_000_000_000_000_000_000_000_000_000,
    ensures
        r as int == div_trunc(n as int, d as int),
{
    let neg = (n < 0) != (d < 0);
    let nm: u128 = if n < 0 {
        (-n) as u128
    } else {
        n as u128
    };
    let dm: u128 = if d < 0 {
        (-d) as u128
    } else {
        d as u128
    };
    let q = nm / dm;
    proof {
        lemma_div_nonincreasing(nm as int, dm as int);
        lemma_div_pos_is_pos(nm as int, dm as int);
    }
    if neg {
        -(q as i128)
    } else {
        q as i128
    }
}

/// Whether a product of non-negative factors stays under a cap can be tested
/// with one division: `x <= cap / y` exactly when `x * y <= cap`.
pub proof fn lemma_mul_le_cap_via_div(x: int, y: int, cap: int)
    requires
        0 <= x,
        1 <= y,
        0 <= cap,
    ensures
        x <= cap / y <==> x * y <= cap,
{
    lemma_fundamental_div_mod(cap, y);
    lemma_mod_bound(cap, y);
    let q = cap / y;
    lemma_div_pos_is_pos(cap, y);
    if x <= q {
        assert(x * y <= q * y) by (nonlinear_arith)
            requires
                0 <= x <= q,
                1 <= y,
        ;
        assert(q * y == y * q) by (nonlinear_arith);
    } else {
        assert(x * y >= (q + 1) * y) by (nonlinear_arith)
            requires
                x >= q + 1,
                1 <= y,
        ;
        assert((q + 1) * y == y * q + y) by (nonlinear_arith);
    }
}

/// The integer square root: the largest `r` with `r * r <= n`, defined by
/// counting up.
pub open spec fn isqrt(n: nat) -> nat
    decreases n,
{
    if n == 0 {
        0
    } else {
        let r = isqrt((n - 1) as nat);
        if (r + 1) * (r + 1) <= n {
            r + 1
        } else {
            r
        }
    }
}

/// `isqrt(n)` squares to at most `n`, and the next integer squares past `n`.
pub proof fn lemma_isqrt_bounds(n: nat)
    ensures
        isqrt(n) * isqrt(n) <= n,
        n < (isqrt(n) + 1) * (isqrt(n) + 1),
    decreases n,
{
    if n == 0 {
        assert(isqrt(n) == 0);
        assert(isqrt(n) * isqrt(n) <= n);
        assert(n < (isqrt(n) + 1) * (isqrt(n) + 1)) by (nonlinear_arith)
            requires
                isqrt(n) == 0 && n == 0,
        ;
    } else {
        lemma_isqrt_bounds((n - 1) as nat);
        let r = isqrt((n - 1) as nat);
        assert(r * r <= n - 1);
        assert(n - 1 < (r + 1) * (r + 1));
        if (r + 1) * (r + 1) <= n {
            assert(isqrt(n) == r + 1);
            assert(n == (r + 1) * (r + 1));
            assert((r + 2) * (r + 2) == (r + 1) * (r + 1) + 2 * r + 3) by (nonlinear_arith);
            assert(n < (r + 2) * (r + 2));
            assert(isqrt(n) * isqrt(n) <= n);
            assert(n < (isqrt(n) + 1) * (isqrt(n) + 1));
        } else {
            assert(isqrt(n) == r);
            assert(isqrt(n) * isqrt(n) <= n);
            assert(n < (isqrt(n) + 1) * (isqrt(n) + 1));
        }
    }
}

/// Any `r` whose square brackets `n` is the integer square root of `n`.
pub proof fn lemma_isqrt_unique(n: nat, r: nat)
    requires
        r * r <= n,
        n < (r + 1) * (r + 1),
    ensures
        r == isqrt(n),
{
    lemma_isqrt_bounds(n);
    let q = isqrt(n);
    if r < q {
        assert((r + 1) * (r + 1) <= q * q) by (nonlinear_arith)
            requires
                r + 1 <= q,
        ;
    }
    if r > q {
        assert((q + 1) * (q + 1) <= r * r) by (nonlinear_arith)
            requires
                q + 1 <= r,
        ;
    }
}

/// A positive number has a positive integer square root.
pub proof fn lemma_isqrt_pos(n: nat)
    requires
        n >= 1,
    ensures
        isqrt(n) >= 1,
{
    lemma_isqrt_bounds(n);
    if isqrt(n) == 0 {
        assert((isqrt(n) + 1) * (isqrt(n) + 1) == 1) by (nonlinear_arith)
            requires
                isqrt(n) == 0,
        ;
    }
}

/// The integer square root of anything up to `b * b` is at most `b`.
pub proof fn lemma_isqrt_le(n: nat, b: nat)
    requires
        n <= b * b,
    ensures
        isqrt(n) <= b,
{
    lemma_isqrt_bounds(n);
    let q = isqrt(n);
    if q > b {
        assert((b + 1) * (b + 1) <= q * q) by (nonlinear_arith)
            requires
                b + 1 <= q,
        ;
        assert(b * b < (b + 1) * (b + 1)) by (nonlinear_arith);
    }
}

/// Integer square root by bisection.
pub fn isqrt_u128(n: u128) -> (r: u128)
    requires
        n < 85070591730234615865843651857942052864,
    ensures
        r as nat == isqrt(n as nat),
{
    let mut lo: u128 = 0;
    let mut hi: u128 = 9223372036854775808;
    proof {
        assert(9223372036854775808 * 9223372036854775808
            == 85070591730234615865843651857942052864) by (nonlinear_arith);
    }
    while lo + 1 < hi
        invariant
            (lo as nat) * (lo as nat) <= n as nat,
            (n as nat) < (hi as nat) * (hi as nat),
            lo < hi <= 9223372036854775808,
        decreases hi - lo,
    {
        let mid = lo + (hi - lo) / 2;
        proof {
            assert(lo < mid < hi);
            assert(mid * mid <= 9223372036854775807 * 9223372036854775807) by (nonlinear_arith)
                requires
                    mid <= 9223372036854775807,
            ;
        }
        let sq = mid * mid;
        if sq <= n {
            lo = mid;
        } else {
            hi = mid;
        }
    }
    proof {
        lemma_isqrt_unique(n as nat, lo as nat);
    }
    lo
}

} // verus!
