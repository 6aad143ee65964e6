//! Scalar building blocks: truncating division and integer square roots,
//! with the facts about them the force model needs.

use vstd::prelude::*;
use vstd::arithmetic::div_mod::{
    lemma_div_nonincreasing, lemma_div_of0, lemma_div_pos_is_pos, lemma_fundamental_div_mod,
    lemma_mod_bound, lemma_multiply_divide_le,
};

verus! {

/// Division rounding toward zero, the rounding every scaled quantity in this
/// crate uses. Spec-level `/` is Euclidean, so the negative case is spelled
/// out: `trunc_div(-7, 2) == -3`.
pub open spec fn trunc_div(a: int, b: int) -> int
    recommends
        b >= 1,
{
    if a >= 0 {
        a / b
    } else {
        -((-a) / b)
    }
}

/// A truncating quotient never grows past its dividend, and keeps its sign.
pub proof fn lemma_trunc_div_range(a: int, b: int)
    requires
        b >= 1,
    ensures
        a >= 0 ==> 0 <= trunc_div(a, b) <= a,
        a < 0 ==> a <= trunc_div(a, b) <= 0,
{
    if a >= 0 {
        lemma_div_pos_is_pos(a, b);
        lemma_div_nonincreasing(a, b);
    } else {
        lemma_div_pos_is_pos(-a, b);
        lemma_div_nonincreasing(-a, b);
    }
}

/// A truncating quotient is bounded by any `c` with `|a| <= b * c`.
pub proof fn lemma_trunc_div_le(a: int, b: int, c: int)
    requires
        b >= 1,
        -(b * c) <= a <= b * c,
    ensures
        -c <= trunc_div(a, b) <= c,
{
    assert(c >= 0) by (nonlinear_arith)
        requires
            b >= 1,
            b * c >= 0,
    ;
    if a >= 0 {
        lemma_div_pos_is_pos(a, b);
        lemma_multiply_divide_le(a, b, c);
    } else {
        lemma_div_pos_is_pos(-a, b);
        lemma_multiply_divide_le(-a, b, c);
    }
}

/// Multiplying a truncating quotient back by the divisor stays within the
/// dividend in absolute value: `|trunc_div(a, b) * b| <= |a|`.
pub proof fn lemma_trunc_div_times_divisor(a: int, b: int)
    requires
        b >= 1,
    ensures
        a >= 0 ==> 0 <= trunc_div(a, b) * b <= a,
        a < 0 ==> a <= trunc_div(a, b) * b <= 0,
{
    if a >= 0 {
        lemma_fundamental_div_mod(a, b);
        lemma_mod_bound(a, b);
        lemma_div_pos_is_pos(a, b);
        assert(b * (a / b) == (a / b) * b) by (nonlinear_arith);
        assert(0 <= (a / b) * b) by (nonlinear_arith)
            requires
                0 <= a / b,
                b >= 1,
        ;
    } else {
        lemma_fundamental_div_mod(-a, b);
        lemma_mod_bound(-a, b);
        lemma_div_pos_is_pos(-a, b);
        let q = (-a) / b;
        assert(b * q == q * b && (-q) * b == -(q * b)) by (nonlinear_arith);
        assert(0 <= q * b) by (nonlinear_arith)
            requires
                0 <= q,
                b >= 1,
        ;
    }
}

/// Truncating division, executable. `checked_div` never fails here because
/// the divisor is positive and the true quotient cannot leave the `i128`
/// range.
pub fn div_trunc(a: i128, b: i128) -> (r: i128)
    requires
        b >= 1,
    ensures
        r as int == trunc_div(a as int, b as int),
{
    proof {
        lemma_trunc_div_range(a as int, b as int);
        if a == 0 {
            lemma_div_of0(b as int);
        }
    }
    match a.checked_div(b) {
        Some(q) => q,
        None => 0,  // unreachable: the quotient always fits
    }
}

/// Floor of the square root, defined by counting up; `lemma_isqrt_bounds`
/// gives the defining inequalities.
pub open spec fn isqrt_spec(n: nat) -> nat
    decreases n,
{
    if n == 0 {
        0
    } else {
        let r = isqrt_spec((n - 1) as nat);
        if (r + 1) * (r + 1) <= n {
            r + 1
        } else {
            r
        }
    }
}

/// `isqrt_spec(n)` is the unique `r` with `r * r <= n < (r + 1) * (r + 1)`.
pub proof fn lemma_isqrt_bounds(n: nat)
    ensures
        isqrt_spec(n) * isqrt_spec(n) <= n,
        n < (isqrt_spec(n) + 1) * (isqrt_spec(n) + 1),
    decreases n,
{
    if n == 0 {
        assert(isqrt_spec(n) == 0);
        assert(isqrt_spec(n) * isqrt_spec(n) <= n && n < (isqrt_spec(n) + 1) * (isqrt_spec(n)
            + 1)) by (nonlinear_arith)
            requires
                n == 0,
                isqrt_spec(n) == 0,
        ;
    } else {
        lemma_isqrt_bounds((n - 1) as nat);
        let r = isqrt_spec((n - 1) as nat);
        if (r + 1) * (r + 1) <= n {
            assert(isqrt_spec(n) == r + 1);
            assert(isqrt_spec(n) * isqrt_spec(n) <= n);
            assert(n < (r + 1 + 1) * (r + 1 + 1)) by (nonlinear_arith)
                requires
                    (r + 1) * (r + 1) <= n,
                    n - 1 < (r + 1) * (r + 1),
            ;
            assert(n < (isqrt_spec(n) + 1) * (isqrt_spec(n) + 1));
        } else {
            assert(isqrt_spec(n) == r);
            assert(isqrt_spec(n) * isqrt_spec(n) <= n);
            assert(n < (isqrt_spec(n) + 1) * (isqrt_spec(n) + 1));
        }
    }
}

/// Any `r` satisfying the square-root inequalities is `isqrt_spec(n)`.
pub proof fn lemma_isqrt_unique(n: nat, r: nat)
    requires
        r * r <= n,
        n < (r + 1) * (r + 1),
    ensures
        r == isqrt_spec(n),
{
    let s = isqrt_spec(n);
    lemma_isqrt_bounds(n);
    if r < s {
        assert((r + 1) * (r + 1) <= s * s) by (nonlinear_arith)
            requires
                r + 1 <= s,
        ;
    }
    if s < r {
        assert((s + 1) * (s + 1) <= r * r) by (nonlinear_arith)
            requires
                s + 1 <= r,
        ;
    }
}

/// Ceiling of the square root: the smallest `c` with `n <= c * c`.
pub open spec fn sqrt_ceil_spec(n: nat) -> nat {
    if isqrt_spec(n) * isqrt_spec(n) == n {
        isqrt_spec(n)
    } else {
        isqrt_spec(n) + 1
    }
}

/// The ceiling square root bounds: `n <= c * c` and `c >= 1` for `n >= 1`.
pub proof fn lemma_sqrt_ceil_bounds(n: nat)
    ensures
        n <= sqrt_ceil_spec(n) * sqrt_ceil_spec(n),
        n >= 1 ==> sqrt_ceil_spec(n) >= 1,
{
    lemma_isqrt_bounds(n);
    let r = isqrt_spec(n);
    if r * r == n && n >= 1 && r == 0 {
        assert(false);
    }
}

/// Floor square root, executable: binary search on `[0, 2^63]`.
pub fn isqrt(n: u128) -> (r: u128)
    requires
        n < 0x4000_0000_0000_0000_0000_0000_0000_0000u128,  // 2^126
    ensures
        r as nat == isqrt_spec(n as nat),
        r * r <= n,
        n < (r + 1) * (r + 1),
        r < 0x8000_0000_0000_0000u128,
{
    let mut lo: u128 = 0;
    let mut hi: u128 = 0x8000_0000_0000_0000u128;  // 2^63
    proof {
        assert(n < hi * hi) by (nonlinear_arith)
            requires
                n < 0x4000_0000_0000_0000_0000_0000_0000_0000u128,
                hi == 0x8000_0000_0000_0000u128,
        ;
    }
    while lo + 1 < hi
        invariant
            lo < hi,
            hi <= 0x8000_0000_0000_0000u128,
            lo * lo <= n,
            n < hi * hi,
        decreases hi - lo,
    {
        let mid = lo + (hi - lo) / 2;
        proof {
            assert(mid * mid <= u128::MAX) by (nonlinear_arith)
                requires
                    mid <= 0x8000_0000_0000_0000u128,
            ;
        }
        if mid * mid <= n {
            lo = mid;
        } else {
            hi = mid;
        }
    }
    proof {
        lemma_isqrt_unique(n as nat, lo as nat);
    }
    lo
}

/// Ceiling square root, executable.
pub fn sqrt_ceil(n: u128) -> (r: u128)
    requires
        n < 0x4000_0000_0000_0000_0000_0000_0000_0000u128,  // 2^126
    ensures
        r as nat == sqrt_ceil_spec(n as nat),
        n <= r * r,
        n >= 1 ==> r >= 1,
        r <= 0x8000_0000_0000_0000u128,
{
    proof {
        lemma_sqrt_ceil_bounds(n as nat);
    }
    let f = isqrt(n);
    if f * f == n {
        f
    } else {
        f + 1
    }
}

} // verus!
