//! Fixed-point scalar arithmetic: the scale, floor division, and an exact
//! integer square root.  Everything downstream reasons in raw units, i.e.
//! thousandths of a world unit.

use vstd::arithmetic::div_mod::{
    lemma_div_is_ordered, lemma_div_multiples_vanish, lemma_fundamental_div_mod,
    lemma_fundamental_div_mod_converse,
};
use vstd::prelude::*;

verus! {

/// Raw units per world unit.
pub const SCALE: i64 = 1000;

/// Largest coordinate magnitude (raw units) a well-formed scene may hold.
pub const MAX_COORD: i64 = 1_000_000_000;

/// Largest ray-parameter magnitude (raw units) a hit test may be asked for.
pub const MAX_T: i64 = 4_000_000_000;

/// Largest scalar magnitude accepted by the vector scaling operations.
pub const SCALAR_MAX: i64 = 4_000_000_000_000;

/// Largest component magnitude accepted by the scalar-division operation.
pub const DIV_MAX: i64 = 9_000_000_000_000_000;

/// Largest component magnitude a surface normal handed to
/// `Hit::set_face_normal` may have.
pub const NORM_MAX: i64 = 4_500_000_000_000_000_000;

/// Largest component magnitude accepted by `Vector3::color`.
pub const COLOR_MAX: i64 = 30_000_000_000_000;

/// Floor of the real square root of `n`.
pub open spec fn sqrt_floor(n: nat) -> nat
    decreases n,
{
    if n == 0 {
        0
    } else {
        let p = sqrt_floor((n - 1) as nat);
        if (p + 1) * (p + 1) <= n {
            p + 1
        } else {
            p
        }
    }
}

/// `sqrt_floor(n)` really is the floor of the square root of `n`.
pub proof fn lemma_sqrt_floor_bounds(n: nat)
    ensures
        sqrt_floor(n) * sqrt_floor(n) <= n,
        n < (sqrt_floor(n) + 1) * (sqrt_floor(n) + 1),
    decreases n,
{
    let s = sqrt_floor(n);
    if n == 0 {
        assert(s == 0);
        assert(s * s <= n && n < (s + 1) * (s + 1)) by (nonlinear_arith)
            requires
                s == 0,
                n == 0,
        ;
    } else {
        lemma_sqrt_floor_bounds((n - 1) as nat);
        let p = sqrt_floor((n - 1) as nat);
        if (p + 1) * (p + 1) <= n {
            assert(s == p + 1);
            assert(s * s <= n && n < (s + 1) * (s + 1)) by (nonlinear_arith)
                requires
                    s == p + 1,
                    (p + 1) * (p + 1) <= n,
                    (n - 1) < (p + 1) * (p + 1),
            ;
        } else {
            assert(s == p);
            assert(s * s <= n && n < (s + 1) * (s + 1)) by (nonlinear_arith)
                requires
                    s == p,
                    p * p <= n - 1,
                    !((p + 1) * (p + 1) <= n),
            ;
        }
    }
}

/// Two integers whose squares bracket `n` the same way are equal.
pub proof fn lemma_sqrt_floor_unique(n: nat, r: nat)
    requires
        r * r <= n,
        n < (r + 1) * (r + 1),
    ensures
        r == sqrt_floor(n),
{
    lemma_sqrt_floor_bounds(n);
    let s = sqrt_floor(n);
    assert(r == s) by (nonlinear_arith)
        requires
            r * r <= n,
            n < (r + 1) * (r + 1),
            s * s <= n,
            n < (s + 1) * (s + 1),
            r >= 0,
            s >= 0,
    ;
}

/// Exact integer square root by bisection.
pub fn isqrt128(n: u128) -> (r: u64)
    ensures
        r == sqrt_floor(n as nat),
{
    let mut lo: u128 = 0;
    let mut hi: u128 = 0x1_0000_0000_0000_0000;
    proof {
        assert((hi as int) * (hi as int) > n as int) by (nonlinear_arith)
            requires
                hi == 0x1_0000_0000_0000_0000u128,
                n <= u128::MAX,
        ;
    }
    while lo + 1 < hi
        invariant
            lo < hi <= 0x1_0000_0000_0000_0000u128,
            (lo as int) * (lo as int) <= n as int,
            (n as int) < (hi as int) * (hi as int),
        decreases hi - lo,
    {
        let mid = lo + (hi - lo) / 2;
        proof {
            assert((mid as int) * (mid as int) <= (u128::MAX) as int) by (nonlinear_arith)
                requires
                    mid < 0x1_0000_0000_0000_0000u128,
            ;
        }
        if mid * mid <= n {
            lo = mid;
        } else {
            hi = mid;
        }
    }
    proof {
        lemma_sqrt_floor_unique(n as nat, lo as nat);
    }
    lo as u64
}

/// Floor division of `a` by a positive `b`; agrees with the mathematical
/// (Euclidean) `/` used in specifications.
pub fn div_floor_i128(a: i128, b: i128) -> (q: i128)
    requires
        1 <= b,
        i128::MIN < a,
    ensures
        q == a as int / b as int,
{
    if a >= 0 {
        let q0 = (a as u128) / (b as u128);
        q0 as i128
    } else {
        let m = (-a) as u128;
        let bu = b as u128;
        let q0 = m / bu;
        let r0 = m % bu;
        proof {
            lemma_fundamental_div_mod(m as int, bu as int);
            if r0 == 0 {
                assert(a as int == (-(q0 as int)) * (b as int) + 0) by (nonlinear_arith)
                    requires
                        m as int == (bu as int) * (q0 as int) + r0 as int,
                        r0 == 0,
                        a as int == -(m as int),
                        b == bu,
                ;
                lemma_fundamental_div_mod_converse(a as int, b as int, -(q0 as int), 0);
            } else {
                assert(a as int == (-(q0 as int) - 1) * (b as int) + (b as int - r0 as int))
                    by (nonlinear_arith)
                    requires
                        m as int == (bu as int) * (q0 as int) + r0 as int,
                        a as int == -(m as int),
                        b == bu,
                ;
                lemma_fundamental_div_mod_converse(
                    a as int,
                    b as int,
                    -(q0 as int) - 1,
                    b as int - r0 as int,
                );
            }
        }
        if r0 == 0 {
            -(q0 as i128)
        } else {
            -(q0 as i128) - 1
        }
    }
}

/// Floor division on `i64`, through the 128-bit worker.
pub fn div_floor_i64(a: i64, b: i64) -> (q: i64)
    requires
        1 <= b,
    ensures
        q == a as int / b as int,
{
    let q = div_floor_i128(a as i128, b as i128);
    proof {
        lemma_div_floor_small(a as int, b as int);
    }
    q as i64
}

/// A floor quotient by a positive divisor lies between the dividend and zero.
pub proof fn lemma_div_floor_small(a: int, b: int)
    requires
        1 <= b,
    ensures
        a >= 0 ==> 0 <= a / b <= a,
        a < 0 ==> a <= a / b <= 0,
{
    lemma_fundamental_div_mod(a, b);
    let q = a / b;
    let r = a % b;
    assert(a >= 0 ==> 0 <= q <= a) by (nonlinear_arith)
        requires
            a == b * q + r,
            0 <= r < b,
            1 <= b,
    ;
    assert(a < 0 ==> a <= q <= 0) by (nonlinear_arith)
        requires
            a == b * q + r,
            0 <= r < b,
            1 <= b,
    ;
}

/// Fixed-point product: floor of `a * b / SCALE`.
pub fn scale_mul(a: i64, b: i64) -> (r: i64)
    requires
        i64::MIN * SCALE <= a as int * b as int <= i64::MAX * SCALE,
    ensures
        r == a as int * b as int / SCALE as int,
{
    let p = (a as i128) * (b as i128);
    let q = div_floor_i128(p, SCALE as i128);
    proof {
        lemma_div_is_ordered(p as int, i64::MAX * SCALE, SCALE as int);
        lemma_div_is_ordered(i64::MIN * SCALE, p as int, SCALE as int);
        lemma_div_multiples_vanish(i64::MAX as int, SCALE as int);
        lemma_div_multiples_vanish(i64::MIN as int, SCALE as int);
    }
    q as i64
}

/// Fixed-point quotient by a positive scalar: floor of `a * SCALE / b`.
pub fn scale_div(a: i64, b: i64) -> (r: i64)
    requires
        1 <= b,
        -DIV_MAX <= a <= DIV_MAX,
    ensures
        r == a as int * SCALE as int / b as int,
{
    proof {
        assert(-(DIV_MAX as int) * (SCALE as int) <= a as int * (SCALE as int) <= (DIV_MAX as int)
            * (SCALE as int)) by (nonlinear_arith)
            requires
                -DIV_MAX <= a <= DIV_MAX,
        ;
    }
    let p = (a as i128) * (SCALE as i128);
    let q = div_floor_i128(p, b as i128);
    proof {
        lemma_div_floor_small(p as int, b as int);
    }
    q as i64
}

/// The quotient of a bounded dividend by a positive divisor keeps the bound.
pub proof fn lemma_div_floor_bounded(a: int, b: int, m: int)
    requires
        1 <= b,
        -m <= a <= m,
        0 <= m,
    ensures
        -m <= a / b <= m,
{
    lemma_div_floor_small(a, b);
}

/// A dividend within `k * b` of zero has its quotient by `b` within `k`.
pub proof fn lemma_div_bound_by_multiple(a: int, b: int, k: int)
    requires
        1 <= b,
        0 <= k,
        -(k * b) <= a <= k * b,
    ensures
        -k <= a / b <= k,
{
    lemma_div_is_ordered(a, k * b, b);
    lemma_div_is_ordered(-(k * b), a, b);
    lemma_div_multiples_vanish(k, b);
    lemma_div_multiples_vanish(-k, b);
    assert(k * b == b * k && -(k * b) == b * (-k)) by (nonlinear_arith);
}

} // verus!
