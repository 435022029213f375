//! Three-component vectors in fixed-point arithmetic.
//!
//! A component is an `i64` counting `num::SCALE`-ths of a world unit.  The
//! specification model of a vector is the triple of its components as
//! mathematical integers; every operation's contract states the exact triple
//! it returns, with `/` denoting the floor (Euclidean) quotient.

use crate::num::{
    div_floor_i128, isqrt128, lemma_div_floor_small, lemma_sqrt_floor_bounds, scale_div, scale_mul,
    sqrt_floor, COLOR_MAX, DIV_MAX, MAX_COORD, NORM_MAX, SCALAR_MAX, SCALE,
};
use vstd::arithmetic::div_mod::{
    lemma_div_multiples_vanish, lemma_fundamental_div_mod, lemma_fundamental_div_mod_converse,
    lemma_mod_division_less_than_divisor,
};
use vstd::arithmetic::mul::lemma_mul_is_commutative;
use vstd::prelude::*;

verus! {

/// Gain applied by `color`: the raw fixed-point value of 255.999.
pub const COLOR_GAIN: i64 = 255_999;

#[derive(Clone, Copy, PartialEq, Eq, Structural, Debug)]
pub struct Vector3 {
    pub x: i64,
    pub y: i64,
    pub z: i64,
}

/// The mathematical model of a vector: its components as integers.
pub open spec fn v3(v: Vector3) -> (int, int, int) {
    (v.x as int, v.y as int, v.z as int)
}

/// Components small enough to serve as scene coordinates.
pub open spec fn vec_ok(v: Vector3) -> bool {
    &&& -MAX_COORD <= v.x <= MAX_COORD
    &&& -MAX_COORD <= v.y <= MAX_COORD
    &&& -MAX_COORD <= v.z <= MAX_COORD
}

/// Components small enough to pass through the normal-handling operations.
pub open spec fn norm_ok(v: Vector3) -> bool {
    &&& -NORM_MAX <= v.x <= NORM_MAX
    &&& -NORM_MAX <= v.y <= NORM_MAX
    &&& -NORM_MAX <= v.z <= NORM_MAX
}

pub open spec fn vadd(a: (int, int, int), b: (int, int, int)) -> (int, int, int) {
    (a.0 + b.0, a.1 + b.1, a.2 + b.2)
}

pub open spec fn vsub(a: (int, int, int), b: (int, int, int)) -> (int, int, int) {
    (a.0 - b.0, a.1 - b.1, a.2 - b.2)
}

pub open spec fn vneg(a: (int, int, int)) -> (int, int, int) {
    (-a.0, -a.1, -a.2)
}

pub open spec fn vdot(a: (int, int, int), b: (int, int, int)) -> int {
    a.0 * b.0 + a.1 * b.1 + a.2 * b.2
}

/// Scaling by the raw scalar `s`, which stands for the real `s / SCALE`.
pub open spec fn vscale(a: (int, int, int), s: int) -> (int, int, int) {
    (a.0 * s / SCALE as int, a.1 * s / SCALE as int, a.2 * s / SCALE as int)
}

/// Division by the raw scalar `s` (the real `s / SCALE`), `s > 0`.
pub open spec fn vdivs(a: (int, int, int), s: int) -> (int, int, int) {
    (a.0 * SCALE as int / s, a.1 * SCALE as int / s, a.2 * SCALE as int / s)
}

pub open spec fn vcross(a: (int, int, int), b: (int, int, int)) -> (int, int, int) {
    (
        (a.1 * b.2 - a.2 * b.1) / SCALE as int,
        (a.2 * b.0 - a.0 * b.2) / SCALE as int,
        (a.0 * b.1 - a.1 * b.0) / SCALE as int,
    )
}

/// Raw magnitude: floor of the square root of the squared length.
pub open spec fn vmag(a: (int, int, int)) -> int {
    sqrt_floor(vdot(a, a) as nat) as int
}

pub open spec fn vunit(a: (int, int, int)) -> (int, int, int) {
    vdivs(a, vmag(a))
}

/// Linear interpolation `(1 - t) * a + t * b` for the raw parameter `t`,
/// rounded once per component.
pub open spec fn vlerp(a: (int, int, int), b: (int, int, int), t: int) -> (int, int, int) {
    (
        ((SCALE - t) * a.0 + t * b.0) / SCALE as int,
        ((SCALE - t) * a.1 + t * b.1) / SCALE as int,
        ((SCALE - t) * a.2 + t * b.2) / SCALE as int,
    )
}

/// Channel gain `255.999 * a`, the step from unit colors to the 0–255 range.
pub open spec fn vcolor(a: (int, int, int)) -> (int, int, int) {
    (
        a.0 * COLOR_GAIN / SCALE as int,
        a.1 * COLOR_GAIN / SCALE as int,
        a.2 * COLOR_GAIN / SCALE as int,
    )
}

impl Vector3 {
    pub fn new(x: i64, y: i64, z: i64) -> (v: Self)
        ensures
            v == (Vector3 { x, y, z }),
    {
        Self { x, y, z }
    }

    pub fn neg(self) -> (r: Self)
        requires
            i64::MIN < self.x,
            i64::MIN < self.y,
            i64::MIN < self.z,
        ensures
            v3(r) == vneg(v3(self)),
    {
        Self { x: -self.x, y: -self.y, z: -self.z }
    }

    pub fn add(self, other: Self) -> (r: Self)
        requires
            i64::MIN <= self.x + other.x <= i64::MAX,
            i64::MIN <= self.y + other.y <= i64::MAX,
            i64::MIN <= self.z + other.z <= i64::MAX,
        ensures
            v3(r) == vadd(v3(self), v3(other)),
    {
        Self { x: self.x + other.x, y: self.y + other.y, z: self.z + other.z }
    }

    pub fn sub(self, other: Self) -> (r: Self)
        requires
            i64::MIN <= self.x - other.x <= i64::MAX,
            i64::MIN <= self.y - other.y <= i64::MAX,
            i64::MIN <= self.z - other.z <= i64::MAX,
        ensures
            v3(r) == vsub(v3(self), v3(other)),
    {
        Self { x: self.x - other.x, y: self.y - other.y, z: self.z - other.z }
    }

    /// Scale by the raw scalar `scalar` (the real `scalar / SCALE`).
    pub fn mul(self, scalar: i64) -> (r: Self)
        requires
            vec_ok(self),
            -SCALAR_MAX <= scalar <= SCALAR_MAX,
        ensures
            v3(r) == vscale(v3(self), scalar as int),
    {
        proof {
            lemma_component_scale_in_range(self.x as int, scalar as int);
            lemma_component_scale_in_range(self.y as int, scalar as int);
            lemma_component_scale_in_range(self.z as int, scalar as int);
        }
        Self {
            x: scale_mul(self.x, scalar),
            y: scale_mul(self.y, scalar),
            z: scale_mul(self.z, scalar),
        }
    }

    /// Divide by the positive raw scalar `scalar` (the real `scalar / SCALE`).
    pub fn div(self, scalar: i64) -> (r: Self)
        requires
            1 <= scalar,
            -DIV_MAX <= self.x <= DIV_MAX,
            -DIV_MAX <= self.y <= DIV_MAX,
            -DIV_MAX <= self.z <= DIV_MAX,
        ensures
            v3(r) == vdivs(v3(self), scalar as int),
    {
        Self {
            x: scale_div(self.x, scalar),
            y: scale_div(self.y, scalar),
            z: scale_div(self.z, scalar),
        }
    }

    pub fn dot(&self, other: Vector3) -> (d: i64)
        requires
            vec_ok(*self),
            vec_ok(other),
        ensures
            d == vdot(v3(*self), v3(other)),
    {
        proof {
            lemma_dot_coord_bound(v3(*self), v3(other));
        }
        let d = (self.x as i128) * (other.x as i128) + (self.y as i128) * (other.y as i128) + (
        self.z as i128) * (other.z as i128);
        d as i64
    }

    pub fn cross(&self, other: Vector3) -> (r: Vector3)
        requires
            vec_ok(*self),
            vec_ok(other),
        ensures
            v3(r) == vcross(v3(*self), v3(other)),
    {
        proof {
            lemma_cross_coord_bound(v3(*self), v3(other));
        }
        let x = div_floor_i128(
            (self.y as i128) * (other.z as i128) - (self.z as i128) * (other.y as i128),
            SCALE as i128,
        );
        let y = div_floor_i128(
            (self.z as i128) * (other.x as i128) - (self.x as i128) * (other.z as i128),
            SCALE as i128,
        );
        let z = div_floor_i128(
            (self.x as i128) * (other.y as i128) - (self.y as i128) * (other.x as i128),
            SCALE as i128,
        );
        proof {
            lemma_div_floor_small(
                self.y as int * other.z as int - self.z as int * other.y as int,
                SCALE as int,
            );
            lemma_div_floor_small(
                self.z as int * other.x as int - self.x as int * other.z as int,
                SCALE as int,
            );
            lemma_div_floor_small(
                self.x as int * other.y as int - self.y as int * other.x as int,
                SCALE as int,
            );
        }
        Vector3 { x: x as i64, y: y as i64, z: z as i64 }
    }

    /// Raw length: `SCALE` for a vector of one world unit.
    pub fn magnitude(&self) -> (m: i64)
        requires
            norm_ok(*self),
        ensures
            m == vmag(v3(*self)),
            0 <= m,
    {
        proof {
            lemma_square_bound(self.x as int);
            lemma_square_bound(self.y as int);
            lemma_square_bound(self.z as int);
        }
        let n = (self.x as i128) * (self.x as i128) + (self.y as i128) * (self.y as i128) + (
        self.z as i128) * (self.z as i128);
        let r = isqrt128(n as u128);
        proof {
            lemma_sqrt_floor_bounds(n as nat);
            assert(r < 0x8000_0000_0000_0000u64) by (nonlinear_arith)
                requires
                    r as int * r as int <= n as int,
                    n as int <= 3 * ((NORM_MAX as int) * (NORM_MAX as int)),
                    r >= 0,
            ;
        }
        r as i64
    }

    /// Normalize: the direction of `self` at raw length (about) `SCALE`.
    /// The caller keeps zero vectors away, as division by a zero magnitude
    /// is undefined.
    pub fn unit(&self) -> (r: Vector3)
        requires
            vec_ok(*self),
            !(self.x == 0 && self.y == 0 && self.z == 0),
        ensures
            v3(r) == vunit(v3(*self)),
    {
        proof {
            lemma_nonzero_vector_mag_pos(v3(*self));
        }
        let m = self.magnitude();
        Vector3 { x: scale_div(self.x, m), y: scale_div(self.y, m), z: scale_div(self.z, m) }
    }

    /// `(1 - t) * left + t * right` for the raw parameter `t`; `t` outside
    /// `[0, SCALE]` extrapolates.
    pub fn lerp(left: &Vector3, right: &Vector3, t: i64) -> (r: Vector3)
        requires
            vec_ok(*left),
            vec_ok(*right),
            -SCALAR_MAX <= t <= SCALAR_MAX,
        ensures
            v3(r) == vlerp(v3(*left), v3(*right), t as int),
    {
        let x = Self::lerp_component(left.x, right.x, t);
        let y = Self::lerp_component(left.y, right.y, t);
        let z = Self::lerp_component(left.z, right.z, t);
        Vector3 { x, y, z }
    }

    fn lerp_component(a: i64, b: i64, t: i64) -> (r: i64)
        requires
            -MAX_COORD <= a <= MAX_COORD,
            -MAX_COORD <= b <= MAX_COORD,
            -SCALAR_MAX <= t <= SCALAR_MAX,
        ensures
            r == ((SCALE - t) * a + t * b) / SCALE as int,
    {
        proof {
            lemma_prod_bound(
                SCALE - t,
                a as int,
                SCALAR_MAX as int + SCALE as int,
                MAX_COORD as int,
            );
            lemma_prod_bound(t as int, b as int, SCALAR_MAX as int, MAX_COORD as int);
        }
        let num = ((SCALE as i128) - (t as i128)) * (a as i128) + (t as i128) * (b as i128);
        let q = div_floor_i128(num, SCALE as i128);
        proof {
            lemma_div_floor_small(num as int, SCALE as int);
        }
        q as i64
    }

    /// Map a unit-range color vector into the 0–255 channel range.
    pub fn color(&self) -> (r: Vector3)
        requires
            -COLOR_MAX <= self.x <= COLOR_MAX,
            -COLOR_MAX <= self.y <= COLOR_MAX,
            -COLOR_MAX <= self.z <= COLOR_MAX,
        ensures
            v3(r) == vcolor(v3(*self)),
    {
        proof {
            lemma_color_component_in_range(self.x as int);
            lemma_color_component_in_range(self.y as int);
            lemma_color_component_in_range(self.z as int);
        }
        Vector3 {
            x: scale_mul(self.x, COLOR_GAIN),
            y: scale_mul(self.y, COLOR_GAIN),
            z: scale_mul(self.z, COLOR_GAIN),
        }
    }
}

proof fn lemma_component_scale_in_range(x: int, s: int)
    requires
        -MAX_COORD <= x <= MAX_COORD,
        -SCALAR_MAX <= s <= SCALAR_MAX,
    ensures
        i64::MIN * SCALE <= x * s <= i64::MAX * SCALE,
{
    assert(-(MAX_COORD as int) * SCALAR_MAX <= x * s <= (MAX_COORD as int) * SCALAR_MAX)
        by (nonlinear_arith)
        requires
            -MAX_COORD <= x <= MAX_COORD,
            -SCALAR_MAX <= s <= SCALAR_MAX,
    ;
}

proof fn lemma_color_component_in_range(x: int)
    requires
        -COLOR_MAX <= x <= COLOR_MAX,
    ensures
        i64::MIN * SCALE <= x * COLOR_GAIN <= i64::MAX * SCALE,
{
    assert(-(COLOR_MAX as int) * COLOR_GAIN <= x * COLOR_GAIN <= (COLOR_MAX as int) * COLOR_GAIN)
        by (nonlinear_arith)
        requires
            -COLOR_MAX <= x <= COLOR_MAX,
    ;
}

/// Magnitude bounds on two factors bound their product.
pub proof fn lemma_prod_bound(x: int, y: int, mx: int, my: int)
    requires
        -mx <= x <= mx,
        -my <= y <= my,
        0 <= mx,
        0 <= my,
    ensures
        -(mx * my) <= x * y <= mx * my,
{
    assert(-(mx * my) <= x * y <= mx * my) by (nonlinear_arith)
        requires
            -mx <= x <= mx,
            -my <= y <= my,
            0 <= mx,
            0 <= my,
    ;
}

proof fn lemma_dot_coord_bound(a: (int, int, int), b: (int, int, int))
    requires
        -MAX_COORD <= a.0 <= MAX_COORD,
        -MAX_COORD <= a.1 <= MAX_COORD,
        -MAX_COORD <= a.2 <= MAX_COORD,
        -MAX_COORD <= b.0 <= MAX_COORD,
        -MAX_COORD <= b.1 <= MAX_COORD,
        -MAX_COORD <= b.2 <= MAX_COORD,
    ensures
        -((MAX_COORD as int) * (MAX_COORD as int)) <= a.0 * b.0 <= (MAX_COORD as int) * (
        MAX_COORD as int),
        -((MAX_COORD as int) * (MAX_COORD as int)) <= a.1 * b.1 <= (MAX_COORD as int) * (
        MAX_COORD as int),
        -((MAX_COORD as int) * (MAX_COORD as int)) <= a.2 * b.2 <= (MAX_COORD as int) * (
        MAX_COORD as int),
        -3 * ((MAX_COORD as int) * (MAX_COORD as int)) <= vdot(a, b) <= 3 * ((MAX_COORD as int)
            * (MAX_COORD as int)),
{
    let m = MAX_COORD as int;
    lemma_prod_bound(a.0, b.0, m, m);
    lemma_prod_bound(a.1, b.1, m, m);
    lemma_prod_bound(a.2, b.2, m, m);
}

proof fn lemma_cross_coord_bound(a: (int, int, int), b: (int, int, int))
    requires
        -MAX_COORD <= a.0 <= MAX_COORD,
        -MAX_COORD <= a.1 <= MAX_COORD,
        -MAX_COORD <= a.2 <= MAX_COORD,
        -MAX_COORD <= b.0 <= MAX_COORD,
        -MAX_COORD <= b.1 <= MAX_COORD,
        -MAX_COORD <= b.2 <= MAX_COORD,
    ensures
        forall|i: int, j: int|
            -MAX_COORD <= i <= MAX_COORD && -MAX_COORD <= j <= MAX_COORD ==> -(
            (MAX_COORD as int) * (MAX_COORD as int)) <= #[trigger] (i * j) <= (MAX_COORD as int) * (
            MAX_COORD as int),
{
    let m = MAX_COORD as int;
    assert forall|i: int, j: int| -m <= i <= m && -m <= j <= m implies -(m * m) <= #[trigger] (i
        * j) <= m * m by {
        lemma_prod_bound(i, j, m, m);
    }
}

proof fn lemma_square_bound(x: int)
    requires
        -NORM_MAX <= x <= NORM_MAX,
    ensures
        0 <= x * x <= (NORM_MAX as int) * (NORM_MAX as int),
{
    assert(0 <= x * x <= (NORM_MAX as int) * (NORM_MAX as int)) by (nonlinear_arith)
        requires
            -NORM_MAX <= x <= NORM_MAX,
    ;
}

/// A nonzero vector has a positive squared length, hence a positive raw
/// magnitude.
pub proof fn lemma_nonzero_vector_mag_pos(a: (int, int, int))
    requires
        !(a.0 == 0 && a.1 == 0 && a.2 == 0),
    ensures
        vdot(a, a) >= 1,
        vmag(a) >= 1,
{
    assert(vdot(a, a) >= 1) by (nonlinear_arith)
        requires
            !(a.0 == 0 && a.1 == 0 && a.2 == 0),
            vdot(a, a) == a.0 * a.0 + a.1 * a.1 + a.2 * a.2,
    ;
    lemma_sqrt_floor_bounds(vdot(a, a) as nat);
    let s = sqrt_floor(vdot(a, a) as nat);
    assert(s >= 1) by (nonlinear_arith)
        requires
            vdot(a, a) as nat >= 1,
            (vdot(a, a) as nat) < (s + 1) * (s + 1),
            s >= 0,
    ;
}

/// Normalizing keeps a vector that already has unit raw length unchanged.
pub proof fn lemma_unit_idempotent(a: (int, int, int))
    requires
        vmag(a) == SCALE,
    ensures
        vunit(a) == a,
{
    lemma_component_div_scale(a.0);
    lemma_component_div_scale(a.1);
    lemma_component_div_scale(a.2);
}

proof fn lemma_component_div_scale(x: int)
    ensures
        x * SCALE as int / SCALE as int == x,
{
    lemma_mul_is_commutative(x, SCALE as int);
    lemma_div_multiples_vanish(x, SCALE as int);
}

/// Normalizing restores unit raw length exactly whenever no rounding
/// intervenes: the squared length is a perfect square and its root divides
/// each scaled component.  (With rounding, a floor step can lose up to a
/// thousandth per component.)
pub proof fn lemma_unit_magnitude_exact(a: (int, int, int))
    requires
        1 <= vmag(a),
        vmag(a) * vmag(a) == vdot(a, a),
        (a.0 * SCALE) % vmag(a) == 0,
        (a.1 * SCALE) % vmag(a) == 0,
        (a.2 * SCALE) % vmag(a) == 0,
    ensures
        vmag(vunit(a)) == SCALE,
{
    let m = vmag(a);
    let u = vunit(a);
    lemma_exact_quotient(a.0 * SCALE, m, u.0);
    lemma_exact_quotient(a.1 * SCALE, m, u.1);
    lemma_exact_quotient(a.2 * SCALE, m, u.2);
    assert((m * m) * (u.0 * u.0) == (SCALE * SCALE) * (a.0 * a.0)) by (nonlinear_arith)
        requires
            m * u.0 == a.0 * SCALE,
    ;
    assert((m * m) * (u.1 * u.1) == (SCALE * SCALE) * (a.1 * a.1)) by (nonlinear_arith)
        requires
            m * u.1 == a.1 * SCALE,
    ;
    assert((m * m) * (u.2 * u.2) == (SCALE * SCALE) * (a.2 * a.2)) by (nonlinear_arith)
        requires
            m * u.2 == a.2 * SCALE,
    ;
    assert((m * m) * vdot(u, u) == (SCALE * SCALE) * vdot(a, a)) by (nonlinear_arith)
        requires
            vdot(u, u) == u.0 * u.0 + u.1 * u.1 + u.2 * u.2,
            vdot(a, a) == a.0 * a.0 + a.1 * a.1 + a.2 * a.2,
            (m * m) * (u.0 * u.0) == (SCALE * SCALE) * (a.0 * a.0),
            (m * m) * (u.1 * u.1) == (SCALE * SCALE) * (a.1 * a.1),
            (m * m) * (u.2 * u.2) == (SCALE * SCALE) * (a.2 * a.2),
    ;
    assert(vdot(u, u) == SCALE * SCALE) by (nonlinear_arith)
        requires
            (m * m) * vdot(u, u) == (SCALE * SCALE) * vdot(a, a),
            m * m == vdot(a, a),
            m >= 1,
            SCALE == 1000,
    ;
    lemma_sqrt_floor_bounds(vdot(u, u) as nat);
    let s = sqrt_floor(vdot(u, u) as nat);
    assert(s == 1000) by (nonlinear_arith)
        requires
            s * s <= vdot(u, u),
            vdot(u, u) < (s + 1) * (s + 1),
            vdot(u, u) == 1_000_000,
            s >= 0,
    ;
}

/// A quotient with zero remainder multiplies back to the dividend.
proof fn lemma_exact_quotient(x: int, d: int, q: int)
    requires
        1 <= d,
        x % d == 0,
        q == x / d,
    ensures
        d * q == x,
{
    lemma_fundamental_div_mod(x, d);
}

/// Interpolation returns the left end at `t = 0`, the right end at
/// `t = SCALE`, and the (floored) midpoint of the two at `t = SCALE / 2`.
pub proof fn lemma_lerp_endpoints(a: (int, int, int), b: (int, int, int))
    ensures
        vlerp(a, b, 0) == a,
        vlerp(a, b, SCALE as int) == b,
        vlerp(a, b, SCALE as int / 2) == ((a.0 + b.0) / 2, (a.1 + b.1) / 2, (a.2 + b.2) / 2),
        vlerp(a, b, SCALE as int / 2) == vdivs(vadd(a, b), 2 * SCALE),
{
    lemma_lerp_component_endpoints(a.0, b.0);
    lemma_lerp_component_endpoints(a.1, b.1);
    lemma_lerp_component_endpoints(a.2, b.2);
    lemma_half_scale_div(a.0 + b.0);
    lemma_half_scale_div(a.1 + b.1);
    lemma_half_scale_div(a.2 + b.2);
}

proof fn lemma_lerp_component_endpoints(a: int, b: int)
    ensures
        ((SCALE - 0) * a + 0 * b) / SCALE as int == a,
        ((SCALE - SCALE) * a + SCALE * b) / SCALE as int == b,
        ((SCALE - SCALE as int / 2) * a + (SCALE as int / 2) * b) / SCALE as int == (a + b) / 2,
{
    let s = SCALE as int;
    assert((s - 0) * a + 0 * b == a * s && (s - s) * a + s * b == b * s && (s - s / 2) * a + (s / 2)
        * b == 500 * (a + b)) by (nonlinear_arith)
        requires
            s == 1000,
    ;
    lemma_component_div_scale(a);
    lemma_component_div_scale(b);
    lemma_half_of_scale_times(a + b);
}

/// `500 * k / 1000 == k / 2`.
proof fn lemma_half_of_scale_times(k: int)
    ensures
        500 * k / SCALE as int == k / 2,
{
    let q = k / 2;
    let r = k % 2;
    lemma_fundamental_div_mod(k, 2);
    lemma_mod_division_less_than_divisor(k, 2);
    assert(500 * k == 1000 * q + 500 * r) by (nonlinear_arith)
        requires
            k == 2 * q + r,
    ;
    lemma_fundamental_div_mod_converse(500 * k, 1000, q, 500 * r);
}

/// `k * SCALE / (2 * SCALE) == k / 2`: dividing by the raw scalar for two is
/// halving.
proof fn lemma_half_scale_div(k: int)
    ensures
        k * SCALE as int / (2 * SCALE as int) == k / 2,
{
    let q = k / 2;
    let r = k % 2;
    lemma_fundamental_div_mod(k, 2);
    lemma_mod_division_less_than_divisor(k, 2);
    assert(k * 1000 == 2000 * q + 1000 * r) by (nonlinear_arith)
        requires
            k == 2 * q + r,
    ;
    lemma_fundamental_div_mod_converse(k * 1000, 2000, q, 1000 * r);
}

} // verus!
