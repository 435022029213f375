//! Spheres, and the closed-form quadratic hit test they answer.
//!
//! The specification model `spec_hit_t` fixes the raw parameter the test
//! returns — discriminant, integer square root, floor-divided roots, the
//! near-root-first preference — so the executable test is pinned to one
//! exact answer for every input.

use crate::hittable::{facing, hit_model_of, Hit, Hittable};
use crate::num::{
    div_floor_i128, isqrt128, lemma_div_bound_by_multiple, lemma_div_floor_bounded,
    lemma_sqrt_floor_bounds, sqrt_floor, MAX_COORD, MAX_T, NORM_MAX, SCALE,
};
use crate::ray::{ray_ok, Ray};
use crate::vector3::{
    lemma_nonzero_vector_mag_pos, lemma_prod_bound, norm_ok, v3, vadd, vdivs, vdot, vec_ok, vneg,
    vscale, vsub, Vector3,
};
use vstd::arithmetic::div_mod::{
    lemma_div_by_self, lemma_div_is_ordered, lemma_div_multiples_vanish, lemma_div_pos_is_pos,
};
use vstd::prelude::*;

verus! {

#[derive(Clone, Copy, PartialEq, Eq, Structural, Debug)]
pub struct Sphere {
    pub position: Vector3,
    pub radius: i64,
}

/// A sphere the hit test accepts: coordinates in range, radius positive.
pub open spec fn sphere_ok(s: Sphere) -> bool {
    &&& vec_ok(s.position)
    &&& 1 <= s.radius <= MAX_COORD
}

/// Ray origin relative to the sphere's center.
pub open spec fn spec_oc(s: Sphere, ray: Ray) -> (int, int, int) {
    vsub(v3(ray.origin), v3(s.position))
}

/// Leading quadratic coefficient: the squared raw length of the direction.
pub open spec fn spec_quad_a(ray: Ray) -> int {
    vdot(v3(ray.direction), v3(ray.direction))
}

/// Half the linear quadratic coefficient.
pub open spec fn spec_half_b(s: Sphere, ray: Ray) -> int {
    vdot(spec_oc(s, ray), v3(ray.direction))
}

/// Constant quadratic coefficient.
pub open spec fn spec_quad_c(s: Sphere, ray: Ray) -> int {
    vdot(spec_oc(s, ray), spec_oc(s, ray)) - (s.radius as int) * (s.radius as int)
}

pub open spec fn spec_disc(s: Sphere, ray: Ray) -> int {
    spec_half_b(s, ray) * spec_half_b(s, ray) - spec_quad_a(ray) * spec_quad_c(s, ray)
}

/// The raw ray parameter the hit test reports within `[tmin, tmax]`: the
/// nearer root when it lies in range, else the farther root, else nothing.
pub open spec fn spec_hit_t(s: Sphere, ray: Ray, tmin: int, tmax: int) -> Option<int> {
    let a = spec_quad_a(ray);
    let hb = spec_half_b(s, ray);
    let disc = spec_disc(s, ray);
    if disc < 0 {
        None
    } else {
        let sq = sqrt_floor(disc as nat) as int;
        let r1 = (-hb - sq) * SCALE / a;
        if tmin <= r1 <= tmax {
            Some(r1)
        } else {
            let r2 = (-hb + sq) * SCALE / a;
            if tmin <= r2 <= tmax {
                Some(r2)
            } else {
                None
            }
        }
    }
}

/// Point struck at parameter `t`.
pub open spec fn spec_hit_position(s: Sphere, ray: Ray, t: int) -> (int, int, int) {
    vadd(v3(ray.origin), vscale(v3(ray.direction), t))
}

/// Raw outward normal at parameter `t`: the strike offset from the center,
/// divided by the radius.
pub open spec fn spec_outward_normal(s: Sphere, ray: Ray, t: int) -> (int, int, int) {
    vdivs(vsub(spec_hit_position(s, ray, t), v3(s.position)), s.radius as int)
}

/// The stored, front-facing normal at parameter `t`.
pub open spec fn spec_hit_normal(s: Sphere, ray: Ray, t: int) -> (int, int, int) {
    facing(v3(ray.direction), spec_outward_normal(s, ray, t))
}

impl Sphere {
    pub fn new(position: Vector3, radius: i64) -> (s: Self)
        ensures
            s == (Sphere { position, radius }),
    {
        Self { position, radius }
    }

    /// Intersect `ray` with the sphere inside `[t_min, t_max]`.  The result
    /// is exactly `spec_hit_t`'s choice; when a hit comes back its normal
    /// opposes the ray's direction.
    pub fn hit(&self, ray: &Ray, t_min: i64, t_max: i64) -> (r: Option<Hit>)
        requires
            sphere_ok(*self),
            ray_ok(*ray),
            -MAX_T <= t_min,
            t_max <= MAX_T,
        ensures
            match r {
                Some(h) => {
                    &&& spec_hit_t(*self, *ray, t_min as int, t_max as int) == Some(h.t as int)
                    &&& t_min <= h.t <= t_max
                    &&& v3(h.position) == spec_hit_position(*self, *ray, h.t as int)
                    &&& v3(h.normal) == spec_hit_normal(*self, *ray, h.t as int)
                    &&& norm_ok(h.normal)
                    &&& vdot(v3(ray.direction), v3(h.normal)) <= 0
                },
                None => spec_hit_t(*self, *ray, t_min as int, t_max as int) is None,
            },
    {
        let oc = ray.origin.sub(self.position);
        let a = ray.direction.dot(ray.direction);
        proof {
            lemma_nonzero_vector_mag_pos(v3(ray.direction));
            lemma_prod_bound(oc.x as int, ray.direction.x as int, 2_000_000_000, 1_000_000_000);
            lemma_prod_bound(oc.y as int, ray.direction.y as int, 2_000_000_000, 1_000_000_000);
            lemma_prod_bound(oc.z as int, ray.direction.z as int, 2_000_000_000, 1_000_000_000);
            lemma_prod_bound(oc.x as int, oc.x as int, 2_000_000_000, 2_000_000_000);
            lemma_prod_bound(oc.y as int, oc.y as int, 2_000_000_000, 2_000_000_000);
            lemma_prod_bound(oc.z as int, oc.z as int, 2_000_000_000, 2_000_000_000);
            lemma_prod_bound(
                ray.direction.x as int,
                ray.direction.x as int,
                1_000_000_000,
                1_000_000_000,
            );
            lemma_prod_bound(
                ray.direction.y as int,
                ray.direction.y as int,
                1_000_000_000,
                1_000_000_000,
            );
            lemma_prod_bound(
                ray.direction.z as int,
                ray.direction.z as int,
                1_000_000_000,
                1_000_000_000,
            );
            lemma_prod_bound(self.radius as int, self.radius as int, 1_000_000_000, 1_000_000_000);
        }
        let hb: i128 = (oc.x as i128) * (ray.direction.x as i128) + (oc.y as i128)
            * (ray.direction.y as i128) + (oc.z as i128) * (ray.direction.z as i128);
        let cq: i128 = (oc.x as i128) * (oc.x as i128) + (oc.y as i128) * (oc.y as i128) + (
        oc.z as i128) * (oc.z as i128) - (self.radius as i128) * (self.radius as i128);
        proof {
            lemma_prod_bound(
                hb as int,
                hb as int,
                6_000_000_000_000_000_000,
                6_000_000_000_000_000_000,
            );
            lemma_prod_bound(
                a as int,
                cq as int,
                3_000_000_000_000_000_000,
                13_000_000_000_000_000_000,
            );
        }
        let disc: i128 = hb * hb - (a as i128) * cq;
        if disc < 0 {
            return None;
        }
        let sq: i128 = isqrt128(disc as u128) as i128;
        proof {
            lemma_sqrt_floor_bounds(disc as nat);
            assert(sq as int <= 9_000_000_000_000_000_000) by (nonlinear_arith)
                requires
                    sq as int * (sq as int) <= disc as int,
                    disc as int <= 75_000_000_000_000_000_000_000_000_000_000_000_000,
                    sq >= 0,
            ;
            lemma_prod_bound(
                -(hb as int) - sq as int,
                SCALE as int,
                15_000_000_000_000_000_000,
                1000,
            );
            lemma_prod_bound(
                -(hb as int) + sq as int,
                SCALE as int,
                15_000_000_000_000_000_000,
                1000,
            );
        }
        let num1: i128 = -hb - sq;
        let r1: i128 = div_floor_i128(num1 * (SCALE as i128), a as i128);
        if (t_min as i128) <= r1 && r1 <= (t_max as i128) {
            Some(self.finish_hit(ray, r1 as i64))
        } else {
            let num2: i128 = -hb + sq;
            let r2: i128 = div_floor_i128(num2 * (SCALE as i128), a as i128);
            if (t_min as i128) <= r2 && r2 <= (t_max as i128) {
                Some(self.finish_hit(ray, r2 as i64))
            } else {
                None
            }
        }
    }

    /// Build the hit record for the accepted raw parameter `root`.
    fn finish_hit(&self, ray: &Ray, root: i64) -> (h: Hit)
        requires
            sphere_ok(*self),
            ray_ok(*ray),
            -MAX_T <= root <= MAX_T,
        ensures
            h.t == root,
            v3(h.position) == spec_hit_position(*self, *ray, root as int),
            v3(h.normal) == spec_hit_normal(*self, *ray, root as int),
            norm_ok(h.normal),
            vdot(v3(ray.direction), v3(h.normal)) <= 0,
    {
        proof {
            lemma_position_bound(ray.direction.x as int, root as int);
            lemma_position_bound(ray.direction.y as int, root as int);
            lemma_position_bound(ray.direction.z as int, root as int);
        }
        let pos = ray.at(root);
        let diff = pos.sub(self.position);
        proof {
            lemma_outward_bound(diff.x as int, self.radius as int);
            lemma_outward_bound(diff.y as int, self.radius as int);
            lemma_outward_bound(diff.z as int, self.radius as int);
        }
        let outward = diff.div(self.radius);
        let mut h = Hit { position: pos, normal: outward, t: root };
        h.set_face_normal(ray, outward);
        h
    }
}

impl Hittable for Sphere {
    open spec fn spec_hit(&self, ray: Ray, tmin: int, tmax: int) -> Option<
        (int, (int, int, int), (int, int, int)),
    > {
        match spec_hit_t(*self, ray, tmin, tmax) {
            Some(t) => Some(hit_model_of(*self, ray, t)),
            None => None,
        }
    }

    open spec fn hittable_wf(&self) -> bool {
        sphere_ok(*self)
    }

    fn hit(&self, ray: &Ray, t_min: i64, t_max: i64) -> (r: Option<Hit>) {
        Sphere::hit(self, ray, t_min, t_max)
    }
}

/// Direction offsets over a hit-range parameter stay small.
proof fn lemma_position_bound(x: int, t: int)
    requires
        -MAX_COORD <= x <= MAX_COORD,
        -MAX_T <= t <= MAX_T,
    ensures
        -4_000_000_000_000_000 <= x * t / SCALE as int <= 4_000_000_000_000_000,
{
    lemma_prod_bound(x, t, MAX_COORD as int, MAX_T as int);
    assert((MAX_COORD as int) * (MAX_T as int) == 4_000_000_000_000_000 * SCALE)
        by (nonlinear_arith);
    lemma_div_bound_by_multiple(x * t, SCALE as int, 4_000_000_000_000_000);
}

/// A strike offset divided by the radius stays inside the normal range.
proof fn lemma_outward_bound(x: int, radius: int)
    requires
        -4_002_000_000_000_000 <= x <= 4_002_000_000_000_000,
        1 <= radius,
    ensures
        -NORM_MAX <= x * SCALE as int / radius <= NORM_MAX,
{
    lemma_div_floor_bounded(x * SCALE as int, radius, 4_002_000_000_000_000_000);
}

/// Narrowing the far end of the range changes nothing but to drop hits
/// beyond it: a hit found inside the narrowed range is the hit of the full
/// range, and a miss in the narrowed range means the full range's hit, if
/// any, lies past the cutoff.
pub proof fn lemma_hit_t_narrow(s: Sphere, ray: Ray, tmin: int, cutoff: int, tmax: int)
    requires
        cutoff <= tmax,
        spec_quad_a(ray) >= 1,
    ensures
        match spec_hit_t(s, ray, tmin, cutoff) {
            Some(t) => spec_hit_t(s, ray, tmin, tmax) == Some(t),
            None => match spec_hit_t(s, ray, tmin, tmax) {
                Some(t2) => t2 > cutoff,
                None => true,
            },
        },
{
    let a = spec_quad_a(ray);
    let hb = spec_half_b(s, ray);
    let disc = spec_disc(s, ray);
    if disc >= 0 {
        let sq = sqrt_floor(disc as nat) as int;
        let r1 = (-hb - sq) * SCALE / a;
        let r2 = (-hb + sq) * SCALE / a;
        assert((-hb - sq) * SCALE <= (-hb + sq) * SCALE) by (nonlinear_arith)
            requires
                sq >= 0,
                SCALE == 1000,
        ;
        lemma_div_is_ordered((-hb - sq) * SCALE, (-hb + sq) * SCALE, a);
        assert(r1 <= r2);
    }
}

/// A ray whose closest approach to the center is farther out than the
/// radius reports no hit: `a * c > hb * hb` states, cleared of
/// denominators, that the squared perpendicular offset exceeds the squared
/// radius.
pub proof fn lemma_offset_ray_misses(s: Sphere, ray: Ray, tmin: int, tmax: int)
    requires
        spec_quad_a(ray) * spec_quad_c(s, ray) > spec_half_b(s, ray) * spec_half_b(s, ray),
    ensures
        spec_hit_t(s, ray, tmin, tmax) is None,
{
}

/// A ray aimed straight at the center from outside always strikes: when
/// `center - origin` is the positive rational multiple `p / q` of the
/// direction, the origin lies outside the sphere by at least a thousandth
/// of the direction's length (the two margin premises, squared to stay in
/// integers), and the range reaches at least to the center, the hit test
/// reports a strictly positive parameter within `[0, tmax]`.  The general
/// contract of `hit` then places its normal against the ray.
pub proof fn lemma_aimed_ray_hits(s: Sphere, ray: Ray, tmax: int, p: int, q: int)
    requires
        spec_quad_a(ray) >= 1,
        s.radius >= 1,
        p >= 1,
        q >= 1,
        q * (s.position.x - ray.origin.x) == p * ray.direction.x,
        q * (s.position.y - ray.origin.y) == p * ray.direction.y,
        q * (s.position.z - ray.origin.z) == p * ray.direction.z,
        vdot(spec_oc(s, ray), spec_oc(s, ray)) > (s.radius as int) * (s.radius as int),
        p * SCALE >= q,
        spec_quad_a(ray) * ((p * SCALE - q) * (p * SCALE - q)) >= ((q * q) * (
        (SCALE as int) * (SCALE as int))) * ((s.radius as int) * (s.radius as int)),
        q * tmax >= p * SCALE,
    ensures
        spec_hit_t(s, ray, 0, tmax) is Some,
        spec_hit_t(s, ray, 0, tmax) matches Some(t) && 0 < t <= tmax,
{
    let d = v3(ray.direction);
    let oc = spec_oc(s, ray);
    let a = spec_quad_a(ray);
    let hb = spec_half_b(s, ray);
    let n2 = vdot(oc, oc);
    let r = s.radius as int;
    let cq = spec_quad_c(s, ray);
    let disc = spec_disc(s, ray);

    assert(q * oc.0 == -(p * d.0)) by (nonlinear_arith)
        requires
            q * (s.position.x - ray.origin.x) == p * ray.direction.x,
            oc.0 == ray.origin.x - s.position.x,
            d.0 == ray.direction.x,
    ;
    assert(q * oc.1 == -(p * d.1)) by (nonlinear_arith)
        requires
            q * (s.position.y - ray.origin.y) == p * ray.direction.y,
            oc.1 == ray.origin.y - s.position.y,
            d.1 == ray.direction.y,
    ;
    assert(q * oc.2 == -(p * d.2)) by (nonlinear_arith)
        requires
            q * (s.position.z - ray.origin.z) == p * ray.direction.z,
            oc.2 == ray.origin.z - s.position.z,
            d.2 == ray.direction.z,
    ;

    // The linear coefficient, cleared of the denominator q.
    assert(q * (oc.0 * d.0) == -(p * (d.0 * d.0))) by (nonlinear_arith)
        requires
            q * oc.0 == -(p * d.0),
    ;
    assert(q * (oc.1 * d.1) == -(p * (d.1 * d.1))) by (nonlinear_arith)
        requires
            q * oc.1 == -(p * d.1),
    ;
    assert(q * (oc.2 * d.2) == -(p * (d.2 * d.2))) by (nonlinear_arith)
        requires
            q * oc.2 == -(p * d.2),
    ;
    assert(q * hb == -(p * a)) by (nonlinear_arith)
        requires
            hb == oc.0 * d.0 + oc.1 * d.1 + oc.2 * d.2,
            a == d.0 * d.0 + d.1 * d.1 + d.2 * d.2,
            q * (oc.0 * d.0) == -(p * (d.0 * d.0)),
            q * (oc.1 * d.1) == -(p * (d.1 * d.1)),
            q * (oc.2 * d.2) == -(p * (d.2 * d.2)),
    ;

    // The squared center offset, cleared of the denominator q squared.
    assert((q * q) * (oc.0 * oc.0) == (p * p) * (d.0 * d.0)) by (nonlinear_arith)
        requires
            q * oc.0 == -(p * d.0),
    ;
    assert((q * q) * (oc.1 * oc.1) == (p * p) * (d.1 * d.1)) by (nonlinear_arith)
        requires
            q * oc.1 == -(p * d.1),
    ;
    assert((q * q) * (oc.2 * oc.2) == (p * p) * (d.2 * d.2)) by (nonlinear_arith)
        requires
            q * oc.2 == -(p * d.2),
    ;
    assert((q * q) * n2 == (p * p) * a) by (nonlinear_arith)
        requires
            n2 == oc.0 * oc.0 + oc.1 * oc.1 + oc.2 * oc.2,
            a == d.0 * d.0 + d.1 * d.1 + d.2 * d.2,
            (q * q) * (oc.0 * oc.0) == (p * p) * (d.0 * d.0),
            (q * q) * (oc.1 * oc.1) == (p * p) * (d.1 * d.1),
            (q * q) * (oc.2 * oc.2) == (p * p) * (d.2 * d.2),
    ;

    // The discriminant collapses to a * r * r.
    assert((q * hb) * (q * hb) == (p * a) * (p * a)) by (nonlinear_arith)
        requires
            q * hb == -(p * a),
    ;
    assert((q * q) * (hb * hb) == ((p * p) * a) * a) by (nonlinear_arith)
        requires
            (q * hb) * (q * hb) == (p * a) * (p * a),
    ;
    assert((q * q) * (a * n2) == ((p * p) * a) * a) by (nonlinear_arith)
        requires
            (q * q) * n2 == (p * p) * a,
    ;
    assert((q * q) * disc == (q * q) * (a * (r * r))) by (nonlinear_arith)
        requires
            disc == hb * hb - a * cq,
            cq == n2 - r * r,
            (q * q) * (hb * hb) == ((p * p) * a) * a,
            (q * q) * (a * n2) == ((p * p) * a) * a,
    ;
    assert(disc == a * (r * r)) by (nonlinear_arith)
        requires
            (q * q) * disc == (q * q) * (a * (r * r)),
            q >= 1,
    ;
    assert(disc >= 1) by (nonlinear_arith)
        requires
            disc == a * (r * r),
            a >= 1,
            r >= 1,
    ;

    let sq = sqrt_floor(disc as nat) as int;
    lemma_sqrt_floor_bounds(disc as nat);

    // The entry distance is positive: -hb exceeds the root of the
    // discriminant because the origin is strictly outside.
    assert(-hb >= 1) by (nonlinear_arith)
        requires
            q >= 1,
            p >= 1,
            a >= 1,
            q * hb == -(p * a),
    ;
    assert((p * p) * a > (q * q) * (r * r)) by (nonlinear_arith)
        requires
            (q * q) * n2 == (p * p) * a,
            n2 > r * r,
            q >= 1,
    ;
    assert((q * q) * (hb * hb) > (q * q) * (a * (r * r))) by (nonlinear_arith)
        requires
            (q * hb) * (q * hb) == (p * a) * (p * a),
            (p * p) * a > (q * q) * (r * r),
            a >= 1,
    ;
    assert(hb * hb > a * (r * r)) by (nonlinear_arith)
        requires
            (q * q) * (hb * hb) > (q * q) * (a * (r * r)),
            q >= 1,
    ;
    assert(-hb > sq) by (nonlinear_arith)
        requires
            hb * hb > disc,
            disc == a * (r * r),
            sq * sq <= disc,
            -hb >= 1,
            sq >= 0,
    ;

    let num1 = -hb - sq;
    let r1 = num1 * SCALE / a;
    assert(num1 >= 1);
    assert(num1 * SCALE > 0) by (nonlinear_arith)
        requires
            num1 >= 1,
            SCALE == 1000,
    ;
    lemma_div_pos_is_pos(num1 * SCALE, a);

    // The outside margin keeps the floored parameter strictly positive:
    // q * SCALE * sq stays below a * (p * SCALE - q), so the scaled entry
    // distance num1 * SCALE reaches a.
    let w = p * SCALE as int - q;
    assert((q * (SCALE as int) * sq) * (q * (SCALE as int) * sq) <= ((q * q) * ((SCALE as int) * (
    SCALE as int))) * (a * (r * r))) by (nonlinear_arith)
        requires
            sq * sq <= a * (r * r),
            q >= 1,
            SCALE == 1000,
    ;
    assert(((q * q) * ((SCALE as int) * (SCALE as int))) * (a * (r * r)) <= (a * w) * (a * w))
        by (nonlinear_arith)
        requires
            a * (w * w) >= ((q * q) * ((SCALE as int) * (SCALE as int))) * (r * r),
            a >= 1,
    ;
    assert(q * (SCALE as int) * sq >= 0 && a * w >= 0) by (nonlinear_arith)
        requires
            q >= 1,
            sq >= 0,
            a >= 1,
            w >= 0,
            SCALE == 1000,
    ;
    assert(q * (SCALE as int) * sq <= a * w) by (nonlinear_arith)
        requires
            (q * (SCALE as int) * sq) * (q * (SCALE as int) * sq) <= (a * w) * (a * w),
            q * (SCALE as int) * sq >= 0,
            a * w >= 0,
    ;
    assert(q * (num1 * SCALE) >= q * a) by (nonlinear_arith)
        requires
            q * hb == -(p * a),
            num1 == -hb - sq,
            q * (SCALE as int) * sq <= a * (p * SCALE - q),
            w == p * SCALE as int - q,
            SCALE == 1000,
    ;
    assert(num1 * SCALE >= a) by (nonlinear_arith)
        requires
            q * (num1 * SCALE) >= q * a,
            q >= 1,
    ;
    lemma_div_is_ordered(a, num1 * SCALE, a);
    lemma_div_by_self(a);
    assert(r1 >= 1);

    // And the near root does not overshoot the center, which the range holds.
    assert(q * ((-hb) * SCALE) == ((p * SCALE as int)) * a) by (nonlinear_arith)
        requires
            q * hb == -(p * a),
            SCALE == 1000,
    ;
    assert((p * SCALE as int) * a <= (q * tmax) * a) by (nonlinear_arith)
        requires
            q * tmax >= p * SCALE,
            a >= 1,
            SCALE == 1000,
    ;
    assert((-hb) * SCALE <= tmax * a) by (nonlinear_arith)
        requires
            q * ((-hb) * SCALE) == (p * SCALE as int) * a,
            (p * SCALE as int) * a <= (q * tmax) * a,
            q >= 1,
            SCALE == 1000,
    ;
    assert(num1 * SCALE <= (-hb) * SCALE) by (nonlinear_arith)
        requires
            num1 <= -hb,
            SCALE == 1000,
    ;
    lemma_div_is_ordered(num1 * SCALE, tmax * a, a);
    lemma_div_multiples_vanish(tmax, a);
    assert(tmax * a == a * tmax) by (nonlinear_arith);
    assert(r1 <= tmax);
}

} // verus!
