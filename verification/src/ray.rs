//! Rays: an origin and a direction, with parametrized point evaluation.

use crate::num::{lemma_div_bound_by_multiple, MAX_COORD, SCALAR_MAX, SCALE};
use crate::vector3::{lemma_prod_bound, v3, vadd, vec_ok, vscale, Vector3};
use vstd::prelude::*;

verus! {

#[derive(Clone, Copy, PartialEq, Eq, Structural, Debug)]
pub struct Ray {
    pub origin: Vector3,
    pub direction: Vector3,
}

/// A ray whose vectors are scene coordinates; its direction need not be a
/// unit vector, but a zero direction is degenerate and kept out by callers.
pub open spec fn ray_ok(r: Ray) -> bool {
    &&& vec_ok(r.origin)
    &&& vec_ok(r.direction)
    &&& !(r.direction.x == 0 && r.direction.y == 0 && r.direction.z == 0)
}

impl Ray {
    pub fn new(origin: Vector3, direction: Vector3) -> (r: Self)
        ensures
            r == (Ray { origin, direction }),
    {
        Self { origin, direction }
    }

    /// The point `origin + (t / SCALE) * direction`, for the raw parameter
    /// `t`; `t` may be negative (a point behind the origin).
    pub fn at(&self, t: i64) -> (p: Vector3)
        requires
            vec_ok(self.origin),
            vec_ok(self.direction),
            -SCALAR_MAX <= t <= SCALAR_MAX,
        ensures
            v3(p) == vadd(v3(self.origin), vscale(v3(self.direction), t as int)),
    {
        let scaled = self.direction.mul(t);
        proof {
            lemma_at_offset_bound(self.direction.x as int, t as int);
            lemma_at_offset_bound(self.direction.y as int, t as int);
            lemma_at_offset_bound(self.direction.z as int, t as int);
        }
        self.origin.add(scaled)
    }
}

/// A scaled direction component stays well inside the coordinate type.
pub proof fn lemma_at_offset_bound(x: int, t: int)
    requires
        -MAX_COORD <= x <= MAX_COORD,
        -SCALAR_MAX <= t <= SCALAR_MAX,
    ensures
        -4_000_000_000_000_000_000 <= x * t / SCALE as int <= 4_000_000_000_000_000_000,
{
    lemma_prod_bound(x, t, MAX_COORD as int, SCALAR_MAX as int);
    assert((MAX_COORD as int) * SCALAR_MAX == 4_000_000_000_000_000_000 * SCALE)
        by (nonlinear_arith);
    lemma_div_bound_by_multiple(x * t, SCALE as int, 4_000_000_000_000_000_000);
}

} // verus!
