//! The intersection record and the shared hit-test protocol.
//!
//! A `Hit` carries the point struck, a front-facing surface normal, and the
//! raw ray parameter of the strike.  `set_face_normal` enforces the
//! convention that the stored normal opposes the incoming ray.

use crate::num::{MAX_COORD, MAX_T, NORM_MAX};
use crate::ray::{ray_ok, Ray};
use crate::sphere::{
    lemma_hit_t_narrow, spec_hit_normal, spec_hit_position, spec_hit_t, sphere_ok, Sphere,
};
use crate::vector3::{
    lemma_nonzero_vector_mag_pos, lemma_prod_bound, norm_ok, v3, vdot, vec_ok, vneg, Vector3,
};
use vstd::prelude::*;

verus! {

#[derive(Clone, Copy, PartialEq, Eq, Structural, Debug)]
pub struct Hit {
    pub position: Vector3,
    pub normal: Vector3,
    pub t: i64,
}

/// The orientation `set_face_normal` gives the stored normal: the raw
/// outward normal itself when it already opposes the ray, else its negation.
pub open spec fn facing(direction: (int, int, int), outward: (int, int, int)) -> (int, int, int) {
    if vdot(direction, outward) < 0 {
        outward
    } else {
        vneg(outward)
    }
}

/// `facing`, applied to the models of two vectors.
pub open spec fn facing_normal(direction: Vector3, outward: Vector3) -> (int, int, int) {
    facing(v3(direction), v3(outward))
}

/// The faced normal never points along the direction it was faced against.
pub proof fn lemma_facing_opposes(d: (int, int, int), outward: (int, int, int))
    ensures
        vdot(d, facing(d, outward)) <= 0,
{
    if vdot(d, outward) < 0 {
    } else {
        assert(d.0 * (-outward.0) + d.1 * (-outward.1) + d.2 * (-outward.2) == -(d.0 * outward.0
            + d.1 * outward.1 + d.2 * outward.2)) by (nonlinear_arith);
    }
}

impl Hit {
    /// Orient the stored normal against the incoming ray: keep the outward
    /// normal when the ray meets the surface from outside, flip it when the
    /// ray comes from inside.
    pub fn set_face_normal(&mut self, ray: &Ray, outward_normal: Vector3)
        requires
            vec_ok(ray.direction),
            norm_ok(outward_normal),
        ensures
            final(self).position == old(self).position,
            final(self).t == old(self).t,
            v3(final(self).normal) == facing_normal(ray.direction, outward_normal),
            vdot(v3(ray.direction), v3(final(self).normal)) <= 0,
    {
        proof {
            lemma_facing_opposes(v3(ray.direction), v3(outward_normal));
            lemma_prod_bound(
                ray.direction.x as int,
                outward_normal.x as int,
                MAX_COORD as int,
                NORM_MAX as int,
            );
            lemma_prod_bound(
                ray.direction.y as int,
                outward_normal.y as int,
                MAX_COORD as int,
                NORM_MAX as int,
            );
            lemma_prod_bound(
                ray.direction.z as int,
                outward_normal.z as int,
                MAX_COORD as int,
                NORM_MAX as int,
            );
        }
        let d = (ray.direction.x as i128) * (outward_normal.x as i128) + (ray.direction.y as i128)
            * (outward_normal.y as i128) + (ray.direction.z as i128) * (outward_normal.z as i128);
        let front_face = d < 0;
        self.normal = if front_face {
            outward_normal
        } else {
            Vector3 {
                x: -outward_normal.x,
                y: -outward_normal.y,
                z: -outward_normal.z,
            }
        };
    }
}

/// The record a hit reduces to in specifications: raw parameter, strike
/// point, stored normal.
pub open spec fn hit_model_of(s: Sphere, ray: Ray, t: int) -> (int, (int, int, int), (
    int,
    int,
    int,
)) {
    (t, spec_hit_position(s, ray, t), spec_hit_normal(s, ray, t))
}

/// The hit a left-to-right sweep of `objs` reports: each member's hit
/// replaces the provisional answer only when strictly nearer, so among
/// equal parameters the earliest member wins.
pub open spec fn spec_list_hit(objs: Seq<Sphere>, ray: Ray, tmin: int, tmax: int) -> Option<
    (int, (int, int, int), (int, int, int)),
>
    decreases objs.len(),
{
    if objs.len() == 0 {
        None
    } else {
        let prev = spec_list_hit(objs.drop_last(), ray, tmin, tmax);
        let s = objs.last();
        match spec_hit_t(s, ray, tmin, tmax) {
            Some(t) => match prev {
                None => Some(hit_model_of(s, ray, t)),
                Some(b) => if t < b.0 {
                    Some(hit_model_of(s, ray, t))
                } else {
                    Some(b)
                },
            },
            None => prev,
        }
    }
}

/// The shared intersection protocol: scene geometry answers a hit test
/// over a raw parameter range with exactly its specification's choice, and
/// any hit's stored normal opposes the incoming ray.
pub trait Hittable {
    /// The model of this object's answer for the given ray and range.
    spec fn spec_hit(&self, ray: Ray, tmin: int, tmax: int) -> Option<
        (int, (int, int, int), (int, int, int)),
    >;

    /// What the object asks of itself before answering.
    spec fn hittable_wf(&self) -> bool;

    fn hit(&self, ray: &Ray, t_min: i64, t_max: i64) -> (r: Option<Hit>)
        requires
            self.hittable_wf(),
            ray_ok(*ray),
            -MAX_T <= t_min,
            t_max <= MAX_T,
        ensures
            match r {
                Some(h) => {
                    &&& self.spec_hit(*ray, t_min as int, t_max as int) == Some(
                        (h.t as int, v3(h.position), v3(h.normal)),
                    )
                    &&& t_min <= h.t <= t_max
                    &&& norm_ok(h.normal)
                    &&& vdot(v3(ray.direction), v3(h.normal)) <= 0
                },
                None => self.spec_hit(*ray, t_min as int, t_max as int) is None,
            },
    ;
}

/// An ordered collection of spheres answering hit tests as one object.
pub struct HittableList {
    objects: Vec<Sphere>,
}

impl Hittable for HittableList {
    open spec fn spec_hit(&self, ray: Ray, tmin: int, tmax: int) -> Option<
        (int, (int, int, int), (int, int, int)),
    > {
        spec_list_hit(self.spheres(), ray, tmin, tmax)
    }

    open spec fn hittable_wf(&self) -> bool {
        self.wf()
    }

    fn hit(&self, ray: &Ray, t_min: i64, t_max: i64) -> (r: Option<Hit>) {
        HittableList::hit(self, ray, t_min, t_max)
    }
}

impl HittableList {
    /// The members, in insertion order.
    pub closed spec fn spheres(self) -> Seq<Sphere> {
        self.objects@
    }

    /// Every member is a well-formed sphere.
    pub open spec fn wf(self) -> bool {
        forall|i: int|
            0 <= i < self.spheres().len() ==> #[trigger] sphere_ok(self.spheres()[i])
    }

    pub fn add(&mut self, object: Sphere)
        ensures
            final(self).spheres() == old(self).spheres().push(object),
    {
        self.objects.push(object);
    }

    pub fn clear(&mut self)
        ensures
            final(self).spheres() == Seq::<Sphere>::empty(),
    {
        self.objects.clear();
    }

    /// The nearest hit any member produces within `[t_min, t_max]`,
    /// insertion order breaking ties: exactly `spec_list_hit`'s choice.
    pub fn hit(&self, ray: &Ray, t_min: i64, t_max: i64) -> (r: Option<Hit>)
        requires
            self.wf(),
            ray_ok(*ray),
            -MAX_T <= t_min,
            t_max <= MAX_T,
        ensures
            match r {
                Some(h) => {
                    &&& spec_list_hit(self.spheres(), *ray, t_min as int, t_max as int) == Some(
                        (h.t as int, v3(h.position), v3(h.normal)),
                    )
                    &&& t_min <= h.t <= t_max
                    &&& norm_ok(h.normal)
                    &&& vdot(v3(ray.direction), v3(h.normal)) <= 0
                },
                None => spec_list_hit(self.spheres(), *ray, t_min as int, t_max as int) is None,
            },
    {
        let ghost objs = self.spheres();
        let mut closest = t_max;
        let mut best: Option<Hit> = None;
        let n = self.objects.len();
        let mut i: usize = 0;
        while i < n
            invariant
                n == objs.len(),
                objs == self.spheres(),
                i <= n,
                self.wf(),
                ray_ok(*ray),
                -MAX_T <= t_min,
                t_max <= MAX_T,
                closest <= t_max,
                match best {
                    None => closest == t_max && spec_list_hit(
                        objs.take(i as int),
                        *ray,
                        t_min as int,
                        t_max as int,
                    ) is None,
                    Some(h) => {
                        &&& closest == h.t
                        &&& spec_list_hit(objs.take(i as int), *ray, t_min as int, t_max as int)
                            == Some((h.t as int, v3(h.position), v3(h.normal)))
                        &&& t_min <= h.t <= t_max
                        &&& norm_ok(h.normal)
                        &&& vdot(v3(ray.direction), v3(h.normal)) <= 0
                    },
                },
            decreases n - i,
        {
            let ob = &self.objects[i];
            let res = ob.hit(ray, t_min, closest);
            proof {
                lemma_nonzero_vector_mag_pos(v3(ray.direction));
                lemma_hit_t_narrow(
                    objs[i as int],
                    *ray,
                    t_min as int,
                    closest as int,
                    t_max as int,
                );
                assert(objs.take(i + 1 as int).drop_last() =~= objs.take(i as int));
                assert(objs.take(i + 1 as int).last() == objs[i as int]);
            }
            match res {
                Some(h) => {
                    let take_it = match &best {
                        None => true,
                        Some(b) => h.t < b.t,
                    };
                    if take_it {
                        closest = h.t;
                        best = Some(h);
                    }
                },
                None => {},
            }
            i += 1;
        }
        proof {
            assert(objs.take(n as int) =~= objs);
        }
        best
    }
}

impl Default for HittableList {
    /// An empty collection.
    fn default() -> (r: Self)
        ensures
            r.spheres() == Seq::<Sphere>::empty(),
    {
        HittableList { objects: Vec::new() }
    }
}

} // verus!
