//! The scene: a hittable collection under its traditional name, plus the
//! proof that the collection's answer is the globally nearest hit.

use crate::hittable::{hit_model_of, spec_list_hit, Hit, Hittable, HittableList};
use crate::num::MAX_T;
use crate::ray::{ray_ok, Ray};
use crate::sphere::{spec_hit_t, sphere_ok, Sphere};
use crate::vector3::{norm_ok, v3, vdot};
use vstd::prelude::*;

verus! {

pub struct World {
    list: HittableList,
}

impl World {
    /// The members, in insertion order.
    pub closed spec fn spheres(self) -> Seq<Sphere> {
        self.list.spheres()
    }

    /// Every member is a well-formed sphere.
    pub open spec fn wf(self) -> bool {
        forall|i: int| 0 <= i < self.spheres().len() ==> #[trigger] sphere_ok(self.spheres()[i])
    }

    pub fn add(&mut self, object: Sphere)
        ensures
            final(self).spheres() == old(self).spheres().push(object),
    {
        self.list.add(object);
    }

    pub fn clear(&mut self)
        ensures
            final(self).spheres() == Seq::<Sphere>::empty(),
    {
        self.list.clear();
    }

    /// The nearest hit any member produces within `[t_min, t_max]`,
    /// insertion order breaking ties: exactly `spec_list_hit`'s choice.
    pub fn hit(&self, ray: &Ray, t_min: i64, t_max: i64) -> (r: Option<Hit>)
        requires
            self.wf(),
            ray_ok(*ray),
            -MAX_T <= t_min,
            t_max <= MAX_T,
        ensures
            match r {
                Some(h) => {
                    &&& spec_list_hit(self.spheres(), *ray, t_min as int, t_max as int) == Some(
                        (h.t as int, v3(h.position), v3(h.normal)),
                    )
                    &&& t_min <= h.t <= t_max
                    &&& norm_ok(h.normal)
                    &&& vdot(v3(ray.direction), v3(h.normal)) <= 0
                },
                None => spec_list_hit(self.spheres(), *ray, t_min as int, t_max as int) is None,
            },
    {
        self.list.hit(ray, t_min, t_max)
    }
}

impl Hittable for World {
    open spec fn spec_hit(&self, ray: Ray, tmin: int, tmax: int) -> Option<
        (int, (int, int, int), (int, int, int)),
    > {
        spec_list_hit(self.spheres(), ray, tmin, tmax)
    }

    open spec fn hittable_wf(&self) -> bool {
        self.wf()
    }

    fn hit(&self, ray: &Ray, t_min: i64, t_max: i64) -> (r: Option<Hit>) {
        World::hit(self, ray, t_min, t_max)
    }
}

impl Default for World {
    /// An empty scene.
    fn default() -> (r: Self)
        ensures
            r.spheres() == Seq::<Sphere>::empty(),
    {
        World { list: HittableList::default() }
    }
}

/// The collection's answer is the globally nearest member hit: a miss means
/// no member hits at all, and a reported hit is some member's hit whose raw
/// parameter no other member's hit undercuts.  With two overlapping spheres
/// on one ray, the one struck at the smaller parameter therefore wins.
pub proof fn lemma_list_hit_nearest(objs: Seq<Sphere>, ray: Ray, tmin: int, tmax: int)
    ensures
        match spec_list_hit(objs, ray, tmin, tmax) {
            None => forall|j: int|
                0 <= j < objs.len() ==> #[trigger] spec_hit_t(objs[j], ray, tmin, tmax) is None,
            Some(m) => {
                &&& exists|j: int|
                    0 <= j < objs.len() && #[trigger] spec_hit_t(objs[j], ray, tmin, tmax) == Some(
                        m.0,
                    ) && m == hit_model_of(objs[j], ray, m.0)
                &&& forall|j: int|
                    0 <= j < objs.len() ==> match #[trigger] spec_hit_t(objs[j], ray, tmin, tmax) {
                        Some(t) => t >= m.0,
                        None => true,
                    }
            },
        },
    decreases objs.len(),
{
    if objs.len() == 0 {
    } else {
        lemma_list_hit_nearest(objs.drop_last(), ray, tmin, tmax);
        let prefix = objs.drop_last();
        let s = objs.last();
        let here = spec_hit_t(s, ray, tmin, tmax);
        let prev = spec_list_hit(prefix, ray, tmin, tmax);
        assert(objs[objs.len() - 1] == s);
        assert(forall|j: int| 0 <= j < prefix.len() ==> objs[j] == prefix[j]);
        match spec_list_hit(objs, ray, tmin, tmax) {
            None => {
            },
            Some(m) => {
                if here is Some && (prev is None || here.unwrap() < prev.unwrap().0) {
                    assert(spec_hit_t(objs[objs.len() - 1], ray, tmin, tmax) == Some(m.0)
                        && m == hit_model_of(objs[objs.len() - 1], ray, m.0));
                } else {
                    let b = prev.unwrap();
                    let jw = choose|j: int|
                        0 <= j < prefix.len() && #[trigger] spec_hit_t(prefix[j], ray, tmin, tmax)
                            == Some(b.0) && b == hit_model_of(prefix[j], ray, b.0);
                    assert(spec_hit_t(objs[jw], ray, tmin, tmax) == Some(m.0) && m == hit_model_of(
                        objs[jw],
                        ray,
                        m.0,
                    ));
                }
            },
        }
    }
}

} // verus!
