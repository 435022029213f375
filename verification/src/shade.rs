//! The shader: from a ray and a scene to a pixel color.
//!
//! A hit is shaded from its normal, `0.5 * (normal + (1,1,1))` pushed
//! through the channel gain; a miss gets the vertical white-to-sky-blue
//! gradient.  `spec_ray_color` fixes the exact bytes for either case.

use crate::hittable::spec_list_hit;
use crate::num::{
    div_floor_i128, div_floor_i64, lemma_div_bound_by_multiple, lemma_div_floor_bounded,
    lemma_div_floor_small, COLOR_MAX, MAX_T, SCALE,
};
use crate::ppm::{spec_channel_byte, spec_from_channel, RGBTriplet};
use crate::ray::{ray_ok, Ray};
use crate::sphere::Sphere;
use crate::vector3::{
    lemma_nonzero_vector_mag_pos, lemma_prod_bound, v3, vcolor, vlerp, vmag, vunit, Vector3,
    COLOR_GAIN,
};
use crate::world::World;
use vstd::prelude::*;

verus! {

/// The byte one normal component shades to: `0.5 * (n + 1)` through the
/// channel gain, each step floor-rounded as the vector operations round.
pub open spec fn spec_hit_channel(n: int) -> int {
    spec_channel_byte((((n + SCALE) * COLOR_GAIN / SCALE as int) * 500 / SCALE as int)
        / SCALE as int)
}

/// The background color vector for a direction: the gradient from white at
/// the horizon down to sky blue straight up.
pub open spec fn spec_background(d: (int, int, int)) -> (int, int, int) {
    let u = vunit(d);
    let t = (u.1 + SCALE) / 2;
    vcolor(vlerp((SCALE as int, SCALE as int, SCALE as int), (500, 700, SCALE as int), t))
}

/// The pixel a ray produces against a scene: its nearest hit shaded by its
/// normal, or the background gradient.
pub open spec fn spec_ray_color(ray: Ray, objs: Seq<Sphere>) -> RGBTriplet {
    match spec_list_hit(objs, ray, 0, MAX_T as int) {
        Some(m) => RGBTriplet {
            r: spec_hit_channel(m.2.0) as u8,
            g: spec_hit_channel(m.2.1) as u8,
            b: spec_hit_channel(m.2.2) as u8,
        },
        None => {
            let c = spec_background(v3(ray.direction));
            RGBTriplet {
                r: spec_from_channel(c.0) as u8,
                g: spec_from_channel(c.1) as u8,
                b: spec_from_channel(c.2) as u8,
            }
        },
    }
}

/// Shade one ray against the scene, searching the full forward range
/// `[0, MAX_T]`.
pub fn ray_color(ray: Ray, world: &World) -> (c: RGBTriplet)
    requires
        world.wf(),
        ray_ok(ray),
    ensures
        c == spec_ray_color(ray, world.spheres()),
{
    match world.hit(&ray, 0, MAX_T) {
        Some(hit) => {
            let r = hit_channel(hit.normal.x);
            let g = hit_channel(hit.normal.y);
            let b = hit_channel(hit.normal.z);
            RGBTriplet::new(r, g, b)
        },
        None => {
            let unit_direction = ray.direction.unit();
            proof {
                lemma_nonzero_vector_mag_pos(v3(ray.direction));
                lemma_unit_component_bound(ray.direction.x as int, vmag(v3(ray.direction)));
                lemma_unit_component_bound(ray.direction.y as int, vmag(v3(ray.direction)));
                lemma_unit_component_bound(ray.direction.z as int, vmag(v3(ray.direction)));
            }
            let t = div_floor_i64(unit_direction.y + SCALE, 2);
            proof {
                lemma_div_floor_small(unit_direction.y as int + SCALE, 2);
                lemma_background_component_bound(SCALE as int, 500, t as int);
                lemma_background_component_bound(SCALE as int, 700, t as int);
                lemma_background_component_bound(SCALE as int, SCALE as int, t as int);
            }
            let white = Vector3::new(SCALE, SCALE, SCALE);
            let sky = Vector3::new(500, 700, SCALE);
            let v = Vector3::lerp(&white, &sky, t).color();
            RGBTriplet::from_vector3(v)
        },
    }
}

/// Shade one normal component to its channel byte.
fn hit_channel(n: i64) -> (c: u8)
    ensures
        c == spec_hit_channel(n as int),
{
    proof {
        lemma_prod_bound(
            n as int + SCALE,
            COLOR_GAIN as int,
            9_300_000_000_000_000_000,
            255_999,
        );
    }
    let gained = div_floor_i128(((n as i128) + (SCALE as i128)) * (COLOR_GAIN as i128), SCALE as i128);
    proof {
        lemma_div_floor_small((n as int + SCALE) * COLOR_GAIN, SCALE as int);
    }
    let halved = div_floor_i128(gained * 500, SCALE as i128);
    let whole = div_floor_i128(halved, SCALE as i128);
    if whole < 0 {
        0
    } else if whole > 255 {
        255
    } else {
        whole as u8
    }
}

/// A normalized component stays within `SCALE * MAX_COORD`.
proof fn lemma_unit_component_bound(x: int, mag: int)
    requires
        -(crate::num::MAX_COORD as int) <= x <= crate::num::MAX_COORD as int,
        1 <= mag,
    ensures
        -1_000_000_000_000 <= x * SCALE as int / mag <= 1_000_000_000_000,
{
    lemma_div_floor_bounded(x * SCALE as int, mag, 1_000_000_000_000);
}

/// A gradient blend of channel-sized endpoints stays within `color`'s
/// working range.
proof fn lemma_background_component_bound(a: int, b: int, t: int)
    requires
        0 <= a <= SCALE,
        0 <= b <= SCALE,
        -600_000_000_000 <= t <= 600_000_000_000,
    ensures
        -COLOR_MAX <= ((SCALE - t) * a + t * b) / SCALE as int <= COLOR_MAX,
{
    lemma_prod_bound(SCALE - t, a, 600_001_000_000, 1000);
    lemma_prod_bound(t, b, 600_000_000_000, 1000);
    lemma_div_bound_by_multiple(
        (SCALE - t) * a + t * b,
        SCALE as int,
        1_200_001_000_000,
    );
}

} // verus!
