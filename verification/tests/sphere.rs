//! The quadratic hit test on single spheres.

use ray_tracing::ray::Ray;
use ray_tracing::sphere::Sphere;
use ray_tracing::vector3::Vector3;

const FAR: i64 = 4_000_000_000;

#[test]
fn direct_hit_scenario() {
    // Origin at zero, looking down -z at a half-unit sphere centered one
    // unit away: struck at t = 0.5 on the near surface, normal facing back.
    let ray = Ray::new(Vector3::new(0, 0, 0), Vector3::new(0, 0, -1000));
    let sphere = Sphere::new(Vector3::new(0, 0, -1000), 500);
    let hit = sphere.hit(&ray, 0, FAR).expect("ray aimed at the sphere must hit");
    assert_eq!(hit.t, 500);
    assert_eq!(hit.position, Vector3::new(0, 0, -500));
    assert_eq!(hit.normal, Vector3::new(0, 0, 1000));
}

#[test]
fn aimed_at_center_hits_from_outside() {
    // Direction equal to center - origin, origin outside: a hit with a
    // positive parameter and a normal opposing the ray.
    let ray = Ray::new(Vector3::new(0, 0, 0), Vector3::new(3000, 4000, 0));
    let sphere = Sphere::new(Vector3::new(3000, 4000, 0), 1000);
    let hit = sphere.hit(&ray, 0, FAR).expect("ray aimed at the center must hit");
    assert_eq!(hit.t, 800);
    assert!(hit.t > 0);
    assert!(ray.direction.dot(hit.normal) <= 0);
}

#[test]
fn offset_ray_misses() {
    // Perpendicular offset of two units against a half-unit radius.
    let ray = Ray::new(Vector3::new(0, 0, 0), Vector3::new(0, 0, -1000));
    let sphere = Sphere::new(Vector3::new(0, 2000, -3000), 500);
    assert!(sphere.hit(&ray, 0, FAR).is_none());
}

#[test]
fn hit_from_inside_flips_normal() {
    // From the center of a unit sphere the near root is behind the origin;
    // the far root is taken and the normal flipped inward.
    let ray = Ray::new(Vector3::new(0, 0, 0), Vector3::new(0, 0, -1000));
    let sphere = Sphere::new(Vector3::new(0, 0, 0), 1000);
    let hit = sphere.hit(&ray, 0, FAR).expect("a ray from inside must strike the shell");
    assert_eq!(hit.t, 1000);
    assert_eq!(hit.position, Vector3::new(0, 0, -1000));
    assert_eq!(hit.normal, Vector3::new(0, 0, 1000));
    assert!(ray.direction.dot(hit.normal) <= 0);
}

#[test]
fn hit_outside_range_is_dropped() {
    let ray = Ray::new(Vector3::new(0, 0, 0), Vector3::new(0, 0, -1000));
    let sphere = Sphere::new(Vector3::new(0, 0, -1000), 500);
    // Both roots (500 and 1500) lie past the cutoff.
    assert!(sphere.hit(&ray, 0, 400).is_none());
    // A window between the roots catches only the far one.
    let hit = sphere.hit(&ray, 600, FAR).expect("the far root lies in range");
    assert_eq!(hit.t, 1500);
}
