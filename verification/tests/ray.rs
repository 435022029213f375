//! Ray evaluation in raw units.

use ray_tracing::ray::Ray;
use ray_tracing::vector3::Vector3;

#[test]
fn ray_at() {
    let r = Ray::new(Vector3::new(0, 0, 0), Vector3::new(1000, 1000, 1000));
    assert_eq!(r.at(500), Vector3::new(500, 500, 500));
}

#[test]
fn ray_at_negative_parameter() {
    let r = Ray::new(Vector3::new(1000, 0, 0), Vector3::new(1000, 0, 0));
    assert_eq!(r.at(-2000), Vector3::new(-1000, 0, 0));
}
