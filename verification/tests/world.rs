//! Nearest-hit selection over the scene collection.

use ray_tracing::hittable::HittableList;
use ray_tracing::ray::Ray;
use ray_tracing::sphere::Sphere;
use ray_tracing::vector3::Vector3;
use ray_tracing::world::World;

const FAR: i64 = 4_000_000_000;

#[test]
fn nearest_of_two_overlapping_spheres() {
    // Two spheres overlap along the ray; the one struck at the smaller
    // parameter wins, in either insertion order.
    let ray = Ray::new(Vector3::new(0, 0, 0), Vector3::new(0, 0, -1000));
    let near = Sphere::new(Vector3::new(0, 0, -1500), 500);
    let far = Sphere::new(Vector3::new(0, 0, -2000), 500);

    let mut world = World::default();
    world.add(far);
    world.add(near);
    let hit = world.hit(&ray, 0, FAR).expect("both spheres lie on the ray");
    assert_eq!(hit.t, 1000);

    let mut reversed = World::default();
    reversed.add(near);
    reversed.add(far);
    let hit = reversed.hit(&ray, 0, FAR).expect("both spheres lie on the ray");
    assert_eq!(hit.t, 1000);
}

#[test]
fn empty_world_misses() {
    let ray = Ray::new(Vector3::new(0, 0, 0), Vector3::new(0, 0, -1000));
    let world = World::default();
    assert!(world.hit(&ray, 0, FAR).is_none());
}

#[test]
fn clear_empties_the_world() {
    let ray = Ray::new(Vector3::new(0, 0, 0), Vector3::new(0, 0, -1000));
    let mut world = World::default();
    world.add(Sphere::new(Vector3::new(0, 0, -1000), 500));
    assert!(world.hit(&ray, 0, FAR).is_some());
    world.clear();
    assert!(world.hit(&ray, 0, FAR).is_none());
}

#[test]
fn hittable_list_matches_world() {
    let ray = Ray::new(Vector3::new(0, 0, 0), Vector3::new(0, 0, -1000));
    let mut list = HittableList::default();
    list.add(Sphere::new(Vector3::new(0, 0, -1500), 500));
    list.add(Sphere::new(Vector3::new(0, 0, -2000), 500));
    let hit = list.hit(&ray, 0, FAR).expect("both spheres lie on the ray");
    assert_eq!(hit.t, 1000);
    list.clear();
    assert!(list.hit(&ray, 0, FAR).is_none());
}

#[test]
fn blocked_far_sphere_still_reports_nearest() {
    // The shrinking search window must not hide a nearer hit found later.
    let ray = Ray::new(Vector3::new(0, 0, 0), Vector3::new(0, 0, -1000));
    let mut world = World::default();
    world.add(Sphere::new(Vector3::new(0, 0, -3000), 500));
    world.add(Sphere::new(Vector3::new(0, 0, -1500), 400));
    let hit = world.hit(&ray, 0, FAR).expect("spheres lie on the ray");
    assert_eq!(hit.t, 1100);
}
