//! End-to-end shading: rays through a scene to pixel bytes.

use ray_tracing::camera::Camera;
use ray_tracing::ppm::{RGBTriplet, PPM};
use ray_tracing::ray::Ray;
use ray_tracing::shade::ray_color;
use ray_tracing::sphere::Sphere;
use ray_tracing::vector3::Vector3;
use ray_tracing::world::World;

#[test]
fn background_midpoint() {
    // A level ray has unit-direction y of zero, so the gradient parameter
    // is one half: the midpoint between white and sky blue.
    let world = World::default();
    let ray = Ray::new(Vector3::new(0, 0, 0), Vector3::new(0, 0, -1000));
    assert_eq!(ray_color(ray, &world), RGBTriplet::new(191, 217, 255));
}

#[test]
fn background_straight_up() {
    // Looking straight up gives the full sky blue: (0.5, 0.7, 1.0).
    let world = World::default();
    let ray = Ray::new(Vector3::new(0, 0, 0), Vector3::new(0, 1000, 0));
    assert_eq!(ray_color(ray, &world), RGBTriplet::new(127, 179, 255));
}

#[test]
fn shade_direct_hit() {
    // The direct-hit scenario: normal (0, 0, 1), shaded to
    // 0.5 * (normal + (1,1,1)) through the channel gain.
    let mut world = World::default();
    world.add(Sphere::new(Vector3::new(0, 0, -1000), 500));
    let ray = Ray::new(Vector3::new(0, 0, 0), Vector3::new(0, 0, -1000));
    assert_eq!(ray_color(ray, &world), RGBTriplet::new(127, 127, 255));
}

#[test]
fn shade_nearest_sphere_wins() {
    let mut world = World::default();
    world.add(Sphere::new(Vector3::new(0, 0, -2000), 500));
    world.add(Sphere::new(Vector3::new(0, 0, -1000), 500));
    let ray = Ray::new(Vector3::new(0, 0, 0), Vector3::new(0, 0, -1000));
    // The nearer sphere's front face is struck, as in the direct hit.
    assert_eq!(ray_color(ray, &world), RGBTriplet::new(127, 127, 255));
}

#[test]
fn camera_sky() {
    // Render the background through the camera over the whole grid: no
    // assertions, the run itself must stay within every contract's range.
    let image_width: u64 = 400;
    let image_height: u64 = 225;

    let origin = Vector3::new(0, 0, 0);
    let mut ppm = PPM::new(image_width, image_height);
    let camera = Camera::new(2000, 3556, 1000, origin);

    let lower_left_corner = camera
        .position
        .sub(camera.horizontal.div(2000))
        .sub(camera.vertical.div(2000))
        .sub(Vector3::new(0, 0, camera.focal_length));

    for j in (0..image_height).rev() {
        for i in 0..image_height {
            let u = (i as i64) * 1000 / (image_width as i64 - 1);
            let v = (j as i64) * 1000 / (image_height as i64 - 1);
            let r = Ray::new(
                camera.position,
                lower_left_corner
                    .add(camera.horizontal.mul(u))
                    .add(camera.vertical.mul(v))
                    .sub(camera.position),
            );

            let unit_direction = r.direction.unit();
            let t = (unit_direction.y + 1000) / 2;
            let v = Vector3::lerp(
                &Vector3::new(1000, 1000, 1000),
                &Vector3::new(500, 700, 1000),
                t,
            )
            .color();
            ppm.set(
                i,
                image_height - j - 1,
                RGBTriplet::new((v.x / 1000) as u8, (v.y / 1000) as u8, (v.z / 1000) as u8),
            );
        }
    }
}
