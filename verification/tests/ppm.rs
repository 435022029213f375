//! The image buffer and its textual rendering.

use ray_tracing::ppm::{RGBTriplet, PPM};
use ray_tracing::vector3::Vector3;

#[test]
fn three_by_two() {
    let mut ppm = PPM::new(3, 2);
    let cmp = "P3\n3 2\n255\n255 0 0\n0 255 0\n0 0 255\n255 255 0\n255 255 255\n0 0 0\n";

    ppm.set(0, 0, RGBTriplet::new(255, 0, 0));
    ppm.set(1, 0, RGBTriplet::new(0, 255, 0));
    ppm.set(2, 0, RGBTriplet::new(0, 0, 255));
    ppm.set(0, 1, RGBTriplet::new(255, 255, 0));
    ppm.set(1, 1, RGBTriplet::new(255, 255, 255));
    ppm.set(2, 1, RGBTriplet::new(0, 0, 0));

    assert_eq!(ppm.to_string(), cmp);
}

#[test]
fn new_image_is_white() {
    let ppm = PPM::new(4, 3);
    for row in 0..3 {
        for column in 0..4 {
            let p = ppm.get(column, row).expect("pixel on the grid");
            assert_eq!(*p, RGBTriplet::new(255, 255, 255));
        }
    }
}

#[test]
fn set_returns_the_new_pixel() {
    let mut ppm = PPM::new(2, 2);
    let p = ppm.set(1, 1, RGBTriplet::new(7, 8, 9));
    assert_eq!(p, RGBTriplet::new(7, 8, 9));
    assert_eq!(*ppm.get(1, 1).expect("pixel on the grid"), RGBTriplet::new(7, 8, 9));
}

#[test]
fn get_past_the_store_is_none() {
    let ppm = PPM::new(2, 2);
    assert!(ppm.get(0, 2).is_none());
    assert!(ppm.get(3, 1).is_none());
}

#[test]
fn triplet_to_string() {
    assert_eq!(RGBTriplet::new(12, 0, 255).to_string(), "12 0 255");
    assert_eq!(RGBTriplet::new(0, 0, 0).to_string(), "0 0 0");
}

#[test]
fn triplet_default_is_white() {
    assert_eq!(RGBTriplet::default(), RGBTriplet::new(255, 255, 255));
}

#[test]
fn from_vector3_truncates_to_whole_units() {
    let c = RGBTriplet::from_vector3(Vector3::new(500, 1999, 2000));
    assert_eq!(c, RGBTriplet::new(0, 1, 2));
}

#[test]
fn from_vector3_clamps() {
    let c = RGBTriplet::from_vector3(Vector3::new(-500, 255999, 1_234_567));
    assert_eq!(c, RGBTriplet::new(0, 255, 255));
}

#[test]
fn single_pixel_render() {
    let mut ppm = PPM::new(1, 1);
    ppm.set(0, 0, RGBTriplet::new(10, 200, 30));
    assert_eq!(ppm.to_string(), "P3\n1 1\n255\n10 200 30\n");
}
