//! Vector algebra in raw fixed-point units: 1000 raw units per world unit.

use ray_tracing::vector3::Vector3;

#[test]
fn negate_vector() {
    let v = Vector3::new(1000, 2000, 3000);
    assert_eq!(v.neg(), Vector3::new(-1000, -2000, -3000));
}

#[test]
fn add_vector() {
    let v1 = Vector3::new(1000, 1000, 1000);
    let v2 = Vector3::new(2000, 2000, 2000);
    assert_eq!(v1.add(v2), Vector3::new(3000, 3000, 3000));
}

#[test]
fn scalar_mul_vector() {
    let v = Vector3::new(1000, 2000, 3000);
    let s = 2000;
    assert_eq!(v.mul(s), Vector3::new(2000, 4000, 6000));
}

#[test]
fn vector_mul_scalar() {
    // Scaling commutes: scalar-times-vector equals vector-times-scalar.
    let v = Vector3::new(1000, 2000, 3000);
    let s = 2000;
    assert_eq!(v.mul(s), Vector3::new(2000, 4000, 6000));
}

#[test]
fn sub_vector() {
    let v1 = Vector3::new(3000, 2000, 1000);
    let v2 = Vector3::new(1000, 1000, 1000);
    assert_eq!(v1.sub(v2), Vector3::new(2000, 1000, 0));
}

#[test]
fn div_vector() {
    let v = Vector3::new(1000, 2000, 3000);
    let s = 2000;
    assert_eq!(v.div(s), Vector3::new(500, 1000, 1500));
}

#[test]
fn magnitude_vector() {
    // |(1, 2, 3)| = sqrt(14) = 3.741657...; the raw magnitude is its floor
    // in thousandths.
    let v = Vector3::new(1000, 2000, 3000);
    assert_eq!(v.magnitude(), 3741);
}

#[test]
fn dot_vector() {
    // (1, 2, 3) . (1, 2, 3) = 14, in squared raw units.
    let v1 = Vector3::new(1000, 2000, 3000);
    let v2 = Vector3::new(1000, 2000, 3000);
    assert_eq!(v1.dot(v2), 14_000_000);
}

#[test]
fn cross_vector() {
    let v1 = Vector3::new(1000, 2000, 3000);
    let v2 = Vector3::new(1000, 4000, 1000);
    assert_eq!(v1.cross(v2), Vector3::new(-10000, 2000, 2000));
}

#[test]
fn cross_vector_with_itself() {
    let v1 = Vector3::new(1000, 2000, 3000);
    assert_eq!(v1.cross(v1), Vector3::new(0, 0, 0));
}

#[test]
fn unit_vector() {
    // Each component is floor(c * 1000 / 3741).
    let v = Vector3::new(1000, 2000, 3000);
    assert_eq!(v.unit(), Vector3::new(267, 534, 801));
}

#[test]
fn unit_vector_length_is_one() {
    // One world unit is 1000 raw units; floor rounding may lose a
    // thousandth, and does here.
    let v = Vector3::new(1000, 2000, 3000);
    assert_eq!(v.unit().magnitude(), 999);
}

#[test]
fn unit_magnitude_within_tolerance() {
    // Normalizing a vector of a raw unit's length or more lands within a
    // thousandth of unit length.  (Far shorter vectors lose this: their
    // raw magnitude itself carries less than three digits.)
    let samples = [
        Vector3::new(1000, 2000, 3000),
        Vector3::new(5000, 0, 0),
        Vector3::new(123, 4567, 891),
        Vector3::new(-250, 333, -777),
        Vector3::new(100_000, -2000, 3),
    ];
    for v in samples {
        let m = v.unit().magnitude();
        assert!(999 <= m && m <= 1000, "magnitude {} out of tolerance", m);
    }
}

#[test]
fn unit_of_unit_vector_is_itself() {
    // (0.6, 0.8, 0) already has magnitude exactly one.
    let d = Vector3::new(600, 800, 0);
    assert_eq!(d.magnitude(), 1000);
    assert_eq!(d.unit(), d);
}

#[test]
fn vector_lerp_half() {
    let v1 = Vector3::new(0, 0, 0);
    let v2 = Vector3::new(1000, 1000, 1000);
    assert_eq!(Vector3::lerp(&v1, &v2, 500), Vector3::new(500, 500, 500));
}

#[test]
fn vector_lerp_three_quarters() {
    let v1 = Vector3::new(0, 0, 0);
    let v2 = Vector3::new(1000, 1000, 1000);
    assert_eq!(Vector3::lerp(&v1, &v2, 750), Vector3::new(750, 750, 750));
}

#[test]
fn lerp_endpoints() {
    let a = Vector3::new(17, -400, 9000);
    let b = Vector3::new(-3, 2500, 1);
    assert_eq!(Vector3::lerp(&a, &b, 0), a);
    assert_eq!(Vector3::lerp(&a, &b, 1000), b);
}

#[test]
fn lerp_midpoint_is_average() {
    // Odd sums exercise the shared floor rounding of both sides.
    let a = Vector3::new(1, 1, 3);
    let b = Vector3::new(2, 2, 2);
    assert_eq!(Vector3::lerp(&a, &b, 500), a.add(b).div(2000));
}

#[test]
fn color_gain() {
    let v = Vector3::new(1000, 750, 0);
    assert_eq!(v.color(), Vector3::new(255999, 191999, 0));
}
