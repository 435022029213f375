//! A pinhole camera: viewport extents, focal length, and the two viewport
//! basis vectors the per-pixel loop combines into ray directions.

use crate::vector3::Vector3;
use vstd::prelude::*;

verus! {

#[derive(Clone, Copy, PartialEq, Eq, Structural, Debug)]
pub struct Camera {
    pub viewport_height: i64,
    pub viewport_width: i64,
    pub focal_length: i64,
    pub position: Vector3,
    pub horizontal: Vector3,
    pub vertical: Vector3,
}

impl Camera {
    pub fn new(viewport_height: i64, viewport_width: i64, focal_length: i64, position: Vector3) -> (
        c: Self)
        ensures
            c.viewport_height == viewport_height,
            c.viewport_width == viewport_width,
            c.focal_length == focal_length,
            c.position == position,
            c.horizontal == (Vector3 { x: viewport_width, y: 0, z: 0 }),
            c.vertical == (Vector3 { x: 0, y: viewport_height, z: 0 }),
    {
        Self {
            viewport_height,
            viewport_width,
            focal_length,
            position,
            horizontal: Vector3::new(viewport_width, 0, 0),
            vertical: Vector3::new(0, viewport_height, 0),
        }
    }
}

} // verus!
