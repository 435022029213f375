//! A small ray tracer verified with Verus.
//!
//! Geometry is carried in fixed-point arithmetic: every coordinate, radius
//! and ray parameter is an `i64` holding thousandths of a world unit
//! (`num::SCALE` raw units per world unit).  Each operation's contract pins
//! down the exact integer it computes, floor rounding included, over an
//! `int`-tuple model of the vectors.

pub mod camera;
pub mod hittable;
pub mod num;
pub mod ppm;
pub mod ray;
pub mod shade;
pub mod sphere;
pub mod vector3;
pub mod world;
