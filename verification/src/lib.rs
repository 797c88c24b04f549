//! A small ray tracer over fixed-point coordinates.
//!
//! Every scalar is an `i64` holding a multiple of `1 / SCALE` (see
//! [`utility::SCALE`]): contracts state results exactly, as integer
//! formulas over raw values, including the rounding of each division.

pub mod utility;
pub mod vec3;
pub mod ray;
pub mod hittable;
pub mod material;
pub mod sphere;
pub mod color;
