//! A Monte-Carlo ray tracer over fixed-point arithmetic.
//!
//! The crate renders scenes of spheres with diffuse, metallic and
//! dielectric materials. All geometry and color math is carried out in
//! signed 16.16 fixed-point integers, so every computation has an exact
//! mathematical specification.

pub mod fixed;
pub mod utils;
pub mod vec3;
pub mod ray;
pub mod material;
pub mod hittable;
pub mod sphere;
pub mod hittable_list;
pub mod camera;
pub mod render;
