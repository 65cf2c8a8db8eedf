//! A small path tracer: spheres, two scattering materials, a scene that
//! reduces per-sphere hits to the nearest one, and a depth-bounded radiance
//! estimator.
//!
//! All geometry and color is fixed-point: an integer `s` stands for the real
//! number `s / SCALE` (see `fixed`). Rays and spheres live in a bounded
//! volume (`LIMIT`) in which every intermediate product fits in `i128`.

pub mod fixed;
pub mod math;
pub mod vec3;
pub mod ray;
pub mod material;
pub mod hit_record;
pub mod sphere;
pub mod world;
pub mod error;
pub mod random;
pub mod tracer;
pub mod camera;
pub mod render;
