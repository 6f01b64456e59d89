pub mod axes;
pub mod aabb;
pub mod bvh;
pub mod render;
pub mod material;
pub mod ordkey;
pub mod ppm;
pub mod integrator;
