//! A recursive ray tracer over fixed-point numbers.

pub mod camera;
pub mod colour;
pub mod fixed;
pub mod material;
pub mod shading;
pub mod shape;
pub mod vector;
pub mod world;
