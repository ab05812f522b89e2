//! Three-component vectors over a verified scalar capability, rays, and a
//! plain-text PPM raster encoder and reader for gradient images.

pub mod numeric;
pub mod vec3;
pub mod ray;
pub mod image;
