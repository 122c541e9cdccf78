//! Verified core of a small raster renderer: scalars held as binary64 bit
//! patterns, with their arithmetic; homogeneous tuples; colors; a pixel
//! canvas and its plain-text image encoding.

pub mod scalar;
pub mod arith;
pub mod tuple;
pub mod color;
pub mod level;
pub mod canvas;
pub mod ppm;
pub mod projectile;

pub use tuple::Tuple;
