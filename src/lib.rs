//! Turns a grayscale raster into a closed triangle mesh shaped like a stamp:
//! a flat base with a relief that follows the image's intensity.
//!
//! All lengths are integers in micrometres, so every step of the pipeline is
//! exact integer arithmetic.

pub mod mesh;
pub mod obj;
pub mod raster;
pub mod smooth;
pub mod grid;
pub mod decode;
pub mod stamp;

pub use decode::generate_from_bytes;
pub use raster::GrayBuffer;
pub use stamp::{Options, StampError, generate_raw};
