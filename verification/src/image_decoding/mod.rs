//! The image model and the PNG decoder.

pub mod chunks;
pub mod decode;
pub mod image;
pub mod interlace;
pub mod laws;
pub mod packing;
pub mod png;
pub mod scanlines;
