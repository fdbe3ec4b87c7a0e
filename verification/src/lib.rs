//! Decoding of PNG images into RGBA pixels, and rendering of pixels as
//! coloured terminal text.
#![allow(non_snake_case)]
#![allow(non_camel_case_types)]

pub mod image_decoding;
pub mod true_colour;
pub mod media_type;
