//! Bitmap fonts.

pub mod fnt_parser;
pub mod ttf_renderer;
