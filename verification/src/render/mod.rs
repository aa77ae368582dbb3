//! Display-side state: background images, lane covers, fonts and window settings.

pub mod bga;
pub mod config;
pub mod font;
pub mod lane_cover;
pub mod text;
pub mod window;
