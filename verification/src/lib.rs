//! Verified core of a BMS rhythm-game engine: chart model, judging, scoring,
//! pattern modifiers and replays.

pub mod model;
pub mod num;
pub mod pattern;
pub mod play;
pub mod render;
pub mod replay;
