//! Judging, gauges and scoring during play.

pub mod clear_type;
pub mod gauge;
pub mod judge;
pub mod play_result;
pub mod score;
