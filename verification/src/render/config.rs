use vstd::prelude::*;

verus! {

/// Highway layout mode.
#[derive(Debug, Clone, Copy, PartialEq, Eq, Hash, Structural)]
pub enum PlayMode {
    /// Seven keys and a scratch.
    Bms7Key,
    /// Nine buttons.
    Pms9Key,
    /// Two sides of seven keys and a scratch.
    Dp14Key,
}

/// Lane count for the seven-key mode (scratch + 7 keys).
pub const LANE_COUNT_BMS: usize = 8;

/// Lane count for the nine-button mode.
pub const LANE_COUNT_PMS: usize = 9;

/// Lane count for the double-play mode (two sides of scratch + 7 keys).
pub const LANE_COUNT_DP: usize = 16;

/// Lane count of the single-side seven-key layout.
pub const LANE_COUNT: usize = 8;

/// Lane count of a highway mode.
pub fn lane_count(mode: PlayMode) -> (r: usize)
    ensures
        r == match mode {
            PlayMode::Bms7Key => 8usize,
            PlayMode::Pms9Key => 9usize,
            PlayMode::Dp14Key => 16usize,
        },
{
    match mode {
        PlayMode::Bms7Key => LANE_COUNT_BMS,
        PlayMode::Pms9Key => LANE_COUNT_PMS,
        PlayMode::Dp14Key => LANE_COUNT_DP,
    }
}

} // verus!
