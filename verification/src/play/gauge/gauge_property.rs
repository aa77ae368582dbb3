use vstd::prelude::*;

use crate::model::note::PlayMode;

verus! {

/// How gauge changes are adjusted from the chart's TOTAL and note count.
#[derive(Debug, Clone, Copy, PartialEq, Eq, Hash, Structural)]
pub enum GaugeModifier {
    /// Recovery scaled by TOTAL per note.
    Total,
    /// Recovery capped by TOTAL.
    LimitIncrement,
    /// Damage increased for low TOTAL and few notes.
    ModifyDamage,
}

/// Gauge kind.
#[derive(Debug, Clone, Copy, PartialEq, Eq, Hash, Structural)]
pub enum GaugeType {
    AssistEasy,
    Easy,
    Normal,
    Hard,
    ExHard,
    Hazard,
    Class,
    ExClass,
    ExHardClass,
}

/// Gauge type indices.
pub const GAUGE_ASSIST_EASY: usize = 0;
pub const GAUGE_EASY: usize = 1;
pub const GAUGE_NORMAL: usize = 2;
pub const GAUGE_HARD: usize = 3;
pub const GAUGE_EXHARD: usize = 4;
pub const GAUGE_HAZARD: usize = 5;
pub const GAUGE_CLASS: usize = 6;
pub const GAUGE_EXCLASS: usize = 7;
pub const GAUGE_EXHARDCLASS: usize = 8;

impl GaugeType {
    /// Index of the gauge kind, in the order of the `GAUGE_*` constants.
    pub open spec fn position(self) -> nat {
        match self {
            GaugeType::AssistEasy => 0,
            GaugeType::Easy => 1,
            GaugeType::Normal => 2,
            GaugeType::Hard => 3,
            GaugeType::ExHard => 4,
            GaugeType::Hazard => 5,
            GaugeType::Class => 6,
            GaugeType::ExClass => 7,
            GaugeType::ExHardClass => 8,
        }
    }

    /// Index of the gauge kind.
    pub fn index(self) -> (r: usize)
        ensures
            r == self.position(),
    {
        match self {
            GaugeType::AssistEasy => GAUGE_ASSIST_EASY,
            GaugeType::Easy => GAUGE_EASY,
            GaugeType::Normal => GAUGE_NORMAL,
            GaugeType::Hard => GAUGE_HARD,
            GaugeType::ExHard => GAUGE_EXHARD,
            GaugeType::Hazard => GAUGE_HAZARD,
            GaugeType::Class => GAUGE_CLASS,
            GaugeType::ExClass => GAUGE_EXCLASS,
            GaugeType::ExHardClass => GAUGE_EXHARDCLASS,
        }
    }

    /// The gauge kind of an index.
    pub fn from_index(index: usize) -> (r: Option<GaugeType>)
        ensures
            index < 9 <==> r is Some,
            r matches Some(g) ==> g.position() == index,
    {
        match index {
            0 => Some(GaugeType::AssistEasy),
            1 => Some(GaugeType::Easy),
            2 => Some(GaugeType::Normal),
            3 => Some(GaugeType::Hard),
            4 => Some(GaugeType::ExHard),
            5 => Some(GaugeType::Hazard),
            6 => Some(GaugeType::Class),
            7 => Some(GaugeType::ExClass),
            8 => Some(GaugeType::ExHardClass),
            _ => None,
        }
    }
}

/// Whether a gauge index is a course gauge (CLASS, EXCLASS or EXHARDCLASS).
pub fn is_course_gauge(gauge_type: usize) -> (r: bool)
    ensures
        r == (6 <= gauge_type <= 8),
{
    gauge_type >= 6 && gauge_type <= 8
}

/// The course gauge used for grade play with a given gauge: CLASS for ASSIST EASY,
/// EASY and NORMAL, EXCLASS for HARD, EXHARDCLASS otherwise.
pub fn grade_gauge_type(base_type: usize) -> (r: usize)
    ensures
        r == if base_type <= 2 {
            6int
        } else if base_type == 3 {
            7int
        } else {
            8int
        },
{
    if base_type <= 2 {
        GAUGE_CLASS
    } else if base_type == 3 {
        GAUGE_EXCLASS
    } else {
        GAUGE_EXHARDCLASS
    }
}

/// Gauge property set of a mode.
#[derive(Debug, Clone, Copy, PartialEq, Eq, Hash, Structural)]
pub enum GaugePropertyType {
    FiveKeys,
    SevenKeys,
    Pms,
    Keyboard,
    Lr2,
}

impl GaugePropertyType {
    /// The gauge property set of a play mode.
    pub fn from_mode(mode: PlayMode) -> (r: Self)
        ensures
            r == match mode {
                PlayMode::Beat5K | PlayMode::Beat10K => GaugePropertyType::FiveKeys,
                PlayMode::Beat7K | PlayMode::Beat14K => GaugePropertyType::SevenKeys,
                PlayMode::PopN9K => GaugePropertyType::Pms,
                PlayMode::Keyboard24K | PlayMode::Keyboard24KDouble => GaugePropertyType::Keyboard,
            },
    {
        match mode {
            PlayMode::Beat5K | PlayMode::Beat10K => GaugePropertyType::FiveKeys,
            PlayMode::Beat7K | PlayMode::Beat14K => GaugePropertyType::SevenKeys,
            PlayMode::PopN9K => GaugePropertyType::Pms,
            PlayMode::Keyboard24K | PlayMode::Keyboard24KDouble => GaugePropertyType::Keyboard,
        }
    }
}

} // verus!
