use vstd::prelude::*;

use super::gauge::gauge_property::GaugeType;

verus! {

/// Clear type of a play result, from lowest to highest.
#[derive(Debug, Clone, Copy, PartialEq, Eq, PartialOrd, Ord, Hash, Structural)]
pub enum ClearType {
    NoPlay,
    Failed,
    AssistEasy,
    LightAssistEasy,
    Easy,
    Normal,
    Hard,
    ExHard,
    FullCombo,
    Perfect,
    Max,
}

impl ClearType {
    /// Identifier of the clear type (its rank from 0 to 10).
    pub open spec fn id(self) -> nat {
        match self {
            ClearType::NoPlay => 0,
            ClearType::Failed => 1,
            ClearType::AssistEasy => 2,
            ClearType::LightAssistEasy => 3,
            ClearType::Easy => 4,
            ClearType::Normal => 5,
            ClearType::Hard => 6,
            ClearType::ExHard => 7,
            ClearType::FullCombo => 8,
            ClearType::Perfect => 9,
            ClearType::Max => 10,
        }
    }

    /// The clear type of an identifier; unknown identifiers give `NoPlay`.
    pub fn from_id(id: u8) -> (r: Self)
        ensures
            id <= 10 ==> r.id() == id,
            id > 10 ==> r == ClearType::NoPlay,
    {
        match id {
            0 => ClearType::NoPlay,
            1 => ClearType::Failed,
            2 => ClearType::AssistEasy,
            3 => ClearType::LightAssistEasy,
            4 => ClearType::Easy,
            5 => ClearType::Normal,
            6 => ClearType::Hard,
            7 => ClearType::ExHard,
            8 => ClearType::FullCombo,
            9 => ClearType::Perfect,
            10 => ClearType::Max,
            _ => ClearType::NoPlay,
        }
    }

    /// The clear type that a cleared gauge of a given kind awards.
    pub open spec fn of_gauge(gauge_type: GaugeType) -> ClearType {
        match gauge_type {
            GaugeType::AssistEasy => ClearType::LightAssistEasy,
            GaugeType::Easy => ClearType::Easy,
            GaugeType::Normal | GaugeType::Class => ClearType::Normal,
            GaugeType::Hard | GaugeType::ExClass => ClearType::Hard,
            GaugeType::ExHard | GaugeType::ExHardClass => ClearType::ExHard,
            GaugeType::Hazard => ClearType::FullCombo,
        }
    }

    /// The clear type corresponding to a gauge type.
    pub fn from_gauge_type(gauge_type: GaugeType) -> (r: Self)
        ensures
            r == Self::of_gauge(gauge_type),
    {
        match gauge_type {
            GaugeType::AssistEasy => ClearType::LightAssistEasy,
            GaugeType::Easy => ClearType::Easy,
            GaugeType::Normal | GaugeType::Class => ClearType::Normal,
            GaugeType::Hard | GaugeType::ExClass => ClearType::Hard,
            GaugeType::ExHard | GaugeType::ExHardClass => ClearType::ExHard,
            GaugeType::Hazard => ClearType::FullCombo,
        }
    }
}

} // verus!
