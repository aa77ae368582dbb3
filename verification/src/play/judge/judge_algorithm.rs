use vstd::prelude::*;

use crate::num::{abs, abs_i64, fits_i64};

verus! {

/// Judge algorithm for choosing between two candidate notes for one press.
#[derive(Debug, Clone, Copy, PartialEq, Eq, Hash, Structural)]
pub enum JudgeAlgorithm {
    /// Combo priority: prefer note 2 if note 1 is past the GD late bound and note 2 is
    /// within the GD early bound.
    Combo,
    /// Duration priority: prefer the note closer in time to the press.
    Duration,
    /// Lowest priority: always keep note 1.
    Lowest,
    /// Score priority: prefer note 2 if note 1 is past the GR late bound and note 2 is
    /// within the GR early bound.
    Score,
}

/// Whether note 2 should be preferred over note 1, over mathematical integers.
pub open spec fn prefers_second(
    algorithm: JudgeAlgorithm,
    t1_time: int,
    t2_time: int,
    t2_unjudged: bool,
    ptime: int,
    judge_table: Seq<[i64; 2]>,
) -> bool {
    match algorithm {
        JudgeAlgorithm::Combo => t2_unjudged && t1_time < ptime + judge_table[2]@[0] && t2_time
            <= ptime + judge_table[2]@[1],
        JudgeAlgorithm::Duration => abs(t1_time - ptime) > abs(t2_time - ptime) && t2_unjudged,
        JudgeAlgorithm::Lowest => false,
        JudgeAlgorithm::Score => t2_unjudged && t1_time < ptime + judge_table[1]@[0] && t2_time
            <= ptime + judge_table[1]@[1],
    }
}

/// The inputs on which `compare` neither indexes out of bounds nor overflows (the
/// conditions follow the short-circuit order of the comparison).
pub open spec fn compare_defined(
    algorithm: JudgeAlgorithm,
    t1_time: int,
    t2_time: int,
    t2_unjudged: bool,
    ptime: int,
    judge_table: Seq<[i64; 2]>,
) -> bool {
    match algorithm {
        JudgeAlgorithm::Combo => t2_unjudged ==> {
            &&& judge_table.len() > 2
            &&& fits_i64(ptime + judge_table[2]@[0])
            &&& t1_time < ptime + judge_table[2]@[0] ==> fits_i64(ptime + judge_table[2]@[1])
        },
        JudgeAlgorithm::Duration => {
            &&& i64::MIN < t1_time - ptime <= i64::MAX
            &&& i64::MIN < t2_time - ptime <= i64::MAX
        },
        JudgeAlgorithm::Lowest => true,
        JudgeAlgorithm::Score => t2_unjudged ==> {
            &&& judge_table.len() > 1
            &&& fits_i64(ptime + judge_table[1]@[0])
            &&& t1_time < ptime + judge_table[1]@[0] ==> fits_i64(ptime + judge_table[1]@[1])
        },
    }
}

impl JudgeAlgorithm {
    /// The default algorithm set.
    pub fn default_set() -> (r: [JudgeAlgorithm; 3])
        ensures
            r@ == seq![JudgeAlgorithm::Combo, JudgeAlgorithm::Duration, JudgeAlgorithm::Lowest],
    {
        [JudgeAlgorithm::Combo, JudgeAlgorithm::Duration, JudgeAlgorithm::Lowest]
    }

    /// Compare two notes and return true if note 2 should be preferred.
    pub fn compare(
        self,
        t1_time: i64,
        t2_time: i64,
        t2_unjudged: bool,
        ptime: i64,
        judge_table: &[[i64; 2]],
    ) -> (r: bool)
        requires
            compare_defined(self, t1_time as int, t2_time as int, t2_unjudged, ptime as int, judge_table@),
        ensures
            r == prefers_second(self, t1_time as int, t2_time as int, t2_unjudged, ptime as int, judge_table@),
    {
        match self {
            JudgeAlgorithm::Combo => {
                if !t2_unjudged {
                    return false;
                }
                let w = judge_table[2];
                let late: i64 = w[0];
                let early: i64 = w[1];
                if !(t1_time < ptime + late) {
                    return false;
                }
                t2_time <= ptime + early
            },
            JudgeAlgorithm::Duration => {
                abs_i64(t1_time - ptime) > abs_i64(t2_time - ptime) && t2_unjudged
            },
            JudgeAlgorithm::Lowest => false,
            JudgeAlgorithm::Score => {
                if !t2_unjudged {
                    return false;
                }
                let w = judge_table[1];
                let late: i64 = w[0];
                let early: i64 = w[1];
                if !(t1_time < ptime + late) {
                    return false;
                }
                t2_time <= ptime + early
            },
        }
    }
}

} // verus!
