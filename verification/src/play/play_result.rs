//! The clear type of a finished play.

use vstd::prelude::*;

use super::clear_type::ClearType;
use super::gauge::gauge_property::GaugeType;
use super::score::ScoreData;

verus! {

/// The clear type of a play: `Failed` when the gauge did not meet its clear condition;
/// else `Max` for all PG with the combo over every note, `Perfect` for all PG,
/// `FullCombo` for no BD, PR or MS; else what the gauge kind awards.
pub open spec fn clear_type_of(qualified: bool, gauge_type: GaugeType, score: ScoreData) -> ClearType {
    if !qualified {
        ClearType::Failed
    } else if score.perfect() && score.max_combo == score.total_notes {
        ClearType::Max
    } else if score.perfect() {
        ClearType::Perfect
    } else if score.full_combo() {
        ClearType::FullCombo
    } else {
        ClearType::of_gauge(gauge_type)
    }
}

/// No BD, PR or MS, early or late, whatever the GR and GD counts.
pub open spec fn no_miss_counts(score: ScoreData) -> bool {
    &&& score.early_counts@[3] + score.late_counts@[3] == 0
    &&& score.early_counts@[4] + score.late_counts@[4] == 0
    &&& score.early_counts@[5] + score.late_counts@[5] == 0
}

/// Every note a PG: as many PG as notes, and no other judge, early or late.
pub open spec fn all_pgreat(score: ScoreData) -> bool {
    &&& score.early_counts@[0] + score.late_counts@[0] == score.total_notes
    &&& forall|k: int| 1 <= k < 6 ==> score.early_counts@[k] + score.late_counts@[k] == 0
}

/// A qualified play without BD, PR or MS that is not all PG is a full combo, whatever
/// its GR and GD counts; a qualified play with a BD, PR or MS gets what the gauge kind
/// awards; a qualified all-PG play is a MAX when its maximum combo covers every note and
/// a PERFECT otherwise; a play whose gauge did not qualify fails.
pub proof fn lemma_full_combo_clear(qualified: bool, gauge_type: GaugeType, score: ScoreData)
    ensures
        qualified && no_miss_counts(score) && !all_pgreat(score) ==> clear_type_of(qualified, gauge_type, score)
            == ClearType::FullCombo,
        qualified && !no_miss_counts(score) ==> clear_type_of(qualified, gauge_type, score) == ClearType::of_gauge(
            gauge_type,
        ),
        !qualified ==> clear_type_of(qualified, gauge_type, score) == ClearType::Failed,
        qualified && all_pgreat(score) && score.max_combo == score.total_notes ==> clear_type_of(
            qualified,
            gauge_type,
            score,
        ) == ClearType::Max,
        qualified && all_pgreat(score) && score.max_combo != score.total_notes ==> clear_type_of(
            qualified,
            gauge_type,
            score,
        ) == ClearType::Perfect,
{
    if all_pgreat(score) {
        assert(score.perfect()) by {
            assert forall|k: int| 1 <= k < 6 implies score.count_of(k) == 0 by {
                assert(score.early_counts@[k] + score.late_counts@[k] == 0);
            }
        }
    }
    if qualified && no_miss_counts(score) && !all_pgreat(score) {
        assert(!score.perfect()) by {
            if score.perfect() {
                assert forall|k: int| 1 <= k < 6 implies score.early_counts@[k] + score.late_counts@[k] == 0 by {
                    assert(score.count_of(k) == 0);
                }
            }
        }
    }
    if qualified && !no_miss_counts(score) {
        assert(!score.full_combo());
        assert(!score.perfect()) by {
            if score.perfect() {
                assert(score.count_of(3) == 0);
                assert(score.count_of(4) == 0);
                assert(score.count_of(5) == 0);
            }
        }
    }
}

/// Determine the clear type from the gauge's state (whether it met its clear condition,
/// and its kind) and the score.
pub fn determine_clear_type(qualified: bool, gauge_type: GaugeType, score: &ScoreData) -> (r: ClearType)
    requires
        score.perfect_defined(),
        score.full_combo_defined(),
    ensures
        r == clear_type_of(qualified, gauge_type, *score),
        !qualified ==> r == ClearType::Failed,
        qualified && no_miss_counts(*score) && !all_pgreat(*score) ==> r == ClearType::FullCombo,
        qualified && !no_miss_counts(*score) ==> r == ClearType::of_gauge(gauge_type),
        qualified && all_pgreat(*score) && score.max_combo == score.total_notes ==> r == ClearType::Max,
        qualified && all_pgreat(*score) && score.max_combo != score.total_notes ==> r
            == ClearType::Perfect,
{
    proof {
        lemma_full_combo_clear(qualified, gauge_type, *score);
    }
    if !qualified {
        return ClearType::Failed;
    }
    if score.is_max() {
        return ClearType::Max;
    }
    if score.is_perfect() {
        return ClearType::Perfect;
    }
    if score.is_full_combo() {
        return ClearType::FullCombo;
    }
    ClearType::from_gauge_type(gauge_type)
}

} // verus!
