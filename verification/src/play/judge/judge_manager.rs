use vstd::prelude::*;

use super::judge_algorithm::{compare_defined, prefers_second, JudgeAlgorithm};
use super::judge_property::{JudgeNoteType, JudgeProperty, MissCondition};
use crate::num::{abs, abs_i64, fits_i64};

verus! {

/// Judge result levels: PG, GR, GD, BD, PR (poor), MS (miss), and an empty poor for a
/// press with no valid target note.
#[derive(Debug, Clone, Copy, PartialEq, Eq, Hash, Structural)]
pub enum JudgeLevel {
    PerfectGreat,
    Great,
    Good,
    Bad,
    Poor,
    Miss,
    EmptyPoor,
}

impl JudgeLevel {
    /// Index of the level: PG=0, GR=1, GD=2, BD=3, PR=4, MS=5, empty poor=6.
    pub open spec fn index(self) -> nat {
        match self {
            JudgeLevel::PerfectGreat => 0,
            JudgeLevel::Great => 1,
            JudgeLevel::Good => 2,
            JudgeLevel::Bad => 3,
            JudgeLevel::Poor => 4,
            JudgeLevel::Miss => 5,
            JudgeLevel::EmptyPoor => 6,
        }
    }

    fn level_index(self) -> (r: usize)
        ensures
            r == self.index(),
    {
        match self {
            JudgeLevel::PerfectGreat => 0,
            JudgeLevel::Great => 1,
            JudgeLevel::Good => 2,
            JudgeLevel::Bad => 3,
            JudgeLevel::Poor => 4,
            JudgeLevel::Miss => 5,
            JudgeLevel::EmptyPoor => 6,
        }
    }

    /// Convert from an integer index.
    pub fn from_index(index: usize) -> (r: Option<Self>)
        ensures
            index < 7 <==> r is Some,
            r matches Some(l) ==> l.index() == index,
    {
        match index {
            0 => Some(JudgeLevel::PerfectGreat),
            1 => Some(JudgeLevel::Great),
            2 => Some(JudgeLevel::Good),
            3 => Some(JudgeLevel::Bad),
            4 => Some(JudgeLevel::Poor),
            5 => Some(JudgeLevel::Miss),
            6 => Some(JudgeLevel::EmptyPoor),
            _ => None,
        }
    }

    /// Whether this judge level continues the combo.
    pub fn continues_combo(self, combo_cond: &[bool]) -> (r: bool)
        ensures
            r == (self.index() < combo_cond@.len() && combo_cond@[self.index() as int]),
    {
        let idx = self.level_index();
        idx < combo_cond.len() && combo_cond[idx]
    }

    /// Whether this judge level causes the note to vanish.
    pub fn causes_vanish(self, judge_vanish: &[bool]) -> (r: bool)
        ensures
            r == (self.index() < judge_vanish@.len() && judge_vanish@[self.index() as int]),
    {
        let idx = self.level_index();
        idx < judge_vanish.len() && judge_vanish[idx]
    }
}

/// Result of judging a single note press.
#[derive(Debug, Clone, Copy, PartialEq, Eq, Structural)]
pub struct JudgeResult {
    /// The judge level.
    pub level: JudgeLevel,
    /// Time difference in microseconds (note_time - press_time); positive is early.
    pub time_diff_us: i64,
    /// Whether the note should be consumed (vanish).
    pub vanish: bool,
}

/// Whether a time difference lies in a window (both bounds included).
pub open spec fn in_window(w: [i64; 2], dmtime: int) -> bool {
    w@[0] <= dmtime <= w@[1]
}

/// Index of the first window from `k` on that holds the time difference, or the table
/// length if none does.
pub open spec fn first_hit(table: Seq<[i64; 2]>, dmtime: int, k: int) -> int
    decreases table.len() - k,
{
    if k < 0 || k >= table.len() {
        table.len() as int
    } else if in_window(table[k], dmtime) {
        k
    } else {
        first_hit(table, dmtime, k + 1)
    }
}

proof fn lemma_first_hit(table: Seq<[i64; 2]>, dmtime: int, k: int)
    requires
        0 <= k <= table.len(),
    ensures
        k <= first_hit(table, dmtime, k) <= table.len(),
        first_hit(table, dmtime, k) < table.len() ==> in_window(table[first_hit(table, dmtime, k)], dmtime),
        forall|m: int| k <= m < first_hit(table, dmtime, k) ==> !in_window(#[trigger] table[m], dmtime),
    decreases table.len() - k,
{
    if k < table.len() && !in_window(table[k], dmtime) {
        lemma_first_hit(table, dmtime, k + 1);
    }
}

/// Determine the judge index of a time difference: the first window that holds it.
pub fn determine_judge_index(dmtime: i64, judge_table: &[[i64; 2]]) -> (r: Option<usize>)
    ensures
        match r {
            Some(i) => i == first_hit(judge_table@, dmtime as int, 0) && i < judge_table@.len(),
            None => first_hit(judge_table@, dmtime as int, 0) == judge_table@.len(),
        },
{
    proof {
        lemma_first_hit(judge_table@, dmtime as int, 0);
    }
    let mut i: usize = 0;
    while i < judge_table.len()
        invariant
            i <= judge_table@.len(),
            first_hit(judge_table@, dmtime as int, 0) == first_hit(judge_table@, dmtime as int, i as int),
        decreases judge_table@.len() - i,
    {
        let w = judge_table[i];
        let lo: i64 = w[0];
        let hi: i64 = w[1];
        if dmtime >= lo && dmtime <= hi {
            return Some(i);
        }
        i = i + 1;
    }
    None
}

/// The full judge index of a press: for an unjudged note the first window that holds
/// the time difference (the fifth window and beyond shifted up by one, and the table
/// length plus one when none holds it); for a judged note 5 when the fifth window holds
/// it and 6 otherwise.
pub open spec fn note_judge(dmtime: int, is_unjudged: bool, table: Seq<[i64; 2]>) -> int {
    if !is_unjudged {
        if table.len() > 4 && in_window(table[4], dmtime) {
            5
        } else {
            6
        }
    } else {
        let f = first_hit(table, dmtime, 0);
        if f >= 4 {
            f + 1
        } else {
            f
        }
    }
}

/// For an unjudged note, the judge index is that of the first window that holds the
/// time difference when it is one of the first four (PG, GR, GD, BD), and one more than
/// it from the fifth window on (the poor index is skipped); with no window holding it,
/// it is one more than the number of windows (of a table of at least four).
pub proof fn lemma_first_window_judge(dmtime: int, table: Seq<[i64; 2]>)
    ensures
        forall|k: int|
            #![trigger table[k]]
            0 <= k < 4 && k < table.len() && table[k]@[0] <= dmtime <= table[k]@[1] && (forall|m: int|
                #![trigger table[m]]
                0 <= m < k ==> !(table[m]@[0] <= dmtime <= table[m]@[1])) ==> note_judge(dmtime, true, table)
                == k,
        forall|k: int|
            #![trigger table[k]]
            4 <= k < table.len() && table[k]@[0] <= dmtime <= table[k]@[1] && (forall|m: int|
                #![trigger table[m]]
                0 <= m < k ==> !(table[m]@[0] <= dmtime <= table[m]@[1])) ==> note_judge(dmtime, true, table)
                == k + 1,
        table.len() >= 4 && (forall|m: int|
            #![trigger table[m]]
            0 <= m < table.len() ==> !(table[m]@[0] <= dmtime <= table[m]@[1])) ==> note_judge(
            dmtime,
            true,
            table,
        ) == table.len() + 1,
{
    lemma_first_hit(table, dmtime, 0);
    let f = first_hit(table, dmtime, 0);
    assert forall|k: int|
        #![trigger table[k]]
        0 <= k < table.len() && table[k]@[0] <= dmtime <= table[k]@[1] && (forall|m: int|
            #![trigger table[m]]
            0 <= m < k ==> !(table[m]@[0] <= dmtime <= table[m]@[1])) implies f == k by {
        if f < k {
            assert(in_window(table[f], dmtime));
        }
        if f > k {
            assert(!in_window(table[k], dmtime));
        }
    }
    if f < table.len() {
        assert(in_window(table[f], dmtime));
    }
}

/// Determine the full judge index of a note press: 0=PG, 1=GR, 2=GD, 3=BD, 5=empty
/// poor, 6=beyond all windows.
pub fn determine_note_judge(dmtime: i64, is_unjudged: bool, judge_table: &[[i64; 2]]) -> (r: usize)
    requires
        judge_table@.len() < usize::MAX,
    ensures
        r == note_judge(dmtime as int, is_unjudged, judge_table@),
        forall|k: int|
            #![trigger judge_table@[k]]
            is_unjudged && 0 <= k < 4 && k < judge_table@.len() && judge_table@[k]@[0] <= dmtime
                <= judge_table@[k]@[1] && (forall|m: int|
                #![trigger judge_table@[m]]
                0 <= m < k ==> !(judge_table@[m]@[0] <= dmtime <= judge_table@[m]@[1])) ==> r == k,
        forall|k: int|
            #![trigger judge_table@[k]]
            is_unjudged && 4 <= k < judge_table@.len() && judge_table@[k]@[0] <= dmtime
                <= judge_table@[k]@[1] && (forall|m: int|
                #![trigger judge_table@[m]]
                0 <= m < k ==> !(judge_table@[m]@[0] <= dmtime <= judge_table@[m]@[1])) ==> r == k + 1,
        is_unjudged && judge_table@.len() >= 4 && (forall|m: int|
            #![trigger judge_table@[m]]
            0 <= m < judge_table@.len() ==> !(judge_table@[m]@[0] <= dmtime <= judge_table@[m]@[1]))
            ==> r == judge_table@.len() + 1,
        !is_unjudged ==> r == if judge_table@.len() > 4 && judge_table@[4]@[0] <= dmtime
            <= judge_table@[4]@[1] {
            5int
        } else {
            6int
        },
{
    proof {
        lemma_first_window_judge(dmtime as int, judge_table@);
    }
    if !is_unjudged {
        if judge_table.len() > 4 {
            let w = judge_table[4];
            let lo: i64 = w[0];
            let hi: i64 = w[1];
            if dmtime >= lo && dmtime <= hi {
                return 5;
            }
        }
        6
    } else {
        proof {
            lemma_first_hit(judge_table@, dmtime as int, 0);
        }
        let judge = match determine_judge_index(dmtime, judge_table) {
            Some(i) => i,
            None => judge_table.len(),
        };
        if judge >= 4 {
            judge + 1
        } else {
            judge
        }
    }
}

/// HCN gauge increase/decrease interval in microseconds.
pub const HCN_DURATION_US: i64 = 200_000;

/// Per-lane judge state tracking.
#[derive(Debug, Clone, Copy, Default, PartialEq, Eq, Structural)]
pub struct LaneJudgeState {
    /// Currently processing a long note end.
    pub processing: bool,
    /// LN start judge level (for LN end comparison).
    pub ln_start_judge: usize,
    /// LN start time difference.
    pub ln_start_duration: i64,
    /// HCN passing state.
    pub passing: bool,
    /// HCN accumulator for gauge tick.
    pub passing_count: i64,
    /// Whether HCN is being held (increasing gauge).
    pub increasing: bool,
    /// Release time for delayed LN end judgment.
    pub release_time: Option<i64>,
    /// LN end judge level for delayed judgment.
    pub ln_end_judge: Option<usize>,
}

/// Scoring state tracked by the judge manager.
#[derive(Debug, Clone, Default)]
pub struct JudgeScore {
    /// Judge counts [PG, GR, GD, BD, PR, MS] of early presses.
    pub early_counts: [u32; 6],
    /// Judge counts [PG, GR, GD, BD, PR, MS] of late presses.
    pub late_counts: [u32; 6],
    /// Current combo.
    pub combo: u32,
    /// Maximum combo achieved.
    pub max_combo: u32,
    /// Number of notes that have been judged (passed).
    pub pass_notes: u32,
    /// Ghost data: judge level per note, in order.
    pub ghost_data: Vec<u8>,
    /// Recent judge timings (circular buffer, microseconds).
    pub recent_judges_us: Vec<i64>,
    /// Index into the circular buffer of recent timings.
    pub recent_index: usize,
}

/// Judge counts after one more judge of index `judge` (nothing changes from index 6 on).
pub open spec fn counts_after(counts: Seq<u32>, judge: int, counted: bool) -> Seq<u32> {
    if counted && 0 <= judge < 6 {
        counts.update(judge, (counts[judge] + 1) as u32)
    } else {
        counts
    }
}

/// Combo after a judge: it grows for a judge below 5 that continues the combo and
/// resets for a judge that breaks it.
pub open spec fn combo_after(combo: int, judge: int, combo_cond: Seq<bool>) -> int {
    if 0 <= judge < combo_cond.len() && combo_cond[judge] && judge < 5 {
        combo + 1
    } else if 0 <= judge < combo_cond.len() && !combo_cond[judge] {
        0
    } else {
        combo
    }
}

/// Maximum combo after a judge.
pub open spec fn max_combo_after(combo: int, max_combo: int, judge: int, combo_cond: Seq<bool>) -> int {
    if 0 <= judge < combo_cond.len() && combo_cond[judge] && judge < 5 {
        if max_combo >= combo + 1 {
            max_combo
        } else {
            combo + 1
        }
    } else {
        max_combo
    }
}

/// Ghost data after recording a judge at position `pass_notes` (unchanged past the end).
pub open spec fn ghost_after(ghost: Seq<u8>, pass_notes: int, judge: int) -> Seq<u8> {
    if 0 <= pass_notes < ghost.len() {
        ghost.update(pass_notes, judge as u8)
    } else {
        ghost
    }
}

/// The combo never exceeds the maximum combo, and the maximum combo never falls: a
/// judge keeps `combo <= max_combo` and leaves `max_combo` at least where it was.
pub proof fn lemma_combo_within_max(combo: int, max_combo: int, judge: int, combo_cond: Seq<bool>)
    requires
        0 <= combo <= max_combo,
    ensures
        0 <= combo_after(combo, judge, combo_cond) <= max_combo_after(combo, max_combo, judge, combo_cond),
        max_combo <= max_combo_after(combo, max_combo, judge, combo_cond),
{
}

/// A judge of index 5 or more (empty poor and beyond) never raises the combo or the
/// maximum combo; a judge below 5 whose combo condition holds raises the combo by one
/// (and the maximum combo with it when passed); a judge whose combo condition fails
/// resets the combo and keeps the maximum combo.
pub proof fn lemma_combo_rules(combo: int, max_combo: int, judge: int, combo_cond: Seq<bool>)
    requires
        0 <= judge,
        0 <= combo,
    ensures
        judge >= 5 ==> combo_after(combo, judge, combo_cond) <= combo && max_combo_after(
            combo,
            max_combo,
            judge,
            combo_cond,
        ) == max_combo,
        judge < 5 && judge < combo_cond.len() && combo_cond[judge] ==> combo_after(combo, judge, combo_cond)
            == combo + 1 && max_combo_after(combo, max_combo, judge, combo_cond) == if max_combo >= combo
            + 1 {
            max_combo
        } else {
            combo + 1
        },
        judge < combo_cond.len() && !combo_cond[judge] ==> combo_after(combo, judge, combo_cond) == 0
            && max_combo_after(combo, max_combo, judge, combo_cond) == max_combo,
        judge >= combo_cond.len() ==> combo_after(combo, judge, combo_cond) == combo && max_combo_after(
            combo,
            max_combo,
            judge,
            combo_cond,
        ) == max_combo,
{
}

impl JudgeScore {
    /// Create a score for a chart: the ghost is all poor (4) and the buffer of recent
    /// timings holds 100 empty slots (`i64::MIN`).
    pub fn new(total_notes: usize) -> (r: Self)
        ensures
            r.early_counts@ == seq![0u32, 0, 0, 0, 0, 0],
            r.late_counts@ == seq![0u32, 0, 0, 0, 0, 0],
            r.combo == 0,
            r.max_combo == 0,
            r.pass_notes == 0,
            r.ghost_data@ == Seq::new(total_notes as nat, |i: int| 4u8),
            r.recent_judges_us@ == Seq::new(100, |i: int| i64::MIN),
            r.recent_index == 0,
    {
        let mut ghost: Vec<u8> = Vec::new();
        let mut i: usize = 0;
        while i < total_notes
            invariant
                i <= total_notes,
                ghost@ == Seq::new(i as nat, |k: int| 4u8),
            decreases total_notes - i,
        {
            ghost.push(4);
            i = i + 1;
        }
        let mut recent: Vec<i64> = Vec::new();
        let mut i: usize = 0;
        while i < 100
            invariant
                i <= 100,
                recent@ == Seq::new(i as nat, |k: int| i64::MIN),
            decreases 100 - i,
        {
            recent.push(i64::MIN);
            i = i + 1;
        }
        JudgeScore {
            early_counts: [0, 0, 0, 0, 0, 0],
            late_counts: [0, 0, 0, 0, 0, 0],
            combo: 0,
            max_combo: 0,
            pass_notes: 0,
            ghost_data: ghost,
            recent_judges_us: recent,
            recent_index: 0,
        }
    }

    /// Whether adding a judge of this index would not overflow its counter.
    pub open spec fn can_add(&self, judge: int, is_early: bool) -> bool {
        0 <= judge < 6 ==> if is_early {
            self.early_counts@[judge] < u32::MAX
        } else {
            self.late_counts@[judge] < u32::MAX
        }
    }

    /// Add a judge count (judge indices from 6 on are ignored).
    pub fn add_judge(&mut self, judge: usize, is_early: bool)
        requires
            old(self).can_add(judge as int, is_early),
        ensures
            final(self).early_counts@ == counts_after(old(self).early_counts@, judge as int, is_early),
            final(self).late_counts@ == counts_after(old(self).late_counts@, judge as int, !is_early),
            final(self).combo == old(self).combo,
            final(self).max_combo == old(self).max_combo,
            final(self).pass_notes == old(self).pass_notes,
            final(self).ghost_data == old(self).ghost_data,
            final(self).recent_judges_us == old(self).recent_judges_us,
            final(self).recent_index == old(self).recent_index,
    {
        if judge < 6 {
            if is_early {
                let v = self.early_counts[judge];
                self.early_counts[judge] = v + 1;
            } else {
                let v = self.late_counts[judge];
                self.late_counts[judge] = v + 1;
            }
        }
    }

    /// Total judge count of a level (early and late); 0 from index 6 on.
    pub open spec fn count_of(&self, judge: int) -> int {
        if 0 <= judge < 6 {
            self.early_counts@[judge] + self.late_counts@[judge]
        } else {
            0
        }
    }

    /// Get the total judge count for a level.
    pub fn judge_count(&self, judge: usize) -> (r: u32)
        requires
            self.count_of(judge as int) <= u32::MAX,
        ensures
            r == self.count_of(judge as int),
    {
        if judge < 6 {
            self.early_counts[judge] + self.late_counts[judge]
        } else {
            0
        }
    }

    /// Record a judge timing in the circular buffer of recent timings.
    pub fn record_recent_timing(&mut self, timing_us: i64)
        requires
            old(self).recent_judges_us@.len() > 0,
            old(self).recent_index < usize::MAX,
        ensures
            final(self).recent_index == (old(self).recent_index + 1) % (old(
                self,
            ).recent_judges_us@.len() as int),
            final(self).recent_judges_us@ == old(self).recent_judges_us@.update(
                final(self).recent_index as int,
                timing_us,
            ),
            final(self).early_counts == old(self).early_counts,
            final(self).late_counts == old(self).late_counts,
            final(self).combo == old(self).combo,
            final(self).max_combo == old(self).max_combo,
            final(self).pass_notes == old(self).pass_notes,
            final(self).ghost_data == old(self).ghost_data,
    {
        self.recent_index = (self.recent_index + 1) % self.recent_judges_us.len();
        let idx = self.recent_index;
        self.recent_judges_us.set(idx, timing_us);
    }

    /// Update the combo from a judge index and the combo condition.
    pub fn update_combo(&mut self, judge: usize, combo_cond: &[bool])
        requires
            combo_after(old(self).combo as int, judge as int, combo_cond@) <= u32::MAX,
        ensures
            final(self).combo == combo_after(old(self).combo as int, judge as int, combo_cond@),
            final(self).max_combo == max_combo_after(
                old(self).combo as int,
                old(self).max_combo as int,
                judge as int,
                combo_cond@,
            ),
            final(self).early_counts == old(self).early_counts,
            final(self).late_counts == old(self).late_counts,
            final(self).pass_notes == old(self).pass_notes,
            final(self).ghost_data == old(self).ghost_data,
            final(self).recent_judges_us == old(self).recent_judges_us,
            final(self).recent_index == old(self).recent_index,
            judge >= 5 ==> final(self).combo <= old(self).combo && final(self).max_combo == old(
                self,
            ).max_combo,
            judge < 5 && judge < combo_cond@.len() && combo_cond@[judge as int] ==> final(self).combo
                == old(self).combo + 1,
            judge < combo_cond@.len() && !combo_cond@[judge as int] ==> final(self).combo == 0
                && final(self).max_combo == old(self).max_combo,
            judge < 5 && judge < combo_cond@.len() && combo_cond@[judge as int] ==> final(self).max_combo
                == if old(self).max_combo > old(self).combo {
                old(self).max_combo as int
            } else {
                old(self).combo + 1
            },
            judge >= combo_cond@.len() ==> final(self).combo == old(self).combo && final(self).max_combo
                == old(self).max_combo,
    {
        proof {
            lemma_combo_rules(self.combo as int, self.max_combo as int, judge as int, combo_cond@);
        }
        if judge < combo_cond.len() && combo_cond[judge] && judge < 5 {
            self.combo = self.combo + 1;
            if self.combo > self.max_combo {
                self.max_combo = self.combo;
            }
        }
        if judge < combo_cond.len() && !combo_cond[judge] {
            self.combo = 0;
        }
    }

    /// Record ghost data and count the note as passed.
    pub fn record_ghost(&mut self, judge: usize)
        requires
            old(self).pass_notes < u32::MAX,
        ensures
            final(self).ghost_data@ == ghost_after(old(self).ghost_data@, old(self).pass_notes as int, judge as int),
            final(self).pass_notes == old(self).pass_notes + 1,
            final(self).early_counts == old(self).early_counts,
            final(self).late_counts == old(self).late_counts,
            final(self).combo == old(self).combo,
            final(self).max_combo == old(self).max_combo,
            final(self).recent_judges_us == old(self).recent_judges_us,
            final(self).recent_index == old(self).recent_index,
    {
        let idx = self.pass_notes as usize;
        if idx < self.ghost_data.len() {
            self.ghost_data.set(idx, judge as u8);
        }
        self.pass_notes = self.pass_notes + 1;
    }
}

/// Whether `update_judge` skips counting: a repeated poor under the count-once miss
/// condition.
pub open spec fn skips_count(judge: int, miss_condition: MissCondition, play_time: int) -> bool {
    miss_condition is One && judge == 4 && play_time != 0
}

/// The inputs on which `update_judge` does not overflow.
pub open spec fn update_judge_defined(
    score: JudgeScore,
    judge: int,
    time_diff_us: int,
    vanish: bool,
    miss_condition: MissCondition,
    combo_cond: Seq<bool>,
    play_time: int,
) -> bool {
    &&& vanish ==> score.pass_notes < u32::MAX
    &&& !skips_count(judge, miss_condition, play_time) ==> {
        &&& score.can_add(judge, time_diff_us >= 0)
        &&& judge < 4 ==> score.recent_judges_us@.len() > 0 && score.recent_index < usize::MAX
        &&& combo_after(score.combo as int, judge, combo_cond) <= u32::MAX
    }
}

/// Process a single note judgment and update the scoring state: a vanishing note
/// records the ghost; then, unless the count is skipped, the judge is counted as early
/// (time difference at least 0) or late, a PG-BD timing is recorded, and the combo is
/// updated.
pub fn update_judge(
    score: &mut JudgeScore,
    judge: usize,
    time_diff_us: i64,
    vanish: bool,
    miss_condition: MissCondition,
    combo_cond: &[bool],
    play_time: i64,
)
    requires
        update_judge_defined(
            *old(score),
            judge as int,
            time_diff_us as int,
            vanish,
            miss_condition,
            combo_cond@,
            play_time as int,
        ),
    ensures
        final(score).ghost_data@ == if vanish {
            ghost_after(old(score).ghost_data@, old(score).pass_notes as int, judge as int)
        } else {
            old(score).ghost_data@
        },
        final(score).pass_notes == old(score).pass_notes + if vanish {
            1int
        } else {
            0int
        },
        skips_count(judge as int, miss_condition, play_time as int) ==> {
            &&& final(score).early_counts == old(score).early_counts
            &&& final(score).late_counts == old(score).late_counts
            &&& final(score).combo == old(score).combo
            &&& final(score).max_combo == old(score).max_combo
            &&& final(score).recent_judges_us == old(score).recent_judges_us
            &&& final(score).recent_index == old(score).recent_index
        },
        !skips_count(judge as int, miss_condition, play_time as int) ==> {
            &&& final(score).early_counts@ == counts_after(
                old(score).early_counts@,
                judge as int,
                time_diff_us >= 0,
            )
            &&& final(score).late_counts@ == counts_after(
                old(score).late_counts@,
                judge as int,
                time_diff_us < 0,
            )
            &&& final(score).combo == combo_after(old(score).combo as int, judge as int, combo_cond@)
            &&& final(score).max_combo == max_combo_after(
                old(score).combo as int,
                old(score).max_combo as int,
                judge as int,
                combo_cond@,
            )
            &&& judge < 4 ==> {
                &&& final(score).recent_index == (old(score).recent_index + 1) % (old(
                    score,
                ).recent_judges_us@.len() as int)
                &&& final(score).recent_judges_us@ == old(score).recent_judges_us@.update(
                    final(score).recent_index as int,
                    time_diff_us,
                )
            }
            &&& judge >= 4 ==> {
                &&& final(score).recent_index == old(score).recent_index
                &&& final(score).recent_judges_us == old(score).recent_judges_us
            }
        },
        judge >= 5 ==> final(score).combo <= old(score).combo && final(score).max_combo == old(
            score,
        ).max_combo,
{
    proof {
        lemma_combo_rules(score.combo as int, score.max_combo as int, judge as int, combo_cond@);
    }
    if vanish {
        score.record_ghost(judge);
    }
    if miss_condition == MissCondition::One && judge == 4 && play_time != 0 {
        return;
    }
    let is_early = time_diff_us >= 0;
    score.add_judge(judge, is_early);
    if judge < 4 {
        score.record_recent_timing(time_diff_us);
    }
    score.update_combo(judge, combo_cond);
}

/// Whether a candidate is passed over under the count-once miss condition: it was
/// already judged, or it was pressed before and the time difference lies outside the
/// GD window.
pub open spec fn skipped_by_miss_condition(
    miss_condition: MissCondition,
    is_unjudged: bool,
    play_time: int,
    dmtime: int,
    table: Seq<[i64; 2]>,
) -> bool {
    miss_condition is One && (!is_unjudged || (play_time != 0 && (dmtime > table[2]@[1]
        || dmtime < table[2]@[0])))
}

/// The selection after scanning candidates from `k` on, starting from `best` (a pair of
/// candidate index and judge index). Candidates whose time difference lies at or past
/// `judge_end` end the scan; those before `judge_start` are passed over; a candidate
/// replaces the current best when the best is already judged or the algorithm prefers
/// it, and it is not passed over by the miss condition; a judge of PG-BD always takes
/// it, a poor or empty poor takes it only when it is strictly closer to the press than
/// the best; a candidate outside all windows clears the selection.
pub open spec fn select_from(
    c: Seq<(i64, bool, i64)>,
    press_time: int,
    table: Seq<[i64; 2]>,
    judge_start: int,
    judge_end: int,
    algorithm: JudgeAlgorithm,
    miss_condition: MissCondition,
    k: int,
    best: Option<(int, int)>,
) -> Option<(int, int)>
    decreases c.len() - k,
{
    if k < 0 || k >= c.len() {
        best
    } else {
        let note_time = c[k].0 as int;
        let is_unjudged = c[k].1;
        let play_time = c[k].2 as int;
        let dmtime = note_time - press_time;
        if dmtime >= judge_end {
            best
        } else if dmtime < judge_start {
            select_from(c, press_time, table, judge_start, judge_end, algorithm, miss_condition, k + 1, best)
        } else {
            let should_select = match best {
                None => true,
                Some(b) => !c[b.0].1 || prefers_second(
                    algorithm,
                    c[b.0].0 as int,
                    note_time,
                    is_unjudged,
                    press_time,
                    table,
                ),
            };
            if !should_select || skipped_by_miss_condition(
                miss_condition,
                is_unjudged,
                play_time,
                dmtime,
                table,
            ) {
                select_from(c, press_time, table, judge_start, judge_end, algorithm, miss_condition, k + 1, best)
            } else {
                let judge = note_judge(dmtime, is_unjudged, table);
                let next = if judge < 6 {
                    let keep = judge < 4 || match best {
                        None => true,
                        Some(b) => abs(c[b.0].0 - press_time) > abs(dmtime),
                    };
                    if keep {
                        Some((k, judge))
                    } else {
                        best
                    }
                } else {
                    None
                };
                select_from(c, press_time, table, judge_start, judge_end, algorithm, miss_condition, k + 1, next)
            }
        }
    }
}

/// The inputs on which the scan of `select_note` from `k` on neither indexes out of
/// bounds nor overflows.
pub open spec fn select_defined(
    c: Seq<(i64, bool, i64)>,
    press_time: int,
    table: Seq<[i64; 2]>,
    judge_start: int,
    judge_end: int,
    algorithm: JudgeAlgorithm,
    miss_condition: MissCondition,
    k: int,
    best: Option<(int, int)>,
) -> bool
    decreases c.len() - k,
{
    if k < 0 || k >= c.len() {
        true
    } else {
        let note_time = c[k].0 as int;
        let is_unjudged = c[k].1;
        let play_time = c[k].2 as int;
        let dmtime = note_time - press_time;
        &&& i64::MIN < dmtime <= i64::MAX
        &&& dmtime < judge_end && judge_start <= dmtime ==> {
            let should_select = match best {
                None => true,
                Some(b) => !c[b.0].1 || prefers_second(
                    algorithm,
                    c[b.0].0 as int,
                    note_time,
                    is_unjudged,
                    press_time,
                    table,
                ),
            };
            &&& match best {
                Some(b) => c[b.0].1 ==> compare_defined(
                    algorithm,
                    c[b.0].0 as int,
                    note_time,
                    is_unjudged,
                    press_time,
                    table,
                ),
                None => true,
            }
            &&& should_select && miss_condition is One && is_unjudged && play_time != 0
                ==> table.len() > 2
            &&& !should_select || skipped_by_miss_condition(
                miss_condition,
                is_unjudged,
                play_time,
                dmtime,
                table,
            ) ==> select_defined(
                c,
                press_time,
                table,
                judge_start,
                judge_end,
                algorithm,
                miss_condition,
                k + 1,
                best,
            )
            &&& should_select && !skipped_by_miss_condition(
                miss_condition,
                is_unjudged,
                play_time,
                dmtime,
                table,
            ) ==> {
                let judge = note_judge(dmtime, is_unjudged, table);
                let next = if judge < 6 {
                    let keep = judge < 4 || match best {
                        None => true,
                        Some(b) => abs(c[b.0].0 - press_time) > abs(dmtime),
                    };
                    if keep {
                        Some((k, judge))
                    } else {
                        best
                    }
                } else {
                    None
                };
                select_defined(
                    c,
                    press_time,
                    table,
                    judge_start,
                    judge_end,
                    algorithm,
                    miss_condition,
                    k + 1,
                    next,
                )
            }
        }
        &&& judge_start > dmtime ==> select_defined(
            c,
            press_time,
            table,
            judge_start,
            judge_end,
            algorithm,
            miss_condition,
            k + 1,
            best,
        )
    }
}

/// A selection names a candidate whose time difference to the press lies in
/// `[judge_start, judge_end)` together with the judge of that difference, below 6.
pub open spec fn selection_in_range(
    c: Seq<(i64, bool, i64)>,
    press_time: int,
    table: Seq<[i64; 2]>,
    judge_start: int,
    judge_end: int,
    p: Option<(int, int)>,
) -> bool {
    match p {
        None => true,
        Some((i, j)) => {
            &&& 0 <= i < c.len()
            &&& judge_start <= c[i].0 - press_time < judge_end
            &&& 0 <= j < 6
            &&& j == note_judge(c[i].0 - press_time, c[i].1, table)
        },
    }
}

proof fn lemma_select_from_in_range(
    c: Seq<(i64, bool, i64)>,
    press_time: int,
    table: Seq<[i64; 2]>,
    judge_start: int,
    judge_end: int,
    algorithm: JudgeAlgorithm,
    miss_condition: MissCondition,
    k: int,
    best: Option<(int, int)>,
)
    requires
        0 <= k,
        selection_in_range(c, press_time, table, judge_start, judge_end, best),
    ensures
        selection_in_range(
            c,
            press_time,
            table,
            judge_start,
            judge_end,
            select_from(c, press_time, table, judge_start, judge_end, algorithm, miss_condition, k, best),
        ),
    decreases c.len() - k,
{
    if k < c.len() {
        let note_time = c[k].0 as int;
        let is_unjudged = c[k].1;
        let dmtime = note_time - press_time;
        lemma_select_from_in_range(c, press_time, table, judge_start, judge_end, algorithm, miss_condition, k + 1, best);
        if judge_start <= dmtime < judge_end {
            let judge = note_judge(dmtime, is_unjudged, table);
            lemma_first_hit(table, dmtime, 0);
            lemma_select_from_in_range(c, press_time, table, judge_start, judge_end, algorithm, miss_condition, k + 1, None);
            if judge < 6 {
                lemma_select_from_in_range(
                    c,
                    press_time,
                    table,
                    judge_start,
                    judge_end,
                    algorithm,
                    miss_condition,
                    k + 1,
                    Some((k, judge)),
                );
            }
        }
    }
}

/// What `select_note` picks is a candidate whose time difference to the press lies in
/// `[judge_start, judge_end)`, with the judge that `determine_note_judge` gives that
/// difference, below 6; with no candidates nothing is picked.
pub proof fn lemma_select_note_in_range(
    c: Seq<(i64, bool, i64)>,
    press_time: int,
    table: Seq<[i64; 2]>,
    judge_start: int,
    judge_end: int,
    algorithm: JudgeAlgorithm,
    miss_condition: MissCondition,
)
    ensures
        selection_in_range(
            c,
            press_time,
            table,
            judge_start,
            judge_end,
            select_from(c, press_time, table, judge_start, judge_end, algorithm, miss_condition, 0, None),
        ),
        c.len() == 0 ==> select_from(
            c,
            press_time,
            table,
            judge_start,
            judge_end,
            algorithm,
            miss_condition,
            0,
            None,
        ) is None,
{
    lemma_select_from_in_range(c, press_time, table, judge_start, judge_end, algorithm, miss_condition, 0, None);
}

/// Select the note a press judges among candidates (note time, unjudged, play time),
/// with the judge algorithm and the miss condition: the candidate index and its judge
/// index, or `None`.
pub fn select_note(
    candidates: &[(i64, bool, i64)],
    press_time: i64,
    judge_table: &[[i64; 2]],
    judge_start: i64,
    judge_end: i64,
    algorithm: JudgeAlgorithm,
    miss_condition: MissCondition,
) -> (r: Option<(usize, usize)>)
    requires
        judge_table@.len() < usize::MAX,
        select_defined(
            candidates@,
            press_time as int,
            judge_table@,
            judge_start as int,
            judge_end as int,
            algorithm,
            miss_condition,
            0,
            None,
        ),
    ensures
        match select_from(
            candidates@,
            press_time as int,
            judge_table@,
            judge_start as int,
            judge_end as int,
            algorithm,
            miss_condition,
            0,
            None,
        ) {
            Some(p) => r == Some((p.0 as usize, p.1 as usize)),
            None => r is None,
        },
{
    let ghost c = candidates@;
    let ghost t = judge_table@;
    let ghost want = select_from(
        c,
        press_time as int,
        t,
        judge_start as int,
        judge_end as int,
        algorithm,
        miss_condition,
        0,
        None,
    );
    // (index, judge, note time)
    let mut best: Option<(usize, usize, i64)> = None;
    let mut idx: usize = 0;
    while idx < candidates.len()
        invariant_except_break
            c == candidates@,
            t == judge_table@,
            t.len() < usize::MAX,
            idx <= c.len(),
            best matches Some(b) ==> b.0 < idx && b.2 == c[b.0 as int].0 && b.1 < 6 && i64::MIN < b.2 - press_time <= i64::MAX,
            want == select_from(
                c,
                press_time as int,
                t,
                judge_start as int,
                judge_end as int,
                algorithm,
                miss_condition,
                idx as int,
                match best {
                    Some(b) => Some((b.0 as int, b.1 as int)),
                    None => None,
                },
            ),
            select_defined(
                c,
                press_time as int,
                t,
                judge_start as int,
                judge_end as int,
                algorithm,
                miss_condition,
                idx as int,
                match best {
                    Some(b) => Some((b.0 as int, b.1 as int)),
                    None => None,
                },
            ),
        ensures
            want == match best {
                Some(b) => Some((b.0 as int, b.1 as int)),
                None => None,
            },
        decreases c.len() - idx,
    {
        let cand = candidates[idx];
        let note_time = cand.0;
        let is_unjudged = cand.1;
        let play_time = cand.2;
        let dmtime = note_time - press_time;
        if dmtime >= judge_end {
            break;
        }
        if dmtime < judge_start {
            idx = idx + 1;
            continue;
        }
        let should_select = match best {
            None => true,
            Some(b) => {
                let best_unjudged = candidates[b.0].1;
                !best_unjudged || algorithm.compare(b.2, note_time, is_unjudged, press_time, judge_table)
            },
        };
        if !should_select {
            idx = idx + 1;
            continue;
        }
        if miss_condition == MissCondition::One {
            let skip = if !is_unjudged {
                true
            } else if play_time != 0 {
                let w = judge_table[2];
                let lo: i64 = w[0];
                let hi: i64 = w[1];
                dmtime > hi || dmtime < lo
            } else {
                false
            };
            if skip {
                idx = idx + 1;
                continue;
            }
        }
        let judge = determine_note_judge(dmtime, is_unjudged, judge_table);
        if judge < 6 {
            let keep = if judge < 4 {
                true
            } else {
                match best {
                    None => true,
                    Some(b) => abs_i64(b.2 - press_time) > abs_i64(dmtime),
                }
            };
            if keep {
                best = Some((idx, judge, note_time));
            }
        } else {
            best = None;
        }
        idx = idx + 1;
    }
    match best {
        Some(b) => Some((b.0, b.1)),
        None => None,
    }
}

/// Pre-computed judge tables for a play session.
#[derive(Debug, Clone)]
pub struct JudgeTables {
    /// Normal note judge windows.
    pub note: Vec<[i64; 2]>,
    /// Long note end judge windows.
    pub ln_end: Vec<[i64; 2]>,
    /// Scratch note judge windows.
    pub scratch: Vec<[i64; 2]>,
    /// Scratch long note end judge windows.
    pub scratch_ln_end: Vec<[i64; 2]>,
    /// LN release margin in microseconds.
    pub note_release_margin: i64,
    /// Scratch LN release margin in microseconds.
    pub scratch_release_margin: i64,
    /// Overall minimum window start.
    pub judge_start: i64,
    /// Overall maximum window end.
    pub judge_end: i64,
}

/// The smallest late bound of the windows of `table` and 0.
pub open spec fn min_start(table: Seq<[i64; 2]>) -> int
    decreases table.len(),
{
    if table.len() == 0 {
        0
    } else {
        let m = min_start(table.drop_last());
        let v = table.last()@[0] as int;
        if v < m {
            v
        } else {
            m
        }
    }
}

/// The largest early bound of the windows of `table` and 0.
pub open spec fn max_end(table: Seq<[i64; 2]>) -> int
    decreases table.len(),
{
    if table.len() == 0 {
        0
    } else {
        let m = max_end(table.drop_last());
        let v = table.last()@[1] as int;
        if v > m {
            v
        } else {
            m
        }
    }
}

/// Whether two tables hold the same windows.
pub open spec fn same_windows(a: Seq<[i64; 2]>, b: Seq<Seq<int>>) -> bool {
    &&& a.len() == b.len()
    &&& forall|i: int, j: int| 0 <= i < a.len() && 0 <= j < 2 ==> a[i]@[j] == b[i][j]
}

/// Build the judge tables of a session: the four scaled window tables, the release
/// margins, and the smallest late bound and largest early bound over the note and
/// scratch tables (both taken with 0).
pub fn build_judge_tables(
    property: &JudgeProperty,
    judgerank: i32,
    key_rate: &[i32; 3],
    scratch_rate: &[i32; 3],
) -> (r: JudgeTables)
    requires
        property.judge_defined(JudgeNoteType::Note, judgerank as int, key_rate@),
        property.judge_defined(JudgeNoteType::LongNoteEnd, judgerank as int, key_rate@),
        property.judge_defined(JudgeNoteType::Scratch, judgerank as int, scratch_rate@),
        property.judge_defined(JudgeNoteType::LongScratchEnd, judgerank as int, scratch_rate@),
    ensures
        same_windows(r.note@, property.judge_of(JudgeNoteType::Note, judgerank as int, key_rate@)),
        same_windows(r.ln_end@, property.judge_of(JudgeNoteType::LongNoteEnd, judgerank as int, key_rate@)),
        same_windows(r.scratch@, property.judge_of(JudgeNoteType::Scratch, judgerank as int, scratch_rate@)),
        same_windows(
            r.scratch_ln_end@,
            property.judge_of(JudgeNoteType::LongScratchEnd, judgerank as int, scratch_rate@),
        ),
        r.note_release_margin == property.longnote_margin,
        r.scratch_release_margin == property.longscratch_margin,
        r.judge_start == min_start(r.note@ + r.scratch@),
        r.judge_end == max_end(r.note@ + r.scratch@),
{
    let note = property.get_judge(JudgeNoteType::Note, judgerank, key_rate);
    let ln_end = property.get_judge(JudgeNoteType::LongNoteEnd, judgerank, key_rate);
    let scratch = property.get_judge(JudgeNoteType::Scratch, judgerank, scratch_rate);
    let scratch_ln_end = property.get_judge(JudgeNoteType::LongScratchEnd, judgerank, scratch_rate);
    let ghost all = note@ + scratch@;
    let mut judge_start: i64 = 0;
    let mut judge_end: i64 = 0;
    let total = note.len() + scratch.len();
    let mut i: usize = 0;
    while i < total
        invariant
            all == note@ + scratch@,
            total == all.len(),
            i <= total,
            judge_start == min_start(all.take(i as int)),
            judge_end == max_end(all.take(i as int)),
        decreases total - i,
    {
        let w = if i < note.len() {
            note[i]
        } else {
            scratch[i - note.len()]
        };
        assert(w == all[i as int]);
        assert(all.take(i + 1).drop_last() == all.take(i as int));
        let lo: i64 = w[0];
        let hi: i64 = w[1];
        if lo < judge_start {
            judge_start = lo;
        }
        if hi > judge_end {
            judge_end = hi;
        }
        i = i + 1;
    }
    assert(all.take(total as int) == all);
    JudgeTables {
        note,
        ln_end,
        scratch,
        scratch_ln_end,
        note_release_margin: property.longnote_margin,
        scratch_release_margin: property.longscratch_margin,
        judge_start,
        judge_end,
    }
}

impl JudgeTables {
    /// The judge table of a lane.
    pub fn table_for_lane(&self, is_scratch: bool) -> (r: &[[i64; 2]])
        ensures
            r@ == if is_scratch {
                self.scratch@
            } else {
                self.note@
            },
    {
        if is_scratch {
            self.scratch.as_slice()
        } else {
            self.note.as_slice()
        }
    }

    /// The long note end judge table of a lane.
    pub fn ln_end_table_for_lane(&self, is_scratch: bool) -> (r: &[[i64; 2]])
        ensures
            r@ == if is_scratch {
                self.scratch_ln_end@
            } else {
                self.ln_end@
            },
    {
        if is_scratch {
            self.scratch_ln_end.as_slice()
        } else {
            self.ln_end.as_slice()
        }
    }

    /// The release margin of a lane.
    pub fn release_margin_for_lane(&self, is_scratch: bool) -> (r: i64)
        ensures
            r == if is_scratch {
                self.scratch_release_margin
            } else {
                self.note_release_margin
            },
    {
        if is_scratch {
            self.scratch_release_margin
        } else {
            self.note_release_margin
        }
    }
}

} // verus!
