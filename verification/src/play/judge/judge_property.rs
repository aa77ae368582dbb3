use vstd::prelude::*;

use crate::model::bms_model::{JudgeWindowRule, PlayerRuleType};
use crate::num::div_trunc;

verus! {

/// Note type for judge window lookup.
#[derive(Debug, Clone, Copy, PartialEq, Eq, Hash, Structural)]
pub enum JudgeNoteType {
    Note,
    LongNoteEnd,
    Scratch,
    LongScratchEnd,
}

/// Miss condition for judge.
#[derive(Debug, Clone, Copy, PartialEq, Eq, Hash, Structural)]
pub enum MissCondition {
    /// Miss is counted once per note.
    One,
    /// Miss is always counted.
    Always,
}

/// The windows of a table as sequences of their two bounds.
pub open spec fn bounds(table: Seq<[i64; 2]>) -> Seq<Seq<i64>> {
    table.map_values(|w: [i64; 2]| w@)
}

/// Judge property defining the judge windows of a play mode.
///
/// Each window is [late_min, early_max] in microseconds. Windows are indexed
/// [PG, GR, GD, BD, MS] for notes and scratches, and [PG, GR, GD, BD] for long note ends.
#[derive(Debug, Clone)]
pub struct JudgeProperty {
    /// Normal note judge windows.
    pub note: Vec<[i64; 2]>,
    /// Scratch note judge windows.
    pub scratch: Vec<[i64; 2]>,
    /// Long note end judge windows.
    pub longnote: Vec<[i64; 2]>,
    /// Long note margin in microseconds.
    pub longnote_margin: i64,
    /// Long scratch end judge windows.
    pub longscratch: Vec<[i64; 2]>,
    /// Long scratch margin in microseconds.
    pub longscratch_margin: i64,
    /// Combo continuation per judge level [PG, GR, GD, BD, PR, MS].
    pub combo: Vec<bool>,
    /// Miss condition.
    pub miss: MissCondition,
    /// Whether each judge level causes the note to vanish [PG, GR, GD, BD, PR, MS].
    pub judge_vanish: Vec<bool>,
    /// Judge window rule.
    pub window_rule: JudgeWindowRule,
}

impl JudgeProperty {
    /// Whether this is the judge property of the five-key modes.
    pub open spec fn is_fivekeys(self) -> bool {
        &&& bounds(self.note@) == seq![seq![-20000i64, 20000], seq![-50000i64, 50000], seq![-100000i64, 100000], seq![-150000i64, 150000], seq![-150000i64, 500000]]
        &&& bounds(self.scratch@) == seq![seq![-30000i64, 30000], seq![-60000i64, 60000], seq![-110000i64, 110000], seq![-160000i64, 160000], seq![-160000i64, 500000]]
        &&& bounds(self.longnote@) == seq![seq![-120000i64, 120000], seq![-150000i64, 150000], seq![-200000i64, 200000], seq![-250000i64, 250000]]
        &&& self.longnote_margin == 0
        &&& bounds(self.longscratch@) == seq![seq![-130000i64, 130000], seq![-160000i64, 160000], seq![-110000i64, 110000], seq![-260000i64, 260000]]
        &&& self.longscratch_margin == 0
        &&& self.combo@ == seq![true, true, true, false, false, false]
        &&& self.miss == MissCondition::Always
        &&& self.judge_vanish@ == seq![true, true, true, true, true, false]
        &&& self.window_rule.is_normal_rule()
    }

    /// Whether this is the judge property of the seven-key modes.
    pub open spec fn is_sevenkeys(self) -> bool {
        &&& bounds(self.note@) == seq![seq![-20000i64, 20000], seq![-60000i64, 60000], seq![-150000i64, 150000], seq![-280000i64, 220000], seq![-150000i64, 500000]]
        &&& bounds(self.scratch@) == seq![seq![-30000i64, 30000], seq![-70000i64, 70000], seq![-160000i64, 160000], seq![-290000i64, 230000], seq![-160000i64, 500000]]
        &&& bounds(self.longnote@) == seq![seq![-120000i64, 120000], seq![-160000i64, 160000], seq![-200000i64, 200000], seq![-280000i64, 220000]]
        &&& self.longnote_margin == 0
        &&& bounds(self.longscratch@) == seq![seq![-130000i64, 130000], seq![-170000i64, 170000], seq![-210000i64, 210000], seq![-290000i64, 230000]]
        &&& self.longscratch_margin == 0
        &&& self.combo@ == seq![true, true, true, false, false, true]
        &&& self.miss == MissCondition::Always
        &&& self.judge_vanish@ == seq![true, true, true, true, true, false]
        &&& self.window_rule.is_normal_rule()
    }

    /// Whether this is the judge property of the nine-button modes.
    pub open spec fn is_pms(self) -> bool {
        &&& bounds(self.note@) == seq![seq![-20000i64, 20000], seq![-50000i64, 50000], seq![-117000i64, 117000], seq![-183000i64, 183000], seq![-175000i64, 500000]]
        &&& bounds(self.scratch@) == Seq::<Seq<i64>>::empty()
        &&& bounds(self.longnote@) == seq![seq![-120000i64, 120000], seq![-150000i64, 150000], seq![-217000i64, 217000], seq![-283000i64, 283000]]
        &&& self.longnote_margin == 200000
        &&& bounds(self.longscratch@) == Seq::<Seq<i64>>::empty()
        &&& self.longscratch_margin == 0
        &&& self.combo@ == seq![true, true, true, false, false, false]
        &&& self.miss == MissCondition::One
        &&& self.judge_vanish@ == seq![true, true, true, false, true, false]
        &&& self.window_rule.is_pms_rule()
    }

    /// Whether this is the judge property of the keyboard modes.
    pub open spec fn is_keyboard(self) -> bool {
        &&& bounds(self.note@) == seq![seq![-30000i64, 30000], seq![-90000i64, 90000], seq![-200000i64, 200000], seq![-320000i64, 240000], seq![-200000i64, 650000]]
        &&& bounds(self.scratch@) == Seq::<Seq<i64>>::empty()
        &&& bounds(self.longnote@) == seq![seq![-160000i64, 25000], seq![-200000i64, 75000], seq![-260000i64, 140000], seq![-320000i64, 240000]]
        &&& self.longnote_margin == 0
        &&& bounds(self.longscratch@) == Seq::<Seq<i64>>::empty()
        &&& self.longscratch_margin == 0
        &&& self.combo@ == seq![true, true, true, false, false, true]
        &&& self.miss == MissCondition::Always
        &&& self.judge_vanish@ == seq![true, true, true, true, true, false]
        &&& self.window_rule.is_normal_rule()
    }

    /// Judge property of the five-key modes.
    pub fn fivekeys() -> (r: Self)
        ensures
            r.is_fivekeys(),
    {
        let r = JudgeProperty {
            note: vec![[-20000, 20000], [-50000, 50000], [-100000, 100000], [-150000, 150000], [-150000, 500000]],
            scratch: vec![[-30000, 30000], [-60000, 60000], [-110000, 110000], [-160000, 160000], [-160000, 500000]],
            longnote: vec![[-120000, 120000], [-150000, 150000], [-200000, 200000], [-250000, 250000]],
            longnote_margin: 0,
            longscratch: vec![[-130000, 130000], [-160000, 160000], [-110000, 110000], [-260000, 260000]],
            longscratch_margin: 0,
            combo: vec![true, true, true, false, false, false],
            miss: MissCondition::Always,
            judge_vanish: vec![true, true, true, true, true, false],
            window_rule: JudgeWindowRule::normal(),
        };
        assert(bounds(r.note@) =~~= seq![seq![-20000i64, 20000], seq![-50000i64, 50000], seq![-100000i64, 100000], seq![-150000i64, 150000], seq![-150000i64, 500000]]);
        assert(bounds(r.scratch@) =~~= seq![seq![-30000i64, 30000], seq![-60000i64, 60000], seq![-110000i64, 110000], seq![-160000i64, 160000], seq![-160000i64, 500000]]);
        assert(bounds(r.longnote@) =~~= seq![seq![-120000i64, 120000], seq![-150000i64, 150000], seq![-200000i64, 200000], seq![-250000i64, 250000]]);
        assert(bounds(r.longscratch@) =~~= seq![seq![-130000i64, 130000], seq![-160000i64, 160000], seq![-110000i64, 110000], seq![-260000i64, 260000]]);
        r
    }

    /// Judge property of the seven-key modes.
    pub fn sevenkeys() -> (r: Self)
        ensures
            r.is_sevenkeys(),
    {
        let r = JudgeProperty {
            note: vec![[-20000, 20000], [-60000, 60000], [-150000, 150000], [-280000, 220000], [-150000, 500000]],
            scratch: vec![[-30000, 30000], [-70000, 70000], [-160000, 160000], [-290000, 230000], [-160000, 500000]],
            longnote: vec![[-120000, 120000], [-160000, 160000], [-200000, 200000], [-280000, 220000]],
            longnote_margin: 0,
            longscratch: vec![[-130000, 130000], [-170000, 170000], [-210000, 210000], [-290000, 230000]],
            longscratch_margin: 0,
            combo: vec![true, true, true, false, false, true],
            miss: MissCondition::Always,
            judge_vanish: vec![true, true, true, true, true, false],
            window_rule: JudgeWindowRule::normal(),
        };
        assert(bounds(r.note@) =~~= seq![seq![-20000i64, 20000], seq![-60000i64, 60000], seq![-150000i64, 150000], seq![-280000i64, 220000], seq![-150000i64, 500000]]);
        assert(bounds(r.scratch@) =~~= seq![seq![-30000i64, 30000], seq![-70000i64, 70000], seq![-160000i64, 160000], seq![-290000i64, 230000], seq![-160000i64, 500000]]);
        assert(bounds(r.longnote@) =~~= seq![seq![-120000i64, 120000], seq![-160000i64, 160000], seq![-200000i64, 200000], seq![-280000i64, 220000]]);
        assert(bounds(r.longscratch@) =~~= seq![seq![-130000i64, 130000], seq![-170000i64, 170000], seq![-210000i64, 210000], seq![-290000i64, 230000]]);
        r
    }

    /// Judge property of the nine-button modes.
    pub fn pms() -> (r: Self)
        ensures
            r.is_pms(),
    {
        let r = JudgeProperty {
            note: vec![[-20000, 20000], [-50000, 50000], [-117000, 117000], [-183000, 183000], [-175000, 500000]],
            scratch: Vec::new(),
            longnote: vec![[-120000, 120000], [-150000, 150000], [-217000, 217000], [-283000, 283000]],
            longnote_margin: 200000,
            longscratch: Vec::new(),
            longscratch_margin: 0,
            combo: vec![true, true, true, false, false, false],
            miss: MissCondition::One,
            judge_vanish: vec![true, true, true, false, true, false],
            window_rule: JudgeWindowRule::pms(),
        };
        assert(bounds(r.note@) =~~= seq![seq![-20000i64, 20000], seq![-50000i64, 50000], seq![-117000i64, 117000], seq![-183000i64, 183000], seq![-175000i64, 500000]]);
        assert(bounds(r.scratch@) =~~= Seq::<Seq<i64>>::empty());
        assert(bounds(r.longnote@) =~~= seq![seq![-120000i64, 120000], seq![-150000i64, 150000], seq![-217000i64, 217000], seq![-283000i64, 283000]]);
        assert(bounds(r.longscratch@) =~~= Seq::<Seq<i64>>::empty());
        r
    }

    /// Judge property of the keyboard modes.
    pub fn keyboard() -> (r: Self)
        ensures
            r.is_keyboard(),
    {
        let r = JudgeProperty {
            note: vec![[-30000, 30000], [-90000, 90000], [-200000, 200000], [-320000, 240000], [-200000, 650000]],
            scratch: Vec::new(),
            longnote: vec![[-160000, 25000], [-200000, 75000], [-260000, 140000], [-320000, 240000]],
            longnote_margin: 0,
            longscratch: Vec::new(),
            longscratch_margin: 0,
            combo: vec![true, true, true, false, false, true],
            miss: MissCondition::Always,
            judge_vanish: vec![true, true, true, true, true, false],
            window_rule: JudgeWindowRule::normal(),
        };
        assert(bounds(r.note@) =~~= seq![seq![-30000i64, 30000], seq![-90000i64, 90000], seq![-200000i64, 200000], seq![-320000i64, 240000], seq![-200000i64, 650000]]);
        assert(bounds(r.scratch@) =~~= Seq::<Seq<i64>>::empty());
        assert(bounds(r.longnote@) =~~= seq![seq![-160000i64, 25000], seq![-200000i64, 75000], seq![-260000i64, 140000], seq![-320000i64, 240000]]);
        assert(bounds(r.longscratch@) =~~= Seq::<Seq<i64>>::empty());
        r
    }


    /// The base windows of a note type.
    pub open spec fn base_of(self, note_type: JudgeNoteType) -> Seq<[i64; 2]> {
        match note_type {
            JudgeNoteType::Note => self.note@,
            JudgeNoteType::LongNoteEnd => self.longnote@,
            JudgeNoteType::Scratch => self.scratch@,
            JudgeNoteType::LongScratchEnd => self.longscratch@,
        }
    }

    /// The scaled windows of a note type, in microseconds.
    pub open spec fn judge_of(
        self,
        note_type: JudgeNoteType,
        judgerank: int,
        rate: Seq<i32>,
    ) -> Seq<Seq<int>> {
        let base = self.base_of(note_type);
        Seq::new(
            base.len(),
            |i: int| seq![
                self.window_rule.rated(base, judgerank, rate, i, 0),
                self.window_rule.rated(base, judgerank, rate, i, 1),
            ],
        )
    }

    /// Whether the windows of a note type can be scaled with these parameters without
    /// overflow.
    pub open spec fn judge_defined(self, note_type: JudgeNoteType, judgerank: int, rate: Seq<i32>) -> bool {
        self.window_rule.create_defined(self.base_of(note_type), judgerank, rate)
    }

    /// Get the base windows for a given note type.
    fn base_windows(&self, note_type: JudgeNoteType) -> (r: &Vec<[i64; 2]>)
        ensures
            r@ == self.base_of(note_type),
    {
        match note_type {
            JudgeNoteType::Note => &self.note,
            JudgeNoteType::LongNoteEnd => &self.longnote,
            JudgeNoteType::Scratch => &self.scratch,
            JudgeNoteType::LongScratchEnd => &self.longscratch,
        }
    }

    /// Get scaled judge windows for a note type in microseconds.
    pub fn get_judge(&self, note_type: JudgeNoteType, judgerank: i32, judge_window_rate: &[i32; 3]) -> (r:
        Vec<[i64; 2]>)
        requires
            self.judge_defined(note_type, judgerank as int, judge_window_rate@),
        ensures
            r@.len() == self.base_of(note_type).len(),
            forall|i: int, j: int|
                0 <= i < r@.len() && 0 <= j < 2 ==> r@[i]@[j] == self.judge_of(
                    note_type,
                    judgerank as int,
                    judge_window_rate@,
                )[i][j],
    {
        let base = self.base_windows(note_type);
        self.window_rule.create(base.as_slice(), judgerank, judge_window_rate)
    }

    /// The windows of a note type in milliseconds (each bound divided by 1000, rounding
    /// toward zero, and truncated to 32 bits).
    pub open spec fn judge_ms_of(
        self,
        note_type: JudgeNoteType,
        judgerank: int,
        rate: Seq<i32>,
    ) -> Seq<Seq<i32>> {
        let us = self.judge_of(note_type, judgerank, rate);
        Seq::new(
            us.len(),
            |i: int| seq![div_trunc(us[i][0], 1000) as i32, div_trunc(us[i][1], 1000) as i32],
        )
    }

    /// Get scaled judge windows for notes in milliseconds.
    pub fn get_note_judge_ms(&self, judgerank: i32, judge_window_rate: &[i32; 3]) -> (r: Vec<[i32; 2]>)
        requires
            self.judge_defined(JudgeNoteType::Note, judgerank as int, judge_window_rate@),
        ensures
            bounds32(r@) == self.judge_ms_of(JudgeNoteType::Note, judgerank as int, judge_window_rate@),
    {
        self.judge_ms(JudgeNoteType::Note, judgerank, judge_window_rate)
    }

    /// Get scaled judge windows for long note ends in milliseconds.
    pub fn get_long_note_end_judge_ms(&self, judgerank: i32, judge_window_rate: &[i32; 3]) -> (r: Vec<
        [i32; 2],
    >)
        requires
            self.judge_defined(JudgeNoteType::LongNoteEnd, judgerank as int, judge_window_rate@),
        ensures
            bounds32(r@) == self.judge_ms_of(
                JudgeNoteType::LongNoteEnd,
                judgerank as int,
                judge_window_rate@,
            ),
    {
        self.judge_ms(JudgeNoteType::LongNoteEnd, judgerank, judge_window_rate)
    }

    /// Get scaled judge windows for scratch notes in milliseconds.
    pub fn get_scratch_judge_ms(&self, judgerank: i32, judge_window_rate: &[i32; 3]) -> (r: Vec<[i32; 2]>)
        requires
            self.judge_defined(JudgeNoteType::Scratch, judgerank as int, judge_window_rate@),
        ensures
            bounds32(r@) == self.judge_ms_of(JudgeNoteType::Scratch, judgerank as int, judge_window_rate@),
    {
        self.judge_ms(JudgeNoteType::Scratch, judgerank, judge_window_rate)
    }

    /// Get scaled judge windows for long scratch ends in milliseconds.
    pub fn get_long_scratch_end_judge_ms(&self, judgerank: i32, judge_window_rate: &[i32; 3]) -> (r:
        Vec<[i32; 2]>)
        requires
            self.judge_defined(JudgeNoteType::LongScratchEnd, judgerank as int, judge_window_rate@),
        ensures
            bounds32(r@) == self.judge_ms_of(
                JudgeNoteType::LongScratchEnd,
                judgerank as int,
                judge_window_rate@,
            ),
    {
        self.judge_ms(JudgeNoteType::LongScratchEnd, judgerank, judge_window_rate)
    }

    /// Scaled windows of a note type in milliseconds.
    fn judge_ms(&self, note_type: JudgeNoteType, judgerank: i32, judge_window_rate: &[i32; 3]) -> (r: Vec<
        [i32; 2],
    >)
        requires
            self.judge_defined(note_type, judgerank as int, judge_window_rate@),
        ensures
            bounds32(r@) == self.judge_ms_of(note_type, judgerank as int, judge_window_rate@),
    {
        let us = self.get_judge(note_type, judgerank, judge_window_rate);
        let r = Self::convert_to_ms(&us);
        let ghost want = self.judge_ms_of(note_type, judgerank as int, judge_window_rate@);
        assert forall|i: int| 0 <= i < r@.len() implies bounds32(r@)[i] =~= want[i] by {
            assert(r@[i]@[0] == want[i][0]);
            assert(r@[i]@[1] == want[i][1]);
        }
        assert(bounds32(r@) =~= want);
        r
    }

    /// Convert microsecond windows to milliseconds.
    fn convert_to_ms(judge: &Vec<[i64; 2]>) -> (r: Vec<[i32; 2]>)
        ensures
            r@.len() == judge@.len(),
            forall|i: int, j: int|
                0 <= i < judge@.len() && 0 <= j < 2 ==> r@[i]@[j] == div_trunc(judge@[i]@[j] as int, 1000) as i32,
    {
        let mut out: Vec<[i32; 2]> = Vec::new();
        let mut i: usize = 0;
        while i < judge.len()
            invariant
                i <= judge@.len(),
                out@.len() == i,
                forall|k: int, j: int|
                    0 <= k < i && 0 <= j < 2 ==> out@[k]@[j] == div_trunc(judge@[k]@[j] as int, 1000) as i32,
            decreases judge@.len() - i,
        {
            let w = judge[i];
            let a: i64 = w[0];
            let b: i64 = w[1];
            out.push([(a / 1000) as i32, (b / 1000) as i32]);
            i = i + 1;
        }
        out
    }

    /// The judge property of a player rule family.
    pub fn from_rule_type(rule_type: PlayerRuleType) -> (r: Self)
        ensures
            match rule_type {
                PlayerRuleType::FiveKeys => r.is_fivekeys(),
                PlayerRuleType::SevenKeys => r.is_sevenkeys(),
                PlayerRuleType::Pms => r.is_pms(),
                PlayerRuleType::Keyboard => r.is_keyboard(),
            },
    {
        match rule_type {
            PlayerRuleType::FiveKeys => Self::fivekeys(),
            PlayerRuleType::SevenKeys => Self::sevenkeys(),
            PlayerRuleType::Pms => Self::pms(),
            PlayerRuleType::Keyboard => Self::keyboard(),
        }
    }
}

/// The windows of a millisecond table as sequences of their two bounds.
pub open spec fn bounds32(table: Seq<[i32; 2]>) -> Seq<Seq<i32>> {
    table.map_values(|w: [i32; 2]| w@)
}

} // verus!
