use vstd::prelude::*;

use super::note::{JudgeRankType, Note, NoteType, PlayMode};
use crate::num::{abs, abs_i64, div_trunc};

verus! {

/// Stop event (scroll halt).
#[derive(Debug, Clone, Copy, PartialEq, Eq, Structural)]
pub struct StopEvent {
    /// Time in microseconds from song start.
    pub time_us: i64,
    /// Duration of stop in microseconds.
    pub duration_us: i64,
}

/// WAV definition from the chart header.
#[derive(Debug, Clone, PartialEq, Eq)]
pub struct WavDef {
    /// Object ID.
    pub id: u32,
    /// Relative file path to the audio file.
    pub path: String,
}

/// BMP definition from the chart header.
#[derive(Debug, Clone, PartialEq, Eq)]
pub struct BmpDef {
    /// Object ID.
    pub id: u32,
    /// Relative file path to the image/video file.
    pub path: String,
}

/// BGA (background animation) event.
#[derive(Debug, Clone, Copy, PartialEq, Eq, Structural)]
pub struct BgaEvent {
    /// Time in microseconds from song start.
    pub time_us: i64,
    /// BMP object ID.
    pub bmp_id: u32,
    /// BGA layer (0=base, 1=layer, 2=poor).
    pub layer: u32,
}

/// BGM (background music) auto-play event.
#[derive(Debug, Clone, Copy, PartialEq, Eq, Structural)]
pub struct BgmEvent {
    /// Time in microseconds from song start.
    pub time_us: i64,
    /// WAV object ID.
    pub wav_id: u32,
}

/// Judge window rule per mode.
#[derive(Debug, Clone, Copy, PartialEq, Eq)]
pub struct JudgeWindowRule {
    /// Judge rank values: [VERYHARD, HARD, NORMAL, EASY, VERYEASY].
    pub judge_rank: [i32; 5],
    /// Whether each judge window is fixed (not scaled by the judge rank).
    pub fix_judge: [bool; 5],
}

impl JudgeWindowRule {
    /// Whether this is the rule of the beat and keyboard modes.
    pub open spec fn is_normal_rule(self) -> bool {
        &&& self.judge_rank@ == seq![25i32, 50, 75, 100, 125]
        &&& self.fix_judge@ == seq![false, false, false, false, true]
    }

    /// Whether this is the rule of the nine-button mode.
    pub open spec fn is_pms_rule(self) -> bool {
        &&& self.judge_rank@ == seq![33i32, 50, 70, 100, 133]
        &&& self.fix_judge@ == seq![true, false, false, true, true]
    }

    /// The rule of the beat and keyboard modes.
    pub fn normal() -> (r: Self)
        ensures
            r.is_normal_rule(),
    {
        JudgeWindowRule { judge_rank: [25, 50, 75, 100, 125], fix_judge: [false, false, false, false, true] }
    }

    /// The rule of the nine-button mode.
    pub fn pms() -> (r: Self)
        ensures
            r.is_pms_rule(),
    {
        JudgeWindowRule { judge_rank: [33, 50, 70, 100, 133], fix_judge: [true, false, false, true, true] }
    }

    /// Window bound `j` of window `i` after scaling by the judge rank (fixed windows keep
    /// their base value).
    pub open spec fn scaled(self, org: Seq<[i64; 2]>, judgerank: int, i: int, j: int) -> int {
        if self.fix_judge@[i] {
            org[i]@[j] as int
        } else {
            div_trunc(org[i]@[j] * judgerank, 100)
        }
    }

    /// The nearest fixed window before window `i`.
    pub open spec fn fixed_below(self, i: int) -> Option<int>
        decreases i,
    {
        if i <= 0 {
            None
        } else if self.fix_judge@[i - 1] {
            Some(i - 1)
        } else {
            self.fixed_below(i - 1)
        }
    }

    /// The nearest fixed window after window `i` among the first four.
    pub open spec fn fixed_above(self, i: int) -> Option<int>
        decreases 4 - i,
    {
        if i + 1 >= 4 {
            None
        } else if self.fix_judge@[i + 1] {
            Some(i + 1)
        } else {
            self.fixed_above(i + 1)
        }
    }

    /// Window bound after the scaled value of a free window among the first four has been
    /// kept between its nearest fixed neighbours.
    pub open spec fn clamped(self, org: Seq<[i64; 2]>, judgerank: int, i: int, j: int) -> int {
        let v = self.scaled(org, judgerank, i, j);
        if i >= 4 || self.fix_judge@[i] {
            v
        } else {
            let v1 = match self.fixed_below(i) {
                Some(k) => if abs(v) < abs(self.scaled(org, judgerank, k, j)) {
                    self.scaled(org, judgerank, k, j)
                } else {
                    v
                },
                None => v,
            };
            match self.fixed_above(i) {
                Some(k) => if k < org.len() && abs(v1) > abs(self.scaled(org, judgerank, k, j)) {
                    self.scaled(org, judgerank, k, j)
                } else {
                    v1
                },
                None => v1,
            }
        }
    }

    /// Final window bound: the first three windows are scaled by their rate, kept no
    /// wider than the fourth window (where there is one) and no narrower than the window
    /// before them.
    pub open spec fn rated(
        self,
        org: Seq<[i64; 2]>,
        judgerank: int,
        rate: Seq<i32>,
        i: int,
        j: int,
    ) -> int
        decreases i,
    {
        if i < 0 || i >= 3 {
            self.clamped(org, judgerank, i, j)
        } else {
            let t = div_trunc(self.clamped(org, judgerank, i, j) * rate[i], 100);
            let bd = self.clamped(org, judgerank, 3, j);
            let t1 = if org.len() > 3 && abs(t) > abs(bd) {
                bd
            } else {
                t
            };
            if i > 0 && abs(t1) < abs(self.rated(org, judgerank, rate, i - 1, j)) {
                self.rated(org, judgerank, rate, i - 1, j)
            } else {
                t1
            }
        }
    }

    /// The inputs on which `create` neither overflows nor reads past the five windows
    /// that the rule describes.
    pub open spec fn create_defined(self, org: Seq<[i64; 2]>, judgerank: int, rate: Seq<i32>) -> bool {
        &&& org.len() <= 5
        &&& forall|i: int, j: int|
            0 <= i < org.len() && 0 <= j < 2 ==> {
                &&& org[i]@[j] > i64::MIN
                &&& !self.fix_judge@[i] ==> abs(org[i]@[j] * judgerank) <= i64::MAX
            }
        &&& forall|i: int, j: int|
            0 <= i < 3 && i < org.len() && 0 <= j < 2 ==> abs(
                self.clamped(org, judgerank, i, j) * rate[i],
            ) <= i64::MAX
    }

    proof fn lemma_fixed_below_range(self, i: int)
        ensures
            self.fixed_below(i) matches Some(k) ==> 0 <= k < i && self.fix_judge@[k],
        decreases i,
    {
        if i > 0 && !self.fix_judge@[i - 1] {
            self.lemma_fixed_below_range(i - 1);
        }
    }

    proof fn lemma_fixed_above_range(self, i: int)
        ensures
            self.fixed_above(i) matches Some(k) ==> i < k < 4 && self.fix_judge@[k],
        decreases 4 - i,
    {
        if i + 1 < 4 && !self.fix_judge@[i + 1] {
            self.lemma_fixed_above_range(i + 1);
        }
    }

    proof fn lemma_scaled_bound(self, org: Seq<[i64; 2]>, judgerank: int, rate: Seq<i32>, i: int, j: int)
        requires
            self.create_defined(org, judgerank, rate),
            0 <= i < org.len(),
            0 <= j < 2,
        ensures
            abs(self.scaled(org, judgerank, i, j)) <= i64::MAX,
    {
        let x = org[i]@[j];
        assert(x > i64::MIN);
        if !self.fix_judge@[i] {
            assert(abs(x * judgerank) <= i64::MAX);
        }
    }

    proof fn lemma_clamped_bound(self, org: Seq<[i64; 2]>, judgerank: int, rate: Seq<i32>, i: int, j: int)
        requires
            self.create_defined(org, judgerank, rate),
            0 <= i < org.len(),
            0 <= j < 2,
        ensures
            abs(self.clamped(org, judgerank, i, j)) <= i64::MAX,
    {
        self.lemma_scaled_bound(org, judgerank, rate, i, j);
        self.lemma_fixed_below_range(i);
        self.lemma_fixed_above_range(i);
        if let Some(k) = self.fixed_below(i) {
            self.lemma_scaled_bound(org, judgerank, rate, k, j);
        }
        if let Some(k) = self.fixed_above(i) {
            if i < 4 && k < org.len() {
                self.lemma_scaled_bound(org, judgerank, rate, k, j);
            }
        }
    }

    proof fn lemma_rated_bound(self, org: Seq<[i64; 2]>, judgerank: int, rate: Seq<i32>, i: int, j: int)
        requires
            self.create_defined(org, judgerank, rate),
            0 <= i < org.len(),
            0 <= j < 2,
        ensures
            abs(self.rated(org, judgerank, rate, i, j)) <= i64::MAX,
        decreases i,
    {
        self.lemma_clamped_bound(org, judgerank, rate, i, j);
        if i < 3 {
            if org.len() > 3 {
                self.lemma_clamped_bound(org, judgerank, rate, 3, j);
            }
            assert(abs(self.clamped(org, judgerank, i, j) * rate[i]) <= i64::MAX);
            if i > 0 {
                self.lemma_rated_bound(org, judgerank, rate, i - 1, j);
            }
        }
    }

    proof fn lemma_rated_within_bd(self, org: Seq<[i64; 2]>, judgerank: int, rate: Seq<i32>, i: int, j: int)
        requires
            0 <= i < 3,
            org.len() > 3,
        ensures
            abs(self.rated(org, judgerank, rate, i, j)) <= abs(self.clamped(org, judgerank, 3, j)),
        decreases i,
    {
        if i > 0 {
            self.lemma_rated_within_bd(org, judgerank, rate, i - 1, j);
        }
    }

    /// The windows that `create` gives are nested at each end: PG is no wider than GR,
    /// GR no wider than GD, and GD no wider than BD, as far as the base has those windows.
    pub proof fn lemma_windows_nested(self, org: Seq<[i64; 2]>, judgerank: int, rate: Seq<i32>, j: int)
        ensures
            forall|i: int|
                1 <= i <= 3 && i < org.len() ==> abs(self.rated(org, judgerank, rate, i - 1, j))
                    <= abs(#[trigger] self.rated(org, judgerank, rate, i, j)),
    {
        assert forall|i: int| 1 <= i <= 3 && i < org.len() implies abs(
            self.rated(org, judgerank, rate, i - 1, j),
        ) <= abs(#[trigger] self.rated(org, judgerank, rate, i, j)) by {
            if i == 3 {
                self.lemma_rated_within_bd(org, judgerank, rate, 2, j);
            }
        }
    }

    /// Step two of `create` for one bound of window `i`.
    fn clamp_bound(
        &self,
        judge: &Vec<[i64; 2]>,
        Ghost(org): Ghost<Seq<[i64; 2]>>,
        Ghost(jr): Ghost<int>,
        Ghost(rate): Ghost<Seq<i32>>,
        i: usize,
        fixmin: Option<usize>,
        fixmax: Option<usize>,
        j: usize,
    ) -> (r: i64)
        requires
            self.create_defined(org, jr, rate),
            judge@.len() == org.len(),
            i < 4,
            i < org.len(),
            j < 2,
            !self.fix_judge@[i as int],
            match fixmin {
                Some(k) => self.fixed_below(i as int) == Some(k as int),
                None => self.fixed_below(i as int) is None,
            },
            match fixmax {
                Some(k) => self.fixed_above(i as int) == Some(k as int),
                None => self.fixed_above(i as int) is None,
            },
            forall|k: int, jj: int|
                0 <= k < i && 0 <= jj < 2 ==> judge@[k]@[jj] == self.clamped(org, jr, k, jj),
            forall|k: int, jj: int|
                i <= k < judge@.len() && 0 <= jj < 2 ==> judge@[k]@[jj] == self.scaled(org, jr, k, jj),
        ensures
            r == self.clamped(org, jr, i as int, j as int),
    {
        proof {
            self.lemma_fixed_below_range(i as int);
            self.lemma_fixed_above_range(i as int);
            self.lemma_scaled_bound(org, jr, rate, i as int, j as int);
            if let Some(k) = self.fixed_below(i as int) {
                self.lemma_scaled_bound(org, jr, rate, k, j as int);
            }
            if let Some(k) = self.fixed_above(i as int) {
                if k < org.len() {
                    self.lemma_scaled_bound(org, jr, rate, k, j as int);
                }
            }
        }
        let wi = judge[i];
        let mut v: i64 = wi[j];
        assert(v == self.scaled(org, jr, i as int, j as int));
        if let Some(fm) = fixmin {
            let wl = judge[fm];
            let lo: i64 = wl[j];
            assert(judge@[fm as int]@[j as int] == self.clamped(org, jr, fm as int, j as int));
            assert(lo == self.scaled(org, jr, fm as int, j as int));
            if abs_i64(v) < abs_i64(lo) {
                v = lo;
            }
        }
        if let Some(fm) = fixmax {
            if fm < judge.len() {
                let wh = judge[fm];
                let hi: i64 = wh[j];
                assert(hi == self.scaled(org, jr, fm as int, j as int));
                if abs_i64(v) > abs_i64(hi) {
                    v = hi;
                }
            }
        }
        v
    }

    /// Create scaled judge windows from base windows, a judge rank value and the
    /// per-window rate of the first three windows (percent). The result is as long as the
    /// base; a window that the base lacks (a short base) takes part in no comparison.
    pub fn create(&self, org: &[[i64; 2]], judgerank: i32, judge_window_rate: &[i32; 3]) -> (r: Vec<
        [i64; 2],
    >)
        requires
            self.create_defined(org@, judgerank as int, judge_window_rate@),
        ensures
            r@.len() == org@.len(),
            forall|i: int, j: int|
                0 <= i < org@.len() && 0 <= j < 2 ==> r@[i]@[j] == self.rated(
                    org@,
                    judgerank as int,
                    judge_window_rate@,
                    i,
                    j,
                ),
    {
        let len = org.len();
        let ghost jr = judgerank as int;
        let ghost rate = judge_window_rate@;
        let mut judge: Vec<[i64; 2]> = Vec::new();
        // Step 1: scale by the judge rank, except fixed windows.
        let mut i: usize = 0;
        while i < len
            invariant
                len == org@.len(),
                jr == judgerank as int,
                self.create_defined(org@, jr, rate),
                i <= len,
                judge@.len() == i,
                forall|k: int, j: int|
                    0 <= k < i && 0 <= j < 2 ==> judge@[k]@[j] == self.scaled(org@, jr, k, j),
            decreases len - i,
        {
            let w = org[i];
            assert(w@[0] == org@[i as int]@[0] && w@[1] == org@[i as int]@[1]);
            let fixed = self.fix_judge[i];
            assert(org@[i as int]@[0] > i64::MIN && org@[i as int]@[1] > i64::MIN);
            assert(!fixed ==> abs(org@[i as int]@[0] * jr) <= i64::MAX);
            assert(!fixed ==> abs(org@[i as int]@[1] * jr) <= i64::MAX);
            let x0: i64 = w[0];
            let x1: i64 = w[1];
            assert(x0 == org@[i as int]@[0] && x1 == org@[i as int]@[1]);
            let jr64: i64 = judgerank as i64;
            assert(x0 * jr64 == org@[i as int]@[0] * jr) by (nonlinear_arith)
                requires
                    x0 == org@[i as int]@[0],
                    jr64 == jr,
            ;
            assert(x1 * jr64 == org@[i as int]@[1] * jr) by (nonlinear_arith)
                requires
                    x1 == org@[i as int]@[1],
                    jr64 == jr,
            ;
            let a = if fixed {
                x0
            } else {
                x0 * jr64 / 100
            };
            let b = if fixed {
                x1
            } else {
                x1 * jr64 / 100
            };
            judge.push([a, b]);
            i = i + 1;
        }
        // Step 2: keep free windows between the nearest fixed windows.
        let clamp_len = if len < 4 {
            len
        } else {
            4
        };
        let mut fixmin: Option<usize> = None;
        let mut i: usize = 0;
        while i < clamp_len
            invariant
                len == org@.len(),
                self.create_defined(org@, jr, rate),
                clamp_len == if len < 4 { len } else { 4 },
                i <= clamp_len,
                judge@.len() == len,
                match fixmin {
                    Some(k) => self.fixed_below(i as int) == Some(k as int),
                    None => self.fixed_below(i as int) is None,
                },
                forall|k: int, j: int|
                    0 <= k < i && 0 <= j < 2 ==> judge@[k]@[j] == self.clamped(org@, jr, k, j),
                forall|k: int, j: int|
                    i <= k < len && 0 <= j < 2 ==> judge@[k]@[j] == self.scaled(org@, jr, k, j),
            decreases clamp_len - i,
        {
            if self.fix_judge[i] {
                fixmin = Some(i);
                i = i + 1;
            } else {
                let mut fixmax: Option<usize> = None;
                let mut m: usize = i + 1;
                while m < 4
                    invariant_except_break
                        i < m <= 4,
                        fixmax is None,
                        self.fixed_above(i as int) == self.fixed_above(m as int - 1),
                    ensures
                        match fixmax {
                            Some(k) => self.fixed_above(i as int) == Some(k as int),
                            None => self.fixed_above(i as int) is None,
                        },
                    decreases 4 - m,
                {
                    if self.fix_judge[m] {
                        fixmax = Some(m);
                        break;
                    }
                    m = m + 1;
                }
                assert(match fixmax {
                    Some(k) => self.fixed_above(i as int) == Some(k as int),
                    None => self.fixed_above(i as int) is None,
                });
                proof {
                    self.lemma_fixed_below_range(i as int);
                    self.lemma_fixed_above_range(i as int);
                }
                let a = self.clamp_bound(&judge, Ghost(org@), Ghost(jr), Ghost(rate), i, fixmin, fixmax, 0);
                let b = self.clamp_bound(&judge, Ghost(org@), Ghost(jr), Ghost(rate), i, fixmin, fixmax, 1);
                let out: [i64; 2] = [a, b];
                judge.set(i, out);
                i = i + 1;
            }
        }
        // Step 3: per-window rate for the first three windows.
        let rate_len = if len < 3 {
            len
        } else {
            3
        };
        let mut i: usize = 0;
        while i < rate_len
            invariant
                len == org@.len(),
                self.create_defined(org@, jr, rate),
                rate == judge_window_rate@,
                rate_len == if len < 3 { len } else { 3 },
                i <= rate_len,
                judge@.len() == len,
                forall|k: int, j: int|
                    0 <= k < i && 0 <= j < 2 ==> judge@[k]@[j] == self.rated(org@, jr, rate, k, j),
                forall|k: int, j: int|
                    i <= k < len && 0 <= j < 2 ==> judge@[k]@[j] == self.clamped(org@, jr, k, j),
            decreases rate_len - i,
        {
            let cur = judge[i];
            let mut out: [i64; 2] = cur;
            let mut j: usize = 0;
            while j < 2
                invariant
                    len == org@.len(),
                    len <= 5,
                    i < 3,
                    i < len,
                    rate == judge_window_rate@,
                    judge@.len() == len,
                    self.create_defined(org@, jr, rate),
                    forall|k: int, jj: int|
                        0 <= k < i && 0 <= jj < 2 ==> judge@[k]@[jj] == self.rated(
                            org@,
                            jr,
                            rate,
                            k,
                            jj,
                        ),
                    forall|k: int, jj: int|
                        i <= k < len && 0 <= jj < 2 ==> judge@[k]@[jj] == self.clamped(
                            org@,
                            jr,
                            k,
                            jj,
                        ),
                    j <= 2,
                    forall|jj: int| 0 <= jj < j ==> out@[jj] == self.rated(org@, jr, rate, i as int, jj),
                    forall|jj: int| j <= jj < 2 ==> out@[jj] == self.clamped(org@, jr, i as int, jj),
                decreases 2 - j,
            {
                proof {
                    if len > 3 {
                        self.lemma_clamped_bound(org@, jr, rate, 3, j as int);
                    }
                    assert(abs(self.clamped(org@, jr, i as int, j as int) * rate[i as int]) <= i64::MAX);
                    if i > 0 {
                        self.lemma_rated_bound(org@, jr, rate, i - 1, j as int);
                    }
                }
                let mut v = out[j] * (judge_window_rate[i] as i64) / 100;
                if len > 3 {
                    let bd = judge[3][j];
                    if abs_i64(v) > abs_i64(bd) {
                        v = bd;
                    }
                }
                if i > 0 {
                    let prev = judge[i - 1][j];
                    if abs_i64(v) < abs_i64(prev) {
                        v = prev;
                    }
                }
                out[j] = v;
                j = j + 1;
            }
            judge.set(i, out);
            i = i + 1;
        }
        judge
    }
}

/// Player rule family of a mode.
#[derive(Debug, Clone, Copy, PartialEq, Eq, Structural)]
pub enum PlayerRuleType {
    FiveKeys,
    SevenKeys,
    Pms,
    Keyboard,
}

/// Player rule: its family and its judge window rule.
#[derive(Debug, Clone, Copy, PartialEq, Eq)]
pub struct PlayerRule {
    pub rule_type: PlayerRuleType,
    pub judge_window_rule: JudgeWindowRule,
}

/// The player rule family of a mode.
pub open spec fn rule_type_of(mode: PlayMode) -> PlayerRuleType {
    match mode {
        PlayMode::Beat5K | PlayMode::Beat10K => PlayerRuleType::FiveKeys,
        PlayMode::Beat7K | PlayMode::Beat14K => PlayerRuleType::SevenKeys,
        PlayMode::PopN9K => PlayerRuleType::Pms,
        PlayMode::Keyboard24K | PlayMode::Keyboard24KDouble => PlayerRuleType::Keyboard,
    }
}

/// The judge ranks [VERYHARD, HARD, NORMAL, EASY, VERYEASY] of a mode's rule.
pub open spec fn judge_ranks_of(mode: PlayMode) -> Seq<i32> {
    if mode is PopN9K {
        seq![33i32, 50, 70, 100, 133]
    } else {
        seq![25i32, 50, 75, 100, 125]
    }
}

/// The fixed windows of a mode's rule.
pub open spec fn fixed_windows_of(mode: PlayMode) -> Seq<bool> {
    if mode is PopN9K {
        seq![true, false, false, true, true]
    } else {
        seq![false, false, false, false, true]
    }
}

impl PlayerRule {
    /// The player rule of a mode.
    pub fn from_mode(mode: PlayMode) -> (r: Self)
        ensures
            r.rule_type == rule_type_of(mode),
            r.judge_window_rule.judge_rank@ == judge_ranks_of(mode),
            r.judge_window_rule.fix_judge@ == fixed_windows_of(mode),
    {
        match mode {
            PlayMode::Beat5K | PlayMode::Beat10K => PlayerRule {
                rule_type: PlayerRuleType::FiveKeys,
                judge_window_rule: JudgeWindowRule::normal(),
            },
            PlayMode::Beat7K | PlayMode::Beat14K => PlayerRule {
                rule_type: PlayerRuleType::SevenKeys,
                judge_window_rule: JudgeWindowRule::normal(),
            },
            PlayMode::PopN9K => PlayerRule {
                rule_type: PlayerRuleType::Pms,
                judge_window_rule: JudgeWindowRule::pms(),
            },
            PlayMode::Keyboard24K | PlayMode::Keyboard24KDouble => PlayerRule {
                rule_type: PlayerRuleType::Keyboard,
                judge_window_rule: JudgeWindowRule::normal(),
            },
        }
    }
}

/// Gauge property family of a mode.
#[derive(Debug, Clone, Copy, PartialEq, Eq, Structural)]
pub enum GaugePropertyType {
    FiveKeys,
    SevenKeys,
    Pms,
    Keyboard,
}

impl GaugePropertyType {
    /// The gauge property family of a mode.
    pub fn from_mode(mode: PlayMode) -> (r: Self)
        ensures
            r == match mode {
                PlayMode::Beat5K | PlayMode::Beat10K => GaugePropertyType::FiveKeys,
                PlayMode::Beat7K | PlayMode::Beat14K => GaugePropertyType::SevenKeys,
                PlayMode::PopN9K => GaugePropertyType::Pms,
                PlayMode::Keyboard24K | PlayMode::Keyboard24KDouble => GaugePropertyType::Keyboard,
            },
    {
        match mode {
            PlayMode::Beat5K | PlayMode::Beat10K => GaugePropertyType::FiveKeys,
            PlayMode::Beat7K | PlayMode::Beat14K => GaugePropertyType::SevenKeys,
            PlayMode::PopN9K => GaugePropertyType::Pms,
            PlayMode::Keyboard24K | PlayMode::Keyboard24KDouble => GaugePropertyType::Keyboard,
        }
    }
}

/// The judge rank a chart ends with after validation, as a percentage: a #RANK index
/// picks from the mode's rule (NORMAL when out of range), a #DEFEXRANK percentage
/// scales the rule's NORMAL rank (NORMAL when not positive), and a BMSON rank that is
/// not positive becomes 100.
pub open spec fn normalized_rank(mode: PlayMode, judge_rank: int, rank_type: JudgeRankType) -> int {
    let ranks = judge_ranks_of(mode);
    match rank_type {
        JudgeRankType::BmsRank => if 0 <= judge_rank < 5 {
            ranks[judge_rank] as int
        } else {
            ranks[2] as int
        },
        JudgeRankType::BmsDefExRank => if judge_rank > 0 {
            div_trunc(judge_rank * ranks[2], 100)
        } else {
            ranks[2] as int
        },
        JudgeRankType::BmsonJudgeRank => if judge_rank <= 0 {
            100
        } else {
            judge_rank
        },
    }
}

/// A #RANK index from 0 to 4 (VERYHARD, HARD, NORMAL, EASY, VERYEASY) picks that entry
/// of the mode's judge ranks; only an index outside 0..5 falls back to NORMAL. For
/// every mode the EASY rank is 100 and the VERYEASY rank is above it.
pub proof fn lemma_rank_index_picks_rule(mode: PlayMode, judge_rank: int)
    ensures
        0 <= judge_rank < 5 ==> normalized_rank(mode, judge_rank, JudgeRankType::BmsRank)
            == judge_ranks_of(mode)[judge_rank],
        !(0 <= judge_rank < 5) ==> normalized_rank(mode, judge_rank, JudgeRankType::BmsRank)
            == judge_ranks_of(mode)[2],
        judge_rank == 3 ==> normalized_rank(mode, judge_rank, JudgeRankType::BmsRank) == 100,
        judge_rank == 4 ==> normalized_rank(mode, judge_rank, JudgeRankType::BmsRank) > 100,
{
}

/// Normalize a chart's judge rank to a percentage (the judge-rank half of chart
/// validation).
pub fn normalize_judge_rank(mode: PlayMode, judge_rank: i32, rank_type: JudgeRankType) -> (r: i32)
    requires
        rank_type is BmsDefExRank ==> judge_rank * judge_ranks_of(mode)[2] <= i32::MAX,
    ensures
        r == normalized_rank(mode, judge_rank as int, rank_type),
        rank_type is BmsRank && 0 <= judge_rank < 5 ==> r == judge_ranks_of(mode)[judge_rank as int],
        rank_type is BmsRank && !(0 <= judge_rank < 5) ==> r == judge_ranks_of(mode)[2],
        rank_type is BmsDefExRank && judge_rank > 0 ==> r == judge_rank * judge_ranks_of(mode)[2] / 100,
        rank_type is BmsDefExRank && judge_rank <= 0 ==> r == judge_ranks_of(mode)[2],
        rank_type is BmsonJudgeRank ==> r == if judge_rank <= 0 {
            100
        } else {
            judge_rank as int
        },
{
    proof {
        lemma_rank_index_picks_rule(mode, judge_rank as int);
    }
    let rule = PlayerRule::from_mode(mode);
    let ranks = rule.judge_window_rule.judge_rank;
    match rank_type {
        JudgeRankType::BmsRank => {
            if 0 <= judge_rank && judge_rank < 5 {
                ranks[judge_rank as usize]
            } else {
                ranks[2]
            }
        },
        JudgeRankType::BmsDefExRank => {
            if judge_rank > 0 {
                judge_rank * ranks[2] / 100
            } else {
                ranks[2]
            }
        },
        JudgeRankType::BmsonJudgeRank => {
            if judge_rank <= 0 {
                100
            } else {
                judge_rank
            }
        },
    }
}

/// Number of notes of a sequence that count for scoring (not mines, not invisible).
pub open spec fn playable_count(notes: Seq<Note>) -> nat
    decreases notes.len(),
{
    if notes.len() == 0 {
        0
    } else {
        playable_count(notes.drop_last()) + if notes.last().note_type.playable() {
            1nat
        } else {
            0nat
        }
    }
}

/// Appending a note to a sequence adds one to its playable count for a normal, long,
/// charge or hell charge note, and nothing for a mine or an invisible note (such as the
/// end of a paired long note).
pub proof fn lemma_playable_count_push(notes: Seq<Note>, note: Note)
    ensures
        (note.note_type is Normal || note.note_type is LongNote || note.note_type is ChargeNote
            || note.note_type is HellChargeNote) ==> playable_count(notes.push(note)) == playable_count(notes)
            + 1,
        (note.note_type is Mine || note.note_type is Invisible) ==> playable_count(notes.push(note))
            == playable_count(notes),
{
    assert(notes.push(note).drop_last() =~= notes);
}

/// The playable count of a sequence is the number of its normal, long, charge and hell
/// charge notes.
pub proof fn lemma_playable_count_scored_types(notes: Seq<Note>)
    ensures
        playable_count(notes) == notes.filter(
            |n: Note|
                n.note_type is Normal || n.note_type is LongNote || n.note_type is ChargeNote
                    || n.note_type is HellChargeNote,
        ).len(),
    decreases notes.len(),
{
    reveal(Seq::filter);
    if notes.len() > 0 {
        lemma_playable_count_scored_types(notes.drop_last());
    }
}

/// Total number of playable notes (excluding mines and invisible notes).
pub fn count_playable_notes(notes: &[Note]) -> (r: usize)
    ensures
        r == playable_count(notes@),
        r == notes@.filter(
            |n: Note|
                n.note_type is Normal || n.note_type is LongNote || n.note_type is ChargeNote
                    || n.note_type is HellChargeNote,
        ).len(),
{
    proof {
        lemma_playable_count_scored_types(notes@);
    }
    let mut count: usize = 0;
    let mut i: usize = 0;
    while i < notes.len()
        invariant
            i <= notes@.len(),
            count == playable_count(notes@.take(i as int)),
            count <= i,
        decreases notes@.len() - i,
    {
        assert(notes@.take(i as int + 1).drop_last() == notes@.take(i as int));
        match notes[i].note_type {
            NoteType::Mine | NoteType::Invisible => {},
            _ => {
                count = count + 1;
            },
        }
        i = i + 1;
    }
    assert(notes@.take(notes@.len() as int) == notes@);
    count
}

} // verus!
