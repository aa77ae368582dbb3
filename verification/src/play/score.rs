use vstd::prelude::*;

verus! {

/// Score rank in the 27-division system: F, E, D, C, B, A, AA, AAA, MAX.
#[derive(Debug, Clone, Copy, PartialEq, Eq, PartialOrd, Ord, Hash, Structural)]
pub enum ScoreRank {
    F,
    E,
    D,
    C,
    B,
    A,
    AA,
    AAA,
    Max,
}

impl ScoreRank {
    /// Position of the rank, F=0 through MAX=8.
    pub open spec fn position(self) -> nat {
        match self {
            ScoreRank::F => 0,
            ScoreRank::E => 1,
            ScoreRank::D => 2,
            ScoreRank::C => 3,
            ScoreRank::B => 4,
            ScoreRank::A => 5,
            ScoreRank::AA => 6,
            ScoreRank::AAA => 7,
            ScoreRank::Max => 8,
        }
    }

    /// The rank of an EX score out of `total_notes` notes: the largest `k` from 0 to 8
    /// with `exscore / (2 * total_notes) >= 3k / 27` (F when there are no notes).
    pub open spec fn of_score(exscore: int, total_notes: int) -> ScoreRank {
        let scaled = exscore * 27;
        let max_score = total_notes * 2;
        if total_notes == 0 {
            ScoreRank::F
        } else if scaled >= 24 * max_score {
            ScoreRank::Max
        } else if scaled >= 21 * max_score {
            ScoreRank::AAA
        } else if scaled >= 18 * max_score {
            ScoreRank::AA
        } else if scaled >= 15 * max_score {
            ScoreRank::A
        } else if scaled >= 12 * max_score {
            ScoreRank::B
        } else if scaled >= 9 * max_score {
            ScoreRank::C
        } else if scaled >= 6 * max_score {
            ScoreRank::D
        } else if scaled >= 3 * max_score {
            ScoreRank::E
        } else {
            ScoreRank::F
        }
    }

    /// Determine the rank from an EX score and the total notes.
    pub fn from_score(exscore: u32, total_notes: u32) -> (r: Self)
        ensures
            r == Self::of_score(exscore as int, total_notes as int),
    {
        if total_notes == 0 {
            return ScoreRank::F;
        }
        let scaled = exscore as u64 * 27;
        let max_score = total_notes as u64 * 2;
        if scaled >= 24 * max_score {
            ScoreRank::Max
        } else if scaled >= 21 * max_score {
            ScoreRank::AAA
        } else if scaled >= 18 * max_score {
            ScoreRank::AA
        } else if scaled >= 15 * max_score {
            ScoreRank::A
        } else if scaled >= 12 * max_score {
            ScoreRank::B
        } else if scaled >= 9 * max_score {
            ScoreRank::C
        } else if scaled >= 6 * max_score {
            ScoreRank::D
        } else if scaled >= 3 * max_score {
            ScoreRank::E
        } else {
            ScoreRank::F
        }
    }

    /// The rank index (0-8 = F through MAX).
    pub fn index(self) -> (r: usize)
        ensures
            r == self.position(),
    {
        match self {
            ScoreRank::F => 0,
            ScoreRank::E => 1,
            ScoreRank::D => 2,
            ScoreRank::C => 3,
            ScoreRank::B => 4,
            ScoreRank::A => 5,
            ScoreRank::AA => 6,
            ScoreRank::AAA => 7,
            ScoreRank::Max => 8,
        }
    }
}

/// Score data accumulated during play.
#[derive(Debug, Clone, Copy)]
pub struct ScoreData {
    /// Judge counts [PG, GR, GD, BD, PR, MS] of early (fast) hits.
    pub early_counts: [u32; 6],
    /// Judge counts [PG, GR, GD, BD, PR, MS] of late (slow) hits.
    pub late_counts: [u32; 6],
    /// Maximum combo achieved.
    pub max_combo: u32,
    /// Total notes in the chart.
    pub total_notes: u32,
    /// Number of notes that have been judged.
    pub pass_notes: u32,
    /// Minimum bad+poor count (miss count).
    pub min_bp: u32,
}

impl ScoreData {
    /// Total count of a judge level (early and late); 0 from index 6 on.
    pub open spec fn count_of(self, judge: int) -> int {
        if 0 <= judge < 6 {
            self.early_counts@[judge] + self.late_counts@[judge]
        } else {
            0
        }
    }

    /// EX score: two points per PG, one per GR.
    pub open spec fn ex(self) -> int {
        self.count_of(0) * 2 + self.count_of(1)
    }

    /// All PG: as many PG as notes and no other judge.
    pub open spec fn perfect(self) -> bool {
        &&& self.count_of(0) == self.total_notes
        &&& forall|k: int| 1 <= k < 6 ==> self.count_of(k) == 0
    }

    /// No BD, PR or MS.
    pub open spec fn full_combo(self) -> bool {
        self.count_of(3) == 0 && self.count_of(4) == 0 && self.count_of(5) == 0
    }

    /// The inputs on which `is_perfect` does not overflow (it stops at the first
    /// failed comparison).
    pub open spec fn perfect_defined(self) -> bool {
        &&& self.count_of(0) <= u32::MAX
        &&& self.count_of(0) == self.total_notes ==> self.count_of(1) <= u32::MAX && (self.count_of(1)
            == 0 ==> self.count_of(2) <= u32::MAX && (self.count_of(2) == 0 ==> self.full_combo_defined()))
    }

    /// The inputs on which `is_full_combo` does not overflow.
    pub open spec fn full_combo_defined(self) -> bool {
        &&& self.count_of(3) <= u32::MAX
        &&& self.count_of(3) == 0 ==> self.count_of(4) <= u32::MAX && (self.count_of(4) == 0
            ==> self.count_of(5) <= u32::MAX)
    }

    /// Create a new score with zero counts.
    pub fn new(total_notes: u32) -> (r: Self)
        ensures
            r.early_counts@ == seq![0u32, 0, 0, 0, 0, 0],
            r.late_counts@ == seq![0u32, 0, 0, 0, 0, 0],
            r.max_combo == 0,
            r.total_notes == total_notes,
            r.pass_notes == 0,
            r.min_bp == 0,
    {
        ScoreData {
            early_counts: [0, 0, 0, 0, 0, 0],
            late_counts: [0, 0, 0, 0, 0, 0],
            max_combo: 0,
            total_notes,
            pass_notes: 0,
            min_bp: 0,
        }
    }

    /// Get the total judge count of a level.
    pub fn judge_count(&self, judge: usize) -> (r: u32)
        requires
            self.count_of(judge as int) <= u32::MAX,
        ensures
            r == self.count_of(judge as int),
    {
        if judge < 6 {
            self.early_counts[judge] + self.late_counts[judge]
        } else {
            0
        }
    }

    /// EX score = PG * 2 + GR.
    pub fn exscore(&self) -> (r: u32)
        requires
            self.ex() <= u32::MAX,
        ensures
            r == self.ex(),
    {
        self.judge_count(0) * 2 + self.judge_count(1)
    }

    /// The score rank.
    pub fn rank(&self) -> (r: ScoreRank)
        requires
            self.ex() <= u32::MAX,
        ensures
            r == ScoreRank::of_score(self.ex(), self.total_notes as int),
    {
        ScoreRank::from_score(self.exscore(), self.total_notes)
    }

    /// Whether every note is a PG.
    pub fn is_perfect(&self) -> (r: bool)
        requires
            self.perfect_defined(),
        ensures
            r == self.perfect(),
    {
        self.judge_count(0) == self.total_notes && self.judge_count(1) == 0 && self.judge_count(2) == 0
            && self.judge_count(3) == 0 && self.judge_count(4) == 0 && self.judge_count(5) == 0
    }

    /// Whether the score is a full combo (no BD, PR or MS).
    pub fn is_full_combo(&self) -> (r: bool)
        requires
            self.full_combo_defined(),
        ensures
            r == self.full_combo(),
    {
        self.judge_count(3) == 0 && self.judge_count(4) == 0 && self.judge_count(5) == 0
    }

    /// Whether the score is a MAX: all PG and the combo covers every note.
    pub fn is_max(&self) -> (r: bool)
        requires
            self.perfect_defined(),
        ensures
            r == (self.perfect() && self.max_combo == self.total_notes),
    {
        self.is_perfect() && self.max_combo == self.total_notes
    }
}

/// A higher EX score never gets a lower rank (for the same number of notes).
pub proof fn lemma_rank_monotonic(ex1: int, ex2: int, total_notes: int)
    requires
        0 <= ex1 <= ex2,
        0 <= total_notes,
    ensures
        ScoreRank::of_score(ex1, total_notes).position() <= ScoreRank::of_score(
            ex2,
            total_notes,
        ).position(),
{
}

/// `s` reaches `k` whole steps of `d` exactly when the floor of `s / d` does.
proof fn lemma_div_threshold(s: int, d: int, k: int)
    requires
        d > 0,
    ensures
        (s >= k * d) <==> (s / d >= k),
{
    vstd::arithmetic::div_mod::lemma_fundamental_div_mod(s, d);
    vstd::arithmetic::div_mod::lemma_mod_bound(s, d);
    let q = s / d;
    let r = s % d;
    assert((s >= k * d) <==> (q >= k)) by (nonlinear_arith)
        requires
            s == d * q + r,
            0 <= r < d,
            d > 0,
    ;
}

/// The rank of a chart with notes is the number of whole ninths (three of the
/// twenty-seven divisions) that the EX score reaches of the maximum `2 * total_notes`,
/// at most eight: `min(8, 27 * exscore / (6 * total_notes))`; with no notes it is F.
pub proof fn lemma_rank_formula(exscore: int, total_notes: int)
    requires
        0 <= exscore,
        0 <= total_notes,
    ensures
        total_notes == 0 ==> ScoreRank::of_score(exscore, total_notes) == ScoreRank::F,
        total_notes > 0 ==> ScoreRank::of_score(exscore, total_notes).position() == {
            let q = (27 * exscore) / (6 * total_notes);
            if q < 8 {
                q
            } else {
                8
            }
        },
{
    if total_notes > 0 {
        let s = 27 * exscore;
        let d = 6 * total_notes;
        lemma_div_threshold(s, d, 1);
        lemma_div_threshold(s, d, 2);
        lemma_div_threshold(s, d, 3);
        lemma_div_threshold(s, d, 4);
        lemma_div_threshold(s, d, 5);
        lemma_div_threshold(s, d, 6);
        lemma_div_threshold(s, d, 7);
        lemma_div_threshold(s, d, 8);
        assert(s / d >= 0) by {
            vstd::arithmetic::div_mod::lemma_div_pos_is_pos(s, d);
        }
    }
}

/// A score with every note a PG ranks MAX.
pub proof fn lemma_perfect_rank_max(total_notes: int)
    requires
        0 < total_notes,
    ensures
        ScoreRank::of_score(2 * total_notes, total_notes) == ScoreRank::Max,
{
}

/// MAX implies all PG, and all PG implies a full combo.
pub proof fn lemma_max_perfect_full_combo(s: ScoreData)
    ensures
        (s.perfect() && s.max_combo == s.total_notes) ==> s.perfect(),
        s.perfect() ==> s.full_combo(),
        s.perfect() ==> s.ex() == 2 * s.total_notes,
{
    if s.perfect() {
        assert(s.count_of(1) == 0 && s.count_of(3) == 0 && s.count_of(4) == 0 && s.count_of(5) == 0);
    }
}

} // verus!
