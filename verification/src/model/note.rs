use vstd::prelude::*;

verus! {

/// Play mode defining the number of lanes and their layout.
#[derive(Debug, Clone, Copy, PartialEq, Eq, Hash, Structural)]
pub enum PlayMode {
    Beat5K,
    Beat7K,
    Beat10K,
    Beat14K,
    PopN9K,
    Keyboard24K,
    Keyboard24KDouble,
}

impl PlayMode {
    /// Number of lanes of the mode (keys and scratches).
    pub open spec fn lanes(self) -> nat {
        match self {
            PlayMode::Beat5K => 6,
            PlayMode::Beat7K => 8,
            PlayMode::Beat10K => 12,
            PlayMode::Beat14K => 16,
            PlayMode::PopN9K => 9,
            PlayMode::Keyboard24K => 26,
            PlayMode::Keyboard24KDouble => 52,
        }
    }

    /// Number of input keys of the mode (a scratch counts twice).
    pub open spec fn keys(self) -> nat {
        match self {
            PlayMode::Beat5K => 7,
            PlayMode::Beat7K => 9,
            PlayMode::Beat10K => 14,
            PlayMode::Beat14K => 18,
            PlayMode::PopN9K => 9,
            PlayMode::Keyboard24K => 26,
            PlayMode::Keyboard24KDouble => 52,
        }
    }

    /// Number of players of the mode.
    pub open spec fn players(self) -> nat {
        match self {
            PlayMode::Beat10K | PlayMode::Beat14K | PlayMode::Keyboard24KDouble => 2,
            _ => 1,
        }
    }

    /// Number of scratch lanes of the mode.
    pub open spec fn scratches(self) -> nat {
        match self {
            PlayMode::Beat5K | PlayMode::Beat7K => 1,
            PlayMode::Beat10K | PlayMode::Beat14K => 2,
            _ => 0,
        }
    }

    /// Which scratch a lane is, if it is one.
    pub open spec fn scratch_of(self, lane: int) -> Option<nat> {
        match self {
            PlayMode::Beat5K => if lane == 5 { Some(0) } else { None },
            PlayMode::Beat7K => if lane == 7 { Some(0) } else { None },
            PlayMode::Beat10K => if lane == 5 { Some(0) } else if lane == 11 { Some(1) } else { None },
            PlayMode::Beat14K => if lane == 7 { Some(0) } else if lane == 15 { Some(1) } else { None },
            _ => None,
        }
    }

    /// Whether a lane is a scratch lane.
    pub open spec fn scratch_lane(self, lane: int) -> bool {
        self.scratch_of(lane) is Some
    }

    /// The scratch lanes among the lanes of the mode.
    pub open spec fn scratch_lanes(self) -> Set<int> {
        Set::new(|l: int| 0 <= l < self.lanes() && self.scratch_lane(l))
    }

    /// Lanes that belong to each player.
    pub open spec fn lanes_per_player(self) -> nat {
        self.lanes() / self.players()
    }

    /// Skin offset of a lane: keys count from 1, a scratch is 0.
    pub open spec fn skin_offset(self, lane: int) -> int {
        match self {
            PlayMode::Beat5K | PlayMode::Beat10K => {
                let l = lane % 6;
                if l == 5 { 0 } else { l + 1 }
            },
            PlayMode::Beat7K | PlayMode::Beat14K => {
                let l = lane % 8;
                if l == 7 { 0 } else { l + 1 }
            },
            PlayMode::PopN9K | PlayMode::Keyboard24K => lane + 1,
            PlayMode::Keyboard24KDouble => lane % 26 + 1,
        }
    }

    /// Total number of lanes (playable keys including scratch).
    pub fn lane_count(self) -> (r: usize)
        ensures
            r == self.lanes(),
    {
        match self {
            PlayMode::Beat5K => 6,
            PlayMode::Beat7K => 8,
            PlayMode::Beat10K => 12,
            PlayMode::Beat14K => 16,
            PlayMode::PopN9K => 9,
            PlayMode::Keyboard24K => 26,
            PlayMode::Keyboard24KDouble => 52,
        }
    }

    /// Total number of input keys (including duplicate scratch keys).
    pub fn key_count(self) -> (r: usize)
        ensures
            r == self.keys(),
    {
        match self {
            PlayMode::Beat5K => 7,
            PlayMode::Beat7K => 9,
            PlayMode::Beat10K => 14,
            PlayMode::Beat14K => 18,
            PlayMode::PopN9K => 9,
            PlayMode::Keyboard24K => 26,
            PlayMode::Keyboard24KDouble => 52,
        }
    }

    /// Number of players (1 or 2).
    pub fn player_count(self) -> (r: usize)
        ensures
            r == self.players(),
            r == 1 || r == 2,
    {
        match self {
            PlayMode::Beat5K | PlayMode::Beat7K | PlayMode::PopN9K | PlayMode::Keyboard24K => 1,
            PlayMode::Beat10K | PlayMode::Beat14K | PlayMode::Keyboard24KDouble => 2,
        }
    }

    /// Number of scratch lanes.
    pub fn scratch_count(self) -> (r: usize)
        ensures
            r == self.scratches(),
            r == self.scratch_lanes().len(),
    {
        proof {
            lemma_scratch_lanes(self);
        }
        match self {
            PlayMode::Beat5K | PlayMode::Beat7K => 1,
            PlayMode::Beat10K | PlayMode::Beat14K => 2,
            PlayMode::PopN9K | PlayMode::Keyboard24K | PlayMode::Keyboard24KDouble => 0,
        }
    }

    /// Whether a given lane index is a scratch lane.
    pub fn is_scratch(self, lane: usize) -> (r: bool)
        ensures
            r == self.scratch_lane(lane as int),
            r == self.scratch_of(lane as int) is Some,
            lane >= self.lanes() ==> !r,
    {
        proof {
            lemma_scratch_lanes(self);
        }
        self.scratch_index(lane).is_some()
    }

    /// Returns which scratch number a lane is (0-indexed), or None.
    pub fn scratch_index(self, lane: usize) -> (r: Option<usize>)
        ensures
            match self.scratch_of(lane as int) {
                Some(s) => r == Some(s as usize),
                None => r is None,
            },
    {
        match self {
            PlayMode::Beat5K => {
                if lane == 5 {
                    Some(0)
                } else {
                    None
                }
            },
            PlayMode::Beat7K => {
                if lane == 7 {
                    Some(0)
                } else {
                    None
                }
            },
            PlayMode::Beat10K => match lane {
                5 => Some(0),
                11 => Some(1),
                _ => None,
            },
            PlayMode::Beat14K => match lane {
                7 => Some(0),
                15 => Some(1),
                _ => None,
            },
            PlayMode::PopN9K | PlayMode::Keyboard24K | PlayMode::Keyboard24KDouble => None,
        }
    }

    /// Map lane index to player number (0-indexed).
    pub fn lane_to_player(self, lane: usize) -> (r: usize)
        ensures
            r == lane as int / self.lanes_per_player() as int,
    {
        let lanes_per_player = self.lane_count() / self.player_count();
        lane / lanes_per_player
    }

    /// Map lane index to skin offset (a key's number counted from 1, a scratch is 0).
    pub fn lane_to_skin_offset(self, lane: usize) -> (r: usize)
        requires
            lane < self.lanes(),
        ensures
            r == self.skin_offset(lane as int),
    {
        match self {
            PlayMode::Beat5K => {
                let t: [usize; 6] = [1, 2, 3, 4, 5, 0];
                t[lane]
            },
            PlayMode::Beat7K => {
                let t: [usize; 8] = [1, 2, 3, 4, 5, 6, 7, 0];
                t[lane]
            },
            PlayMode::Beat10K => {
                let t: [usize; 12] = [1, 2, 3, 4, 5, 0, 1, 2, 3, 4, 5, 0];
                t[lane]
            },
            PlayMode::Beat14K => {
                let t: [usize; 16] = [1, 2, 3, 4, 5, 6, 7, 0, 1, 2, 3, 4, 5, 6, 7, 0];
                t[lane]
            },
            PlayMode::PopN9K => {
                let t: [usize; 9] = [1, 2, 3, 4, 5, 6, 7, 8, 9];
                t[lane]
            },
            PlayMode::Keyboard24K => lane + 1,
            PlayMode::Keyboard24KDouble => lane % 26 + 1,
        }
    }
}

/// Every scratch lane of a mode is one of its lanes, the number of scratch lanes is
/// `scratch_count`, each scratch lane has a scratch number below it, and no two lanes
/// share a scratch number.
pub proof fn lemma_scratch_lanes(mode: PlayMode)
    ensures
        forall|l: int| #[trigger] mode.scratch_lane(l) ==> 0 <= l < mode.lanes(),
        mode.scratch_lanes().finite(),
        mode.scratch_lanes().len() == mode.scratches(),
        forall|l: int| #[trigger] mode.scratch_of(l) matches Some(n) ==> n < mode.scratches(),
        forall|l1: int, l2: int|
            #[trigger] mode.scratch_of(l1) is Some && mode.scratch_of(l1) == #[trigger] mode.scratch_of(
                l2,
            ) ==> l1 == l2,
{
    match mode {
        PlayMode::Beat5K => {
            assert(mode.scratch_lanes() =~= set![5int]);
        },
        PlayMode::Beat7K => {
            assert(mode.scratch_lanes() =~= set![7int]);
        },
        PlayMode::Beat10K => {
            assert(mode.scratch_lanes() =~= set![5int, 11int]);
        },
        PlayMode::Beat14K => {
            assert(mode.scratch_lanes() =~= set![7int, 15int]);
        },
        _ => {
            assert(mode.scratch_lanes() =~= Set::<int>::empty());
        },
    }
}

/// Type of note.
#[derive(Debug, Clone, Copy, PartialEq, Eq, Hash, Structural)]
pub enum NoteType {
    /// Normal note (single tap).
    Normal,
    /// Long note (hold and release).
    LongNote,
    /// Charge note (hold, no release timing).
    ChargeNote,
    /// Hell charge note (must hold, taking damage on release).
    HellChargeNote,
    /// Mine note (damage on press).
    Mine,
    /// Invisible note (no visual, plays keysound on press).
    Invisible,
}

impl NoteType {
    /// Long note, charge note or hell charge note.
    pub open spec fn long(self) -> bool {
        self is LongNote || self is ChargeNote || self is HellChargeNote
    }

    /// Anything but a mine or an invisible note.
    pub open spec fn playable(self) -> bool {
        !(self is Mine || self is Invisible)
    }
}

/// Long note mode setting from the chart header (#LNTYPE).
#[derive(Debug, Clone, Copy, PartialEq, Eq, Hash, Default, Structural)]
pub enum LongNoteMode {
    /// LN type 1 (paired notes).
    #[default]
    LnType1,
    /// Charge note (#LNTYPE 2).
    ChargeNote,
    /// Hell charge note.
    HellChargeNote,
}

/// A single note in the chart.
#[derive(Debug, Clone, Copy, PartialEq, Eq, Structural)]
pub struct Note {
    /// Lane index (0-based).
    pub lane: usize,
    /// Note type.
    pub note_type: NoteType,
    /// Time in microseconds from song start.
    pub time_us: i64,
    /// End time in microseconds (for LN/CN/HCN).
    pub end_time_us: i64,
    /// WAV object ID for keysound.
    pub wav_id: u32,
    /// Damage of a mine note (percentage of gauge), as the bit pattern of an `f64`.
    pub damage_bits: u64,
}

impl Note {
    /// Whether the note is held (LN, CN or HCN).
    pub fn is_long_note(&self) -> (r: bool)
        ensures
            r == self.note_type.long(),
    {
        match self.note_type {
            NoteType::LongNote | NoteType::ChargeNote | NoteType::HellChargeNote => true,
            _ => false,
        }
    }

    /// Duration of a long note in microseconds.
    pub fn duration_us(&self) -> (r: i64)
        requires
            i64::MIN <= self.end_time_us - self.time_us <= i64::MAX,
        ensures
            r == self.end_time_us - self.time_us,
    {
        self.end_time_us - self.time_us
    }
}

/// Judge rank type from the chart header.
#[derive(Debug, Clone, Copy, PartialEq, Eq, Hash, Default, Structural)]
pub enum JudgeRankType {
    /// #RANK (0-4 index).
    BmsRank,
    /// #DEFEXRANK (percentage).
    #[default]
    BmsDefExRank,
    /// BMSON judge_rank (percentage, default 100).
    BmsonJudgeRank,
}

/// Total type from the chart header.
#[derive(Debug, Clone, Copy, PartialEq, Eq, Hash, Default, Structural)]
pub enum TotalType {
    /// #TOTAL (absolute value).
    #[default]
    Bms,
    /// BMSON total (percentage of default).
    Bmson,
}

/// Named lanes of the beat layout: scratch and seven keys per side.
#[derive(Debug, Clone, Copy, PartialEq, Eq, Hash, Structural)]
pub enum Lane {
    Scratch,
    Key1,
    Key2,
    Key3,
    Key4,
    Key5,
    Key6,
    Key7,
    Scratch2,
    Key8,
    Key9,
    Key10,
    Key11,
    Key12,
    Key13,
    Key14,
}

impl Lane {
    /// Position of the lane: the first scratch is 0, keys 1-7 are 1-7, the second
    /// scratch is 8 and keys 8-14 are 9-15.
    pub open spec fn position(self) -> nat {
        match self {
            Lane::Scratch => 0,
            Lane::Key1 => 1,
            Lane::Key2 => 2,
            Lane::Key3 => 3,
            Lane::Key4 => 4,
            Lane::Key5 => 5,
            Lane::Key6 => 6,
            Lane::Key7 => 7,
            Lane::Scratch2 => 8,
            Lane::Key8 => 9,
            Lane::Key9 => 10,
            Lane::Key10 => 11,
            Lane::Key11 => 12,
            Lane::Key12 => 13,
            Lane::Key13 => 14,
            Lane::Key14 => 15,
        }
    }

    /// Whether the lane is a key of the first side (Key1-Key7).
    pub open spec fn first_side_key(self) -> bool {
        1 <= self.position() <= 7
    }

    /// Position of the lane (see `position`).
    pub fn index(self) -> (r: usize)
        ensures
            r == self.position(),
    {
        match self {
            Lane::Scratch => 0,
            Lane::Key1 => 1,
            Lane::Key2 => 2,
            Lane::Key3 => 3,
            Lane::Key4 => 4,
            Lane::Key5 => 5,
            Lane::Key6 => 6,
            Lane::Key7 => 7,
            Lane::Scratch2 => 8,
            Lane::Key8 => 9,
            Lane::Key9 => 10,
            Lane::Key10 => 11,
            Lane::Key11 => 12,
            Lane::Key12 => 13,
            Lane::Key13 => 14,
            Lane::Key14 => 15,
        }
    }

    /// The lane at a position, if there is one.
    pub fn from_index(index: usize) -> (r: Option<Lane>)
        ensures
            index < 16 <==> r is Some,
            r matches Some(l) ==> l.position() == index,
    {
        match index {
            0 => Some(Lane::Scratch),
            1 => Some(Lane::Key1),
            2 => Some(Lane::Key2),
            3 => Some(Lane::Key3),
            4 => Some(Lane::Key4),
            5 => Some(Lane::Key5),
            6 => Some(Lane::Key6),
            7 => Some(Lane::Key7),
            8 => Some(Lane::Scratch2),
            9 => Some(Lane::Key8),
            10 => Some(Lane::Key9),
            11 => Some(Lane::Key10),
            12 => Some(Lane::Key11),
            13 => Some(Lane::Key12),
            14 => Some(Lane::Key13),
            15 => Some(Lane::Key14),
            _ => None,
        }
    }

    /// Whether the lane is a key of the first side (Key1-Key7).
    pub fn is_key(self) -> (r: bool)
        ensures
            r == self.first_side_key(),
    {
        let i = self.index();
        1 <= i && i <= 7
    }
}

} // verus!
