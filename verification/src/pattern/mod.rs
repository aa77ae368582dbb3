//! Pattern modifiers that remap note lanes.

use vstd::prelude::*;

use crate::model::note::{NoteType, PlayMode};

pub mod heap_order;
pub mod lane_shuffle;
pub mod mirror;
pub mod note_shuffle;
pub mod random;
pub mod rng;
pub mod s_random;

verus! {

/// Random option for pattern modification.
#[derive(Debug, Clone, Copy, PartialEq, Eq, Hash, Structural)]
pub enum RandomOption {
    /// No modification.
    Identity,
    /// Mirror: reverse key lanes.
    Mirror,
    /// Random: shuffle key lanes (one permutation for the entire chart).
    Random,
    /// Rotate: rotate key lanes by a random offset.
    Rotate,
    /// S-Random: per-timeslice shuffle with a 40ms threshold.
    SRandom,
    /// Spiral: rotating lane assignment.
    Spiral,
    /// H-Random: per-timeslice shuffle with a BPM-based threshold.
    HRandom,
    /// All-SCR: assign notes to the scratch lane preferentially.
    AllScr,
    /// Mirror with the scratch lane included.
    MirrorEx,
    /// Random with the scratch lane included.
    RandomEx,
    /// Rotate with the scratch lane included.
    RotateEx,
    /// S-Random with the scratch lane included.
    SRandomEx,
    /// Cross: swap pairs of lanes from outside inward.
    Cross,
    /// Converge: create long runs of repeated notes on the same lane.
    Converge,
    /// S-Random with no threshold.
    SRandomNoThreshold,
    /// Playable Random: lane shuffle avoiding impossible chords.
    RandomPlayable,
    /// S-Random Playable: per-timeslice shuffle avoiding impossible chords.
    SRandomPlayable,
    /// Flip: swap the two player sides.
    Flip,
    /// Battle: copy the first player's notes to the second side.
    Battle,
}

/// The options offered in the beat modes, by identifier.
pub open spec fn general_options() -> Seq<RandomOption> {
    seq![
        RandomOption::Identity,
        RandomOption::Mirror,
        RandomOption::Random,
        RandomOption::Rotate,
        RandomOption::SRandom,
        RandomOption::Spiral,
        RandomOption::HRandom,
        RandomOption::AllScr,
        RandomOption::RandomEx,
        RandomOption::SRandomEx,
    ]
}

/// The options offered in the nine-button mode, by identifier.
pub open spec fn pms_options() -> Seq<RandomOption> {
    seq![
        RandomOption::Identity,
        RandomOption::Mirror,
        RandomOption::Random,
        RandomOption::Rotate,
        RandomOption::SRandomNoThreshold,
        RandomOption::Spiral,
        RandomOption::HRandom,
        RandomOption::Converge,
        RandomOption::RandomPlayable,
        RandomOption::SRandomPlayable,
    ]
}

impl RandomOption {
    /// Whether the option also moves notes of scratch lanes.
    pub open spec fn modifies_scratch(self) -> bool {
        self is AllScr || self is MirrorEx || self is RandomEx || self is RotateEx || self is SRandomEx
            || self is Converge || self is RandomPlayable || self is SRandomPlayable || self is Flip
            || self is Battle
    }

    /// Whether this option modifies scratch lanes.
    pub fn is_scratch_lane_modify(self) -> (r: bool)
        ensures
            r == self.modifies_scratch(),
    {
        match self {
            RandomOption::AllScr | RandomOption::MirrorEx | RandomOption::RandomEx
            | RandomOption::RotateEx | RandomOption::SRandomEx | RandomOption::Converge
            | RandomOption::RandomPlayable | RandomOption::SRandomPlayable | RandomOption::Flip
            | RandomOption::Battle => true,
            _ => false,
        }
    }

    /// The options of a mode as a list: the nine-button list for that mode, the beat
    /// list otherwise.
    pub fn options_for(mode: PlayMode) -> (r: Vec<RandomOption>)
        ensures
            r@ == if mode is PopN9K {
                pms_options()
            } else {
                general_options()
            },
    {
        let r = match mode {
            PlayMode::PopN9K => vec![
                RandomOption::Identity,
                RandomOption::Mirror,
                RandomOption::Random,
                RandomOption::Rotate,
                RandomOption::SRandomNoThreshold,
                RandomOption::Spiral,
                RandomOption::HRandom,
                RandomOption::Converge,
                RandomOption::RandomPlayable,
                RandomOption::SRandomPlayable,
            ],
            _ => vec![
                RandomOption::Identity,
                RandomOption::Mirror,
                RandomOption::Random,
                RandomOption::Rotate,
                RandomOption::SRandom,
                RandomOption::Spiral,
                RandomOption::HRandom,
                RandomOption::AllScr,
                RandomOption::RandomEx,
                RandomOption::SRandomEx,
            ],
        };
        assert(r@ =~= if mode is PopN9K {
            pms_options()
        } else {
            general_options()
        });
        r
    }

    /// Get a random option by identifier for a play mode; unknown identifiers give
    /// `Identity`.
    pub fn from_id(id: usize, mode: PlayMode) -> (r: Self)
        ensures
            ({
                let options = if mode is PopN9K {
                    pms_options()
                } else {
                    general_options()
                };
                r == if id < options.len() {
                    options[id as int]
                } else {
                    RandomOption::Identity
                }
            }),
    {
        let options = Self::options_for(mode);
        if id < options.len() {
            options[id]
        } else {
            RandomOption::Identity
        }
    }
}

/// The lanes of a player side from `start` up to `start + n`, without the scratch
/// lanes unless `include_scratch` holds.
pub open spec fn lanes_from(mode: PlayMode, include_scratch: bool, start: int, n: int) -> Seq<usize>
    decreases n,
{
    if n <= 0 {
        Seq::empty()
    } else {
        let prev = lanes_from(mode, include_scratch, start, n - 1);
        let lane = start + n - 1;
        if include_scratch || !mode.scratch_lane(lane) {
            prev.push(lane as usize)
        } else {
            prev
        }
    }
}

/// The key lanes of a player side: the lanes of that player in increasing order,
/// without scratch lanes unless `include_scratch` holds; empty for a player the mode
/// does not have.
pub open spec fn keys_of(mode: PlayMode, player: int, include_scratch: bool) -> Seq<usize> {
    if player < 0 || player >= mode.players() {
        Seq::empty()
    } else {
        let lpp = mode.lanes_per_player() as int;
        lanes_from(mode, include_scratch, lpp * player, lpp)
    }
}

/// Whether a sequence of lanes is strictly increasing.
pub open spec fn increasing(keys: Seq<usize>) -> bool {
    forall|i: int, j: int| 0 <= i < j < keys.len() ==> keys[i] < keys[j]
}

proof fn lemma_lanes_from(mode: PlayMode, include_scratch: bool, start: int, n: int)
    requires
        0 <= start,
        0 <= n,
        start + n <= usize::MAX,
    ensures
        increasing(lanes_from(mode, include_scratch, start, n)),
        lanes_from(mode, include_scratch, start, n).len() <= n,
        forall|i: int|
            0 <= i < lanes_from(mode, include_scratch, start, n).len() ==> start <= #[trigger] lanes_from(
                mode,
                include_scratch,
                start,
                n,
            )[i] < start + n,
    decreases n,
{
    if n > 0 {
        lemma_lanes_from(mode, include_scratch, start, n - 1);
        let prev = lanes_from(mode, include_scratch, start, n - 1);
        let cur = lanes_from(mode, include_scratch, start, n);
        let lane = start + n - 1;
        if include_scratch || !mode.scratch_lane(lane) {
            assert(cur == prev.push(lane as usize));
            assert forall|i: int| 0 <= i < cur.len() implies start <= #[trigger] cur[i] < start + n by {
                if i < prev.len() {
                    assert(cur[i] == prev[i]);
                }
            }
            assert forall|i: int, j: int| 0 <= i < j < cur.len() implies cur[i] < cur[j] by {
                if j < prev.len() {
                    assert(cur[i] == prev[i] && cur[j] == prev[j]);
                } else {
                    assert(cur[i] == prev[i]);
                }
            }
        }
    }
}

/// Facts about the key lanes of a player side: strictly increasing, within the lanes of
/// the mode, and at least five of them (all but at most one scratch) for a player the
/// mode has.
pub proof fn lemma_keys_of(mode: PlayMode, player: int, include_scratch: bool)
    ensures
        increasing(keys_of(mode, player, include_scratch)),
        forall|i: int|
            0 <= i < keys_of(mode, player, include_scratch).len() ==> #[trigger] keys_of(
                mode,
                player,
                include_scratch,
            )[i] < mode.lanes(),
        0 <= player < mode.players() ==> keys_of(mode, player, include_scratch).len() >= 5,
        keys_of(mode, player, include_scratch).len() <= mode.lanes(),
{
    if 0 <= player < mode.players() {
        let lpp = mode.lanes_per_player() as int;
        assert(lpp * player + lpp <= mode.lanes()) by (nonlinear_arith)
            requires
                lpp == mode.lanes() / mode.players(),
                0 <= player < mode.players(),
                mode.players() == 1 || mode.players() == 2,
                mode.lanes() % mode.players() == 0,
        ;
        lemma_lanes_from(mode, include_scratch, lpp * player, lpp);
        lemma_lanes_skip_at_most_one(mode, include_scratch, player, lpp);
    }
}

proof fn lemma_lanes_skip_at_most_one(mode: PlayMode, include_scratch: bool, player: int, n: int)
    requires
        0 <= player < mode.players(),
        0 <= n <= mode.lanes_per_player(),
    ensures
        lanes_from(mode, include_scratch, mode.lanes_per_player() * player, n).len() + 1 >= n,
        lanes_from(mode, include_scratch, mode.lanes_per_player() * player, n).len() == n || exists|
            s: int,
        |
            mode.lanes_per_player() * player <= s < mode.lanes_per_player() * player + n
                && mode.scratch_lane(s) && !include_scratch,
        mode.lanes_per_player() >= 6,
    decreases n,
{
    let lpp = mode.lanes_per_player() as int;
    if n > 0 {
        lemma_lanes_skip_at_most_one(mode, include_scratch, player, n - 1);
        let lane = lpp * player + n - 1;
        if !include_scratch && mode.scratch_lane(lane) {
            if lanes_from(mode, include_scratch, lpp * player, n - 1).len() != n - 1 {
                let s = choose|s: int|
                    lpp * player <= s < lpp * player + n - 1 && mode.scratch_lane(s) && !include_scratch;
                assert(false);
            }
        }
    }
}

/// Returns the key lane indices for a given player side, optionally including scratch.
pub fn get_keys(mode: PlayMode, player: usize, include_scratch: bool) -> (r: Vec<usize>)
    ensures
        r@ == keys_of(mode, player as int, include_scratch),
{
    let total = mode.lane_count();
    let players = mode.player_count();
    if player >= players {
        return Vec::new();
    }
    let lanes_per_player = total / players;
    proof {
        lemma_keys_of(mode, player as int, include_scratch);
    }
    assert(lanes_per_player * player + lanes_per_player <= total) by (nonlinear_arith)
        requires
            lanes_per_player == total / players,
            player < players,
            players == 1 || players == 2,
            total % players == 0,
    ;
    let start = lanes_per_player * player;
    let mut keys: Vec<usize> = Vec::new();
    let mut n: usize = 0;
    while n < lanes_per_player
        invariant
            start + lanes_per_player <= total,
            n <= lanes_per_player,
            keys@ == lanes_from(mode, include_scratch, start as int, n as int),
        decreases lanes_per_player - n,
    {
        let lane = start + n;
        if include_scratch || !mode.is_scratch(lane) {
            keys.push(lane);
        }
        n = n + 1;
    }
    keys
}

/// Whether a note type is playable (not a mine, not invisible).
pub fn is_playable(note_type: NoteType) -> (r: bool)
    ensures
        r == note_type.playable(),
{
    match note_type {
        NoteType::Mine | NoteType::Invisible => false,
        _ => true,
    }
}

} // verus!
