//! The chart-independent steps of loading a BMS file: how its bytes become text, which
//! lane a channel's key goes to, which mode the chart is in, and how long-note pairs are
//! joined.

use vstd::prelude::*;

use crate::model::note::{JudgeRankType, LongNoteMode, Note, NoteType, PlayMode};
use crate::model::timeline::{sorted_by_time, time_insert_pos};

verus! {

/// The text that std's `str::from_utf8` reads from some bytes: `None` when they are
/// not valid UTF-8.
pub uninterp spec fn utf8_text(d: Seq<u8>) -> Option<Seq<char>>;

/// The text that encoding_rs's Shift_JIS decoder gives for some bytes (BOM sniffing,
/// malformed sequences replaced).
pub uninterp spec fn shift_jis_text(d: Seq<u8>) -> Seq<char>;

/// Reads bytes as UTF-8 with std's `str::from_utf8`.
/// Claimed: the text when they are valid UTF-8, `None` otherwise (see `utf8_text`).
#[verifier::external_body]
fn utf8_decode(d: &[u8]) -> (r: Option<&str>)
    ensures
        match r {
            Some(s) => utf8_text(d@) == Some(s@),
            None => utf8_text(d@) is None,
        },
{
    std::str::from_utf8(d).ok()
}

/// Decodes bytes with encoding_rs's `SHIFT_JIS.decode`, which never fails (malformed
/// sequences become U+FFFD). It panics only when its buffer size overflows `usize`,
/// which the bound on the length leaves out (about three bytes out per byte in).
/// Claimed: the result is the decoded text (see `shift_jis_text`).
#[verifier::external_body]
fn shift_jis_decode(d: &[u8]) -> (r: String)
    requires
        d@.len() <= usize::MAX / 4,
    ensures
        r@ == shift_jis_text(d@),
{
    let (cow, _, _) = encoding_rs::SHIFT_JIS.decode(d);
    cow.into_owned()
}

/// bms-rs's output of a chart parse: the chart (or the error that stopped it) and the
/// warnings.
#[verifier::external_type_specification]
#[verifier::external_body]
pub struct ExBmsOutput(bms_rs::bms::BmsOutput);

/// Parses chart text with bms-rs's `parse_bms` and its `default_config`. That
/// configuration draws the `#RANDOM` branches from a generator that the operating
/// system seeds, so the outcome depends on more than the text: nothing is claimed of
/// it (`parse_bms` returns for every text; a failed parse is reported inside the
/// output).
#[verifier::external_body]
pub fn parse_chart(text: &str) -> (r: bms_rs::bms::BmsOutput) {
    bms_rs::bms::parse_bms(text, bms_rs::bms::default_config())
}

/// The text of a chart file: its bytes read as UTF-8 when they are valid UTF-8, and
/// as Shift_JIS otherwise.
pub fn decode_bms_content(data: &[u8]) -> (r: String)
    requires
        data@.len() <= usize::MAX / 4,
    ensures
        r@ == match utf8_text(data@) {
            Some(t) => t,
            None => shift_jis_text(data@),
        },
{
    match utf8_decode(data) {
        Some(s) => s.to_owned(),
        None => shift_jis_decode(data),
    }
}

/// The player side of a note channel.
#[derive(Debug, Clone, Copy, PartialEq, Eq, Hash, Structural)]
pub enum PlayerSide {
    /// The first player's side.
    Player1,
    /// The second player's side.
    Player2,
}

/// The key of a note channel.
#[derive(Debug, Clone, Copy, PartialEq, Eq, Hash, Structural)]
pub enum Key {
    /// A key of the controller, numbered from 1.
    Key(u8),
    /// A scratch disk, numbered from 1.
    Scratch(u8),
    /// The foot pedal.
    FootPedal,
    /// The free-scratch zone.
    FreeZone,
}

/// The lane of a key within one player's lanes: keys 1-5 and the scratch (as lane 5)
/// in the five-key modes, keys 1-7 and the scratch (as lane 7) in the seven-key modes,
/// keys 1-9 in the nine-button mode, keys 1-26 in the keyboard modes.
pub open spec fn lane_in_player(key: Key, mode: PlayMode) -> Option<nat> {
    match mode {
        PlayMode::Beat5K | PlayMode::Beat10K => match key {
            Key::Key(n) => if 1 <= n <= 5 {
                Some((n - 1) as nat)
            } else {
                None
            },
            Key::Scratch(n) => if n == 1 {
                Some(5)
            } else {
                None
            },
            _ => None,
        },
        PlayMode::Beat7K | PlayMode::Beat14K => match key {
            Key::Key(n) => if 1 <= n <= 7 {
                Some((n - 1) as nat)
            } else {
                None
            },
            Key::Scratch(n) => if n == 1 {
                Some(7)
            } else {
                None
            },
            _ => None,
        },
        PlayMode::PopN9K => match key {
            Key::Key(n) => if 1 <= n <= 9 {
                Some((n - 1) as nat)
            } else {
                None
            },
            _ => None,
        },
        PlayMode::Keyboard24K | PlayMode::Keyboard24KDouble => match key {
            Key::Key(n) => if 1 <= n <= 26 {
                Some((n - 1) as nat)
            } else {
                None
            },
            _ => None,
        },
    }
}

/// The lane of a key on a side: the second side's lanes follow the first's.
pub open spec fn key_lane(side: PlayerSide, key: Key, mode: PlayMode) -> Option<usize> {
    let offset: nat = match side {
        PlayerSide::Player1 => 0,
        PlayerSide::Player2 => mode.lanes_per_player(),
    };
    match lane_in_player(key, mode) {
        Some(l) => Some((l + offset) as usize),
        None => None,
    }
}

/// The kind of note a channel holds.
#[derive(Debug, Clone, Copy, PartialEq, Eq, Hash, Structural)]
pub enum NoteKind {
    /// A note to hit.
    Visible,
    /// A note that is not drawn (it plays its sound when hit).
    Invisible,
    /// One end of a long note.
    Long,
    /// A mine.
    Landmine,
}

/// A judge level of the chart header.
#[derive(Debug, Clone, Copy, PartialEq, Eq, Hash, Structural)]
pub enum RankLevel {
    VeryHard,
    Hard,
    Normal,
    Easy,
    /// Any other number.
    OtherInt(i64),
}

/// The note type of a channel's note kind: long notes are of the chart's long-note
/// mode.
pub open spec fn note_type_of(kind: NoteKind, ln_mode: LongNoteMode) -> NoteType {
    match kind {
        NoteKind::Visible => NoteType::Normal,
        NoteKind::Invisible => NoteType::Invisible,
        NoteKind::Long => match ln_mode {
            LongNoteMode::LnType1 => NoteType::LongNote,
            LongNoteMode::ChargeNote => NoteType::ChargeNote,
            LongNoteMode::HellChargeNote => NoteType::HellChargeNote,
        },
        NoteKind::Landmine => NoteType::Mine,
    }
}

/// The note type of a channel's note kind.
pub fn note_type_for(kind: NoteKind, ln_mode: LongNoteMode) -> (r: NoteType)
    ensures
        r == note_type_of(kind, ln_mode),
{
    match kind {
        NoteKind::Visible => NoteType::Normal,
        NoteKind::Invisible => NoteType::Invisible,
        NoteKind::Long => match ln_mode {
            LongNoteMode::LnType1 => NoteType::LongNote,
            LongNoteMode::ChargeNote => NoteType::ChargeNote,
            LongNoteMode::HellChargeNote => NoteType::HellChargeNote,
        },
        NoteKind::Landmine => NoteType::Mine,
    }
}

/// The note of a channel at a time, if its key has a lane in the mode; its long-note
/// end is resolved later.
pub open spec fn chart_note_of(
    side: PlayerSide,
    kind: NoteKind,
    key: Key,
    mode: PlayMode,
    ln_mode: LongNoteMode,
    time_us: i64,
    wav_id: u32,
    damage_bits: u64,
) -> Option<Note> {
    match key_lane(side, key, mode) {
        Some(lane) => Some(
            Note {
                lane,
                note_type: note_type_of(kind, ln_mode),
                time_us,
                end_time_us: 0,
                wav_id,
                damage_bits,
            },
        ),
        None => None,
    }
}

/// The note of a channel at a time (with the damage of a mine as the bit pattern of an
/// `f64`), if its key has a lane in the mode.
pub fn chart_note(
    side: PlayerSide,
    kind: NoteKind,
    key: Key,
    mode: PlayMode,
    ln_mode: LongNoteMode,
    time_us: i64,
    wav_id: u32,
    damage_bits: u64,
) -> (r: Option<Note>)
    ensures
        r == chart_note_of(side, kind, key, mode, ln_mode, time_us, wav_id, damage_bits),
{
    match key_to_lane(side, key, mode) {
        Some(lane) => Some(
            Note {
                lane,
                note_type: note_type_for(kind, ln_mode),
                time_us,
                end_time_us: 0,
                wav_id,
                damage_bits,
            },
        ),
        None => None,
    }
}

/// The judge rank a header level names: the four named levels are ranks 0-3 of #RANK;
/// any other number is a #DEFEXRANK percentage (cut to 32 bits).
pub open spec fn rank_of_level(level: RankLevel) -> (i32, JudgeRankType) {
    match level {
        RankLevel::VeryHard => (0, JudgeRankType::BmsRank),
        RankLevel::Hard => (1, JudgeRankType::BmsRank),
        RankLevel::Normal => (2, JudgeRankType::BmsRank),
        RankLevel::Easy => (3, JudgeRankType::BmsRank),
        RankLevel::OtherInt(v) => (v as i32, JudgeRankType::BmsDefExRank),
    }
}

/// The judge rank of a chart header: from #RANK when present, else the model's default
/// (100, a BMSON percentage); a #DEFEXRANK definition with a number takes precedence.
pub open spec fn header_rank(rank: Option<RankLevel>, exrank: Option<RankLevel>) -> (i32, JudgeRankType) {
    match exrank {
        Some(RankLevel::OtherInt(v)) => (v as i32, JudgeRankType::BmsDefExRank),
        _ => match rank {
            Some(level) => rank_of_level(level),
            None => (100, JudgeRankType::BmsonJudgeRank),
        },
    }
}

/// The judge rank of a chart header, from its #RANK (if any) and the level of its
/// first #DEFEXRANK definition (if any).
pub fn header_judge_rank(rank: Option<RankLevel>, exrank: Option<RankLevel>) -> (r: (i32, JudgeRankType))
    ensures
        r == header_rank(rank, exrank),
{
    let mut r: (i32, JudgeRankType) = (100, JudgeRankType::BmsonJudgeRank);
    match rank {
        Some(RankLevel::VeryHard) => {
            r = (0, JudgeRankType::BmsRank);
        },
        Some(RankLevel::Hard) => {
            r = (1, JudgeRankType::BmsRank);
        },
        Some(RankLevel::Normal) => {
            r = (2, JudgeRankType::BmsRank);
        },
        Some(RankLevel::Easy) => {
            r = (3, JudgeRankType::BmsRank);
        },
        Some(RankLevel::OtherInt(v)) => {
            r = (v as i32, JudgeRankType::BmsDefExRank);
        },
        None => {},
    }
    match exrank {
        Some(RankLevel::OtherInt(v)) => {
            r = (v as i32, JudgeRankType::BmsDefExRank);
        },
        _ => {},
    }
    r
}

/// Converts a channel's side and key to a lane of the mode.
pub fn key_to_lane(side: PlayerSide, key: Key, mode: PlayMode) -> (r: Option<usize>)
    ensures
        r == key_lane(side, key, mode),
{
    let player_offset = match side {
        PlayerSide::Player1 => 0,
        PlayerSide::Player2 => mode.lane_count() / mode.player_count(),
    };
    let lane_in_player: Option<usize> = match mode {
        PlayMode::Beat5K | PlayMode::Beat10K => match key {
            Key::Key(1) => Some(0),
            Key::Key(2) => Some(1),
            Key::Key(3) => Some(2),
            Key::Key(4) => Some(3),
            Key::Key(5) => Some(4),
            Key::Scratch(1) => Some(5),
            _ => None,
        },
        PlayMode::Beat7K | PlayMode::Beat14K => match key {
            Key::Key(1) => Some(0),
            Key::Key(2) => Some(1),
            Key::Key(3) => Some(2),
            Key::Key(4) => Some(3),
            Key::Key(5) => Some(4),
            Key::Key(6) => Some(5),
            Key::Key(7) => Some(6),
            Key::Scratch(1) => Some(7),
            _ => None,
        },
        PlayMode::PopN9K => match key {
            Key::Key(n) => if 1 <= n && n <= 9 {
                Some((n - 1) as usize)
            } else {
                None
            },
            _ => None,
        },
        PlayMode::Keyboard24K | PlayMode::Keyboard24KDouble => match key {
            Key::Key(n) => if 1 <= n && n <= 26 {
                Some((n - 1) as usize)
            } else {
                None
            },
            _ => None,
        },
    };
    match lane_in_player {
        Some(l) => Some(l + player_offset),
        None => None,
    }
}

/// The mode of a chart: double play when the header says so (fourteen keys when a
/// sixth or seventh key is used, ten otherwise), single play otherwise (seven keys when
/// a sixth or seventh key is used, five otherwise).
pub open spec fn play_mode_of(is_double: bool, keys: Seq<Key>) -> PlayMode {
    let wide = keys.contains(Key::Key(6)) || keys.contains(Key::Key(7));
    if is_double {
        if wide {
            PlayMode::Beat14K
        } else {
            PlayMode::Beat10K
        }
    } else if wide {
        PlayMode::Beat7K
    } else {
        PlayMode::Beat5K
    }
}

proof fn lemma_push_contains(s: Seq<Key>, x: Key, y: Key)
    ensures
        s.push(x).contains(y) <==> (s.contains(y) || x == y),
{
    if s.contains(y) {
        let j = choose|j: int| 0 <= j < s.len() && s[j] == y;
        assert(s.push(x)[j] == y);
    }
    if x == y {
        assert(s.push(x)[s.len() as int] == y);
    }
    if s.push(x).contains(y) {
        let j = choose|j: int| 0 <= j < s.len() + 1 && s.push(x)[j] == y;
        if j < s.len() {
            assert(s[j] == y);
        }
    }
}

/// Detects the mode of a chart from the header's player setting and the keys of its
/// note channels.
pub fn detect_play_mode(is_double: bool, note_keys: &Vec<Key>) -> (r: PlayMode)
    ensures
        r == play_mode_of(is_double, note_keys@),
{
    let mut has_key6 = false;
    let mut has_key7 = false;
    let mut i: usize = 0;
    while i < note_keys.len()
        invariant
            i <= note_keys@.len(),
            has_key6 <==> note_keys@.take(i as int).contains(Key::Key(6)),
            has_key7 <==> note_keys@.take(i as int).contains(Key::Key(7)),
        decreases note_keys@.len() - i,
    {
        assert(note_keys@.take(i + 1) =~= note_keys@.take(i as int).push(note_keys@[i as int]));
        proof {
            lemma_push_contains(note_keys@.take(i as int), note_keys@[i as int], Key::Key(6));
            lemma_push_contains(note_keys@.take(i as int), note_keys@[i as int], Key::Key(7));
        }
        match note_keys[i] {
            Key::Key(6) => has_key6 = true,
            Key::Key(7) => has_key7 = true,
            _ => {},
        }
        i = i + 1;
    }
    assert(note_keys@.take(note_keys@.len() as int) =~= note_keys@);
    if is_double {
        if has_key6 || has_key7 {
            PlayMode::Beat14K
        } else {
            PlayMode::Beat10K
        }
    } else if has_key6 || has_key7 {
        PlayMode::Beat7K
    } else {
        PlayMode::Beat5K
    }
}

/// The indices of the long notes on a lane among the first `upto` notes, in order.
pub open spec fn ln_indices(notes: Seq<Note>, lane: usize, upto: int) -> Seq<int>
    decreases upto,
{
    if upto <= 0 {
        Seq::empty()
    } else {
        let p = ln_indices(notes, lane, upto - 1);
        if notes[upto - 1].lane == lane && notes[upto - 1].note_type.long() {
            p.push(upto - 1)
        } else {
            p
        }
    }
}

/// The place of note index `x` in a list of indices: before the first index whose note
/// is later.
pub open spec fn time_pos(notes: Seq<Note>, s: Seq<int>, x: int) -> int
    decreases s.len(),
{
    if s.len() == 0 {
        0
    } else if notes[x].time_us < notes[s[0]].time_us {
        0
    } else {
        1 + time_pos(notes, s.drop_first(), x)
    }
}

/// Note indices sorted by time, indices that tie keeping their order.
pub open spec fn sort_by_time(notes: Seq<Note>, s: Seq<int>) -> Seq<int>
    decreases s.len(),
{
    if s.len() == 0 {
        s
    } else {
        let t = sort_by_time(notes, s.drop_last());
        t.insert(time_pos(notes, t, s.last()), s.last())
    }
}

/// The long notes of a lane in time order.
pub open spec fn ln_order(notes: Seq<Note>, lane: usize) -> Seq<int> {
    sort_by_time(notes, ln_indices(notes, lane, notes.len() as int))
}

/// A note after the long notes are paired: in time order on each lane, the first, third,
/// ... long note ends where the next one starts, and that next one becomes invisible.
pub open spec fn paired_note(notes: Seq<Note>, i: int) -> Note {
    let order = ln_order(notes, notes[i].lane);
    if order.contains(i) {
        let k = order.index_of(i);
        if k % 2 == 0 && k + 1 < order.len() {
            Note { end_time_us: notes[order[k + 1]].time_us, ..notes[i] }
        } else if k % 2 == 1 {
            Note { note_type: NoteType::Invisible, ..notes[i] }
        } else {
            notes[i]
        }
    } else {
        notes[i]
    }
}

proof fn lemma_ln_indices(notes: Seq<Note>, lane: usize, upto: int)
    requires
        0 <= upto <= notes.len(),
    ensures
        forall|a: int, b: int|
            0 <= a < b < ln_indices(notes, lane, upto).len() ==> ln_indices(notes, lane, upto)[a]
                < ln_indices(notes, lane, upto)[b],
        forall|a: int|
            0 <= a < ln_indices(notes, lane, upto).len() ==> 0 <= #[trigger] ln_indices(
                notes,
                lane,
                upto,
            )[a] < upto,
        forall|i: int|
            0 <= i < upto ==> (ln_indices(notes, lane, upto).contains(i) <==> (notes[i].lane
                == lane && notes[i].note_type.long())),
    decreases upto,
{
    if upto > 0 {
        lemma_ln_indices(notes, lane, upto - 1);
        let p = ln_indices(notes, lane, upto - 1);
        let q = ln_indices(notes, lane, upto);
        assert forall|i: int| 0 <= i < upto implies (q.contains(i) <==> (notes[i].lane == lane
            && notes[i].note_type.long())) by {
            if q.contains(i) {
                let j = choose|j: int| 0 <= j < q.len() && q[j] == i;
                if j < p.len() {
                    assert(p[j] == q[j]);
                    assert(p.contains(i));
                }
            }
            if i < upto - 1 && p.contains(i) {
                let j = choose|j: int| 0 <= j < p.len() && p[j] == i;
                assert(q[j] == i);
            }
            if i == upto - 1 && notes[i].lane == lane && notes[i].note_type.long() {
                assert(q[p.len() as int] == i);
            }
            if i < upto - 1 && q.contains(i) {
                let j = choose|j: int| 0 <= j < q.len() && q[j] == i;
                if j == p.len() {
                    assert(q[j] == upto - 1);
                }
            }
        }
    }
}

proof fn lemma_time_pos(notes: Seq<Note>, s: Seq<int>, x: int)
    ensures
        0 <= time_pos(notes, s, x) <= s.len(),
    decreases s.len(),
{
    if s.len() > 0 && !(notes[x].time_us < notes[s[0]].time_us) {
        lemma_time_pos(notes, s.drop_first(), x);
    }
}

proof fn lemma_sort_by_time(notes: Seq<Note>, s: Seq<int>)
    ensures
        sort_by_time(notes, s).len() == s.len(),
        forall|y: int| sort_by_time(notes, s).contains(y) <==> s.contains(y),
        s.no_duplicates() ==> sort_by_time(notes, s).no_duplicates(),
    decreases s.len(),
{
    if s.len() > 0 {
        let t = sort_by_time(notes, s.drop_last());
        lemma_sort_by_time(notes, s.drop_last());
        let x = s.last();
        lemma_time_pos(notes, t, x);
        let p = time_pos(notes, t, x);
        let u = t.insert(p, x);
        assert forall|y: int| u.contains(y) <==> s.contains(y) by {
            if u.contains(y) {
                let j = choose|j: int| 0 <= j < u.len() && u[j] == y;
                if j < p {
                    assert(t[j] == y);
                    assert(t.contains(y));
                    assert(s.drop_last().contains(y));
                    let k = choose|k: int| 0 <= k < s.drop_last().len() && s.drop_last()[k] == y;
                    assert(s.drop_last()[k] == s[k]);
                } else if j == p {
                    assert(s[s.len() - 1] == y);
                } else {
                    assert(t[j - 1] == y);
                    assert(t.contains(y));
                    assert(s.drop_last().contains(y));
                    let k = choose|k: int| 0 <= k < s.drop_last().len() && s.drop_last()[k] == y;
                    assert(s.drop_last()[k] == s[k]);
                }
            }
            if s.contains(y) {
                let k = choose|k: int| 0 <= k < s.len() && s[k] == y;
                if k == s.len() - 1 {
                    assert(u[p] == y);
                } else {
                    assert(s.drop_last()[k] == y);
                    assert(s.drop_last().contains(y));
                    assert(t.contains(y));
                    let j = choose|j: int| 0 <= j < t.len() && t[j] == y;
                    if j < p {
                        assert(u[j] == y);
                    } else {
                        assert(u[j + 1] == y);
                    }
                }
            }
        }
        if s.no_duplicates() {
            assert(s.drop_last().no_duplicates()) by {
                assert forall|a: int, b: int|
                    0 <= a < s.drop_last().len() && 0 <= b < s.drop_last().len() && a != b implies s.drop_last()[a]
                    != s.drop_last()[b] by {
                    assert(s.drop_last()[a] == s[a] && s.drop_last()[b] == s[b]);
                }
            }
            assert(!t.contains(x)) by {
                if t.contains(x) {
                    assert(s.drop_last().contains(x));
                    let k = choose|k: int| 0 <= k < s.drop_last().len() && s.drop_last()[k] == x;
                    assert(s[k] == s[s.len() - 1]);
                }
            }
            assert forall|a: int, b: int| 0 <= a < u.len() && 0 <= b < u.len() && a != b implies u[a]
                != u[b] by {
                let ia = if a < p {
                    a
                } else {
                    a - 1
                };
                let ib = if b < p {
                    b
                } else {
                    b - 1
                };
                if a == p {
                    assert(u[b] == t[ib]);
                    assert(t.contains(t[ib]));
                } else if b == p {
                    assert(u[a] == t[ia]);
                    assert(t.contains(t[ia]));
                } else {
                    assert(u[a] == t[ia] && u[b] == t[ib]);
                }
            }
        }
    }
}

/// Sorts note indices by the time of their notes, keeping the order of ties.
fn sort_indices_by_time(notes: &Vec<Note>, idx: &Vec<usize>) -> (r: Vec<usize>)
    requires
        forall|k: int| 0 <= k < idx@.len() ==> #[trigger] idx@[k] < notes@.len(),
    ensures
        r@.map_values(|v: usize| v as int) == sort_by_time(
            notes@,
            idx@.map_values(|v: usize| v as int),
        ),
        forall|k: int| 0 <= k < r@.len() ==> #[trigger] r@[k] < notes@.len(),
{
    let ghost s = idx@.map_values(|v: usize| v as int);
    let mut r: Vec<usize> = Vec::new();
    let mut k: usize = 0;
    assert(s.take(0) =~= Seq::<int>::empty());
    assert(r@.map_values(|v: usize| v as int) =~= Seq::<int>::empty());
    while k < idx.len()
        invariant
            k <= idx@.len(),
            s == idx@.map_values(|v: usize| v as int),
            forall|j: int| 0 <= j < idx@.len() ==> #[trigger] idx@[j] < notes@.len(),
            r@.map_values(|v: usize| v as int) == sort_by_time(notes@, s.take(k as int)),
            forall|j: int| 0 <= j < r@.len() ==> #[trigger] r@[j] < notes@.len(),
        decreases idx@.len() - k,
    {
        let x = idx[k];
        let ghost t = r@.map_values(|v: usize| v as int);
        let mut p: usize = 0;
        assert(t.skip(0) =~= t);
        while p < r.len() && !(notes[x].time_us < notes[r[p]].time_us)
            invariant
                p <= r@.len(),
                x < notes@.len(),
                t == r@.map_values(|v: usize| v as int),
                forall|j: int| 0 <= j < r@.len() ==> #[trigger] r@[j] < notes@.len(),
                time_pos(notes@, t, x as int) == p + time_pos(notes@, t.skip(p as int), x as int),
            decreases r@.len() - p,
        {
            assert(t.skip(p as int).drop_first() =~= t.skip(p + 1));
            assert(t.skip(p as int)[0] == r@[p as int] as int);
            p = p + 1;
        }
        if p < r.len() {
            assert(t.skip(p as int)[0] == r@[p as int] as int);
        }
        assert(s.take(k + 1).drop_last() =~= s.take(k as int));
        assert(s.take(k + 1).last() == x as int);
        r.insert(p, x);
        assert(r@.map_values(|v: usize| v as int) =~= t.insert(p as int, x as int));
        k = k + 1;
    }
    assert(s.take(idx@.len() as int) =~= s);
    r
}

proof fn lemma_ln_indices_same(a: Seq<Note>, b: Seq<Note>, lane: usize, upto: int)
    requires
        0 <= upto <= a.len(),
        a.len() == b.len(),
        forall|i: int| 0 <= i < a.len() && a[i].lane == lane ==> #[trigger] b[i] == a[i],
        forall|i: int| 0 <= i < a.len() ==> #[trigger] b[i].lane == a[i].lane,
    ensures
        ln_indices(a, lane, upto) == ln_indices(b, lane, upto),
    decreases upto,
{
    if upto > 0 {
        lemma_ln_indices_same(a, b, lane, upto - 1);
        assert(b[upto - 1].lane == a[upto - 1].lane);
    }
}

proof fn lemma_sort_same_times(a: Seq<Note>, b: Seq<Note>, s: Seq<int>)
    requires
        a.len() == b.len(),
        forall|i: int| 0 <= i < a.len() ==> #[trigger] b[i].time_us == a[i].time_us,
        forall|k: int| 0 <= k < s.len() ==> 0 <= #[trigger] s[k] < a.len(),
    ensures
        sort_by_time(a, s) == sort_by_time(b, s),
        forall|y: int| sort_by_time(a, s).contains(y) ==> s.contains(y),
    decreases s.len(),
{
    if s.len() > 0 {
        lemma_sort_same_times(a, b, s.drop_last());
        lemma_sort_by_time(a, s);
        let t = sort_by_time(a, s.drop_last());
        lemma_sort_by_time(a, s.drop_last());
        assert forall|k: int| 0 <= k < t.len() implies 0 <= #[trigger] t[k] < a.len() by {
            assert(t.contains(t[k]));
            assert(s.drop_last().contains(t[k]));
        }
        lemma_time_pos_same(a, b, t, s.last());
    }
}

proof fn lemma_time_pos_same(a: Seq<Note>, b: Seq<Note>, t: Seq<int>, x: int)
    requires
        a.len() == b.len(),
        forall|i: int| 0 <= i < a.len() ==> #[trigger] b[i].time_us == a[i].time_us,
        forall|k: int| 0 <= k < t.len() ==> 0 <= #[trigger] t[k] < a.len(),
        0 <= x < a.len(),
    ensures
        time_pos(a, t, x) == time_pos(b, t, x),
    decreases t.len(),
{
    if t.len() > 0 {
        assert(b[t[0]].time_us == a[t[0]].time_us);
        assert(b[x].time_us == a[x].time_us);
        assert forall|k: int| 0 <= k < t.drop_first().len() implies 0 <= #[trigger] t.drop_first()[k]
            < a.len() by {
            assert(t.drop_first()[k] == t[k + 1]);
        }
        lemma_time_pos_same(a, b, t.drop_first(), x);
    }
}

/// Joins the long-note pairs of a chart: on each lane, in time order (ties in chart
/// order), the first, third, ... long note ends where the next long note starts, and
/// that next one becomes an invisible note.
pub fn resolve_ln_end_times(notes: &mut Vec<Note>)
    requires
        forall|i: int| 0 <= i < old(notes)@.len() ==> #[trigger] old(notes)@[i].lane < usize::MAX,
    ensures
        final(notes)@.len() == old(notes)@.len(),
        forall|i: int| 0 <= i < old(notes)@.len() ==> #[trigger] final(notes)@[i] == paired_note(old(notes)@, i),
{
    let ghost orig = notes@;
    let n = notes.len();
    let mut max_lane: usize = 0;
    let mut k: usize = 0;
    while k < n
        invariant
            n == notes@.len(),
            notes@ == orig,
            k <= n,
            forall|i: int| 0 <= i < orig.len() ==> #[trigger] orig[i].lane < usize::MAX,
            max_lane < usize::MAX,
            forall|i: int| 0 <= i < k ==> #[trigger] orig[i].lane <= max_lane,
        decreases n - k,
    {
        if notes[k].lane > max_lane {
            max_lane = notes[k].lane;
        }
        k = k + 1;
    }
    let lane_count = max_lane + 1;
    let mut lane: usize = 0;
    while lane < lane_count
        invariant
            n == notes@.len(),
            n == orig.len(),
            lane <= lane_count,
            forall|i: int| 0 <= i < n ==> #[trigger] orig[i].lane < lane_count,
            forall|i: int|
                0 <= i < n ==> #[trigger] notes@[i] == if orig[i].lane < lane {
                    paired_note(orig, i)
                } else {
                    orig[i]
                },
        decreases lane_count - lane,
    {
        let ghost cur = notes@;
        proof {
            assert forall|i: int| 0 <= i < n implies #[trigger] cur[i].time_us == orig[i].time_us
                && cur[i].lane == orig[i].lane by {}
            lemma_ln_indices_same(orig, cur, lane, n as int);
            lemma_ln_indices(orig, lane, n as int);
        }
        let mut idx: Vec<usize> = Vec::new();
        let mut k: usize = 0;
        assert(idx@.map_values(|v: usize| v as int) =~= ln_indices(cur, lane, 0));
        while k < n
            invariant
                n == notes@.len(),
                notes@ == cur,
                k <= n,
                idx@.map_values(|v: usize| v as int) == ln_indices(cur, lane, k as int),
                forall|j: int| 0 <= j < idx@.len() ==> #[trigger] idx@[j] < k,
            decreases n - k,
        {
            if notes[k].lane == lane && notes[k].is_long_note() {
                idx.push(k);
            }
            assert(idx@.map_values(|v: usize| v as int) =~= ln_indices(cur, lane, k + 1));
            k = k + 1;
        }
        let order = sort_indices_by_time(notes, &idx);
        let ghost s = ln_indices(orig, lane, n as int);
        let ghost ord = order@.map_values(|v: usize| v as int);
        proof {
            assert forall|j: int| 0 <= j < s.len() implies 0 <= #[trigger] s[j] < orig.len() by {}
            lemma_sort_same_times(orig, cur, s);
            lemma_sort_by_time(orig, s);
            assert(s.no_duplicates());
            assert(ord == ln_order(orig, lane));
        }
        let m = order.len();
        let mut ln_start: Option<usize> = None;
        let mut q: usize = 0;
        while q < m
            invariant
                n == notes@.len(),
                m == order@.len(),
                ord == order@.map_values(|v: usize| v as int),
                ord == ln_order(orig, lane),
                ord.no_duplicates(),
                forall|j: int| 0 <= j < m ==> #[trigger] order@[j] < n,
                forall|y: int| ord.contains(y) <==> s.contains(y),
                forall|i: int| 0 <= i < n ==> (s.contains(i) <==> (orig[i].lane == lane && orig[i].note_type.long())),
                q <= m,
                ln_start == if q % 2 == 1 {
                    Some(order@[q - 1])
                } else {
                    None::<usize>
                },
                forall|j: int|
                    0 <= j < q ==> #[trigger] notes@[order@[j] as int] == if j % 2 == 1 {
                        Note { note_type: NoteType::Invisible, ..orig[order@[j] as int] }
                    } else if j + 1 < q {
                        Note { end_time_us: orig[order@[j + 1] as int].time_us, ..orig[order@[j] as int] }
                    } else {
                        orig[order@[j] as int]
                    },
                forall|i: int|
                    0 <= i < n && !(exists|j: int| 0 <= j < q && order@[j] as int == i) ==> #[trigger] notes@[i]
                        == cur[i],
                forall|i: int| 0 <= i < n ==> #[trigger] cur[i] == if orig[i].lane < lane {
                    paired_note(orig, i)
                } else {
                    orig[i]
                },
            decreases m - q,
        {
            let idx_q = order[q];
            let ghost pre = notes@;
            proof {
                assert(ord[q as int] == idx_q as int);
                assert(ord.contains(idx_q as int));
                assert(orig[idx_q as int].lane == lane);
            }
            match ln_start {
                Some(start) => {
                    let t = notes[idx_q].time_us;
                    let mut sn = notes[start];
                    sn.end_time_us = t;
                    notes.set(start, sn);
                    let mut en = notes[idx_q];
                    en.note_type = NoteType::Invisible;
                    notes.set(idx_q, en);
                    ln_start = None;
                },
                None => {
                    ln_start = Some(idx_q);
                },
            }
            proof {
                assert forall|j: int| 0 <= j < q + 1 implies #[trigger] notes@[order@[j] as int] == if j % 2 == 1 {
                    Note { note_type: NoteType::Invisible, ..orig[order@[j] as int] }
                } else if j + 1 < q + 1 {
                    Note { end_time_us: orig[order@[j + 1] as int].time_us, ..orig[order@[j] as int] }
                } else {
                    orig[order@[j] as int]
                } by {
                    assert(ord[j] == order@[j] as int);
                    assert(ord[q as int] == order@[q as int] as int);
                    assert(ord.contains(order@[j] as int));
                    assert(cur[order@[j] as int] == orig[order@[j] as int]);
                    assert(ord.contains(order@[q as int] as int));
                    assert(cur[order@[q as int] as int] == orig[order@[q as int] as int]);
                    assert(pre[order@[q as int] as int] == cur[order@[q as int] as int]) by {
                        if exists|jj: int| 0 <= jj < q && order@[jj] as int == order@[q as int] as int {
                            let jj = choose|jj: int| 0 <= jj < q && order@[jj] as int == order@[q as int] as int;
                            assert(ord[jj] == order@[jj] as int);
                        }
                    }
                    if j < q {
                        assert(order@[j] != order@[q as int]);
                        let v = pre[order@[j] as int];
                    }
                    if q > 0 {
                        assert(ord[q - 1] == order@[q - 1] as int);
                        let w = pre[order@[q - 1] as int];
                        if j != q - 1 {
                            assert(order@[j] != order@[q - 1]);
                        }
                    }
                }
                assert forall|i: int|
                    0 <= i < n && !(exists|j: int| 0 <= j < q + 1 && order@[j] as int == i) implies #[trigger] notes@[i]
                    == cur[i] by {
                    assert(order@[q as int] as int != i);
                    if q > 0 {
                        assert(order@[q - 1] as int != i);
                    }
                }
            }
            q = q + 1;
        }
        proof {
            assert forall|i: int| 0 <= i < n implies #[trigger] notes@[i] == if orig[i].lane < lane + 1 {
                paired_note(orig, i)
            } else {
                orig[i]
            } by {
                if orig[i].lane == lane {
                    if ord.contains(i) {
                        let j = ord.index_of(i);
                        assert(ord[j] == i);
                        assert(order@[j] as int == i);
                        assert(cur[i] == orig[i]);
                    } else {
                        assert(!s.contains(i));
                        if exists|j: int| 0 <= j < m && order@[j] as int == i {
                            let j = choose|j: int| 0 <= j < m && order@[j] as int == i;
                            assert(ord[j] == i);
                        }
                    }
                } else {
                    if exists|j: int| 0 <= j < m && order@[j] as int == i {
                        let j = choose|j: int| 0 <= j < m && order@[j] as int == i;
                        assert(ord[j] == i);
                        assert(ord.contains(i));
                    }
                }
            }
        }
        lane = lane + 1;
    }
}

/// Sorts the notes of a chart by time, notes at the same time keeping their order.
pub fn sort_notes_by_time(notes: &mut Vec<Note>)
    ensures
        final(notes)@ == sorted_by_time(old(notes)@),
{
    let mut r: Vec<Note> = Vec::new();
    let mut k: usize = 0;
    let ghost v = notes@;
    assert(v.take(0) =~= Seq::<Note>::empty());
    while k < notes.len()
        invariant
            k <= v.len(),
            notes@ == v,
            r@ == sorted_by_time(v.take(k as int)),
        decreases v.len() - k,
    {
        let x = notes[k];
        let mut p: usize = 0;
        assert(r@.skip(0) =~= r@);
        while p < r.len() && !(x.time_us < r[p].time_us)
            invariant
                p <= r@.len(),
                time_insert_pos(r@, x) == p + time_insert_pos(r@.skip(p as int), x),
            decreases r@.len() - p,
        {
            assert(r@.skip(p as int).drop_first() =~= r@.skip(p + 1));
            p = p + 1;
        }
        if p < r.len() {
            assert(r@.skip(p as int)[0] == r@[p as int]);
        }
        assert(v.take(k + 1).drop_last() =~= v.take(k as int));
        r.insert(p, x);
        k = k + 1;
    }
    assert(v.take(v.len() as int) =~= v);
    *notes = r;
}

} // verus!
