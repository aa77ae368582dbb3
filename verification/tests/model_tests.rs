use brs::model::bms_loader::{
    chart_note, decode_bms_content, detect_play_mode, header_judge_rank, key_to_lane, note_type_for,
    resolve_ln_end_times, sort_notes_by_time, Key, NoteKind, PlayerSide, RankLevel,
};
use brs::model::note::{JudgeRankType, LongNoteMode};
use brs::model::bms_model::{normalize_judge_rank, JudgeWindowRule, PlayerRule, PlayerRuleType};
use brs::model::note::{Note, NoteType, PlayMode};
use brs::model::timeline::{Timeline, Timelines, SCROLL_ONE_BITS};

fn note(lane: usize, note_type: NoteType, time_us: i64) -> Note {
    Note {
        lane,
        note_type,
        time_us,
        end_time_us: 0,
        wav_id: 0,
        damage_bits: 0.0f64.to_bits(),
    }
}

#[test]
fn play_mode_lane_count() {
    assert_eq!(PlayMode::Beat5K.lane_count(), 6);
    assert_eq!(PlayMode::Beat7K.lane_count(), 8);
    assert_eq!(PlayMode::Beat10K.lane_count(), 12);
    assert_eq!(PlayMode::Beat14K.lane_count(), 16);
    assert_eq!(PlayMode::PopN9K.lane_count(), 9);
    assert_eq!(PlayMode::Keyboard24K.lane_count(), 26);
    assert_eq!(PlayMode::Keyboard24KDouble.lane_count(), 52);
}

#[test]
fn play_mode_key_count() {
    assert_eq!(PlayMode::Beat5K.key_count(), 7);
    assert_eq!(PlayMode::Beat7K.key_count(), 9);
    assert_eq!(PlayMode::Beat10K.key_count(), 14);
    assert_eq!(PlayMode::Beat14K.key_count(), 18);
    assert_eq!(PlayMode::PopN9K.key_count(), 9);
    assert_eq!(PlayMode::Keyboard24K.key_count(), 26);
    assert_eq!(PlayMode::Keyboard24KDouble.key_count(), 52);
}

#[test]
fn play_mode_player_count() {
    assert_eq!(PlayMode::Beat5K.player_count(), 1);
    assert_eq!(PlayMode::Beat7K.player_count(), 1);
    assert_eq!(PlayMode::PopN9K.player_count(), 1);
    assert_eq!(PlayMode::Keyboard24K.player_count(), 1);
    assert_eq!(PlayMode::Beat10K.player_count(), 2);
    assert_eq!(PlayMode::Beat14K.player_count(), 2);
    assert_eq!(PlayMode::Keyboard24KDouble.player_count(), 2);
}

#[test]
fn play_mode_scratch() {
    for i in 0..5 {
        assert!(!PlayMode::Beat5K.is_scratch(i));
    }
    assert!(PlayMode::Beat5K.is_scratch(5));
    assert_eq!(PlayMode::Beat5K.scratch_index(5), Some(0));

    for i in 0..7 {
        assert!(!PlayMode::Beat7K.is_scratch(i));
    }
    assert!(PlayMode::Beat7K.is_scratch(7));

    assert_eq!(PlayMode::Beat14K.scratch_index(7), Some(0));
    assert_eq!(PlayMode::Beat14K.scratch_index(15), Some(1));
    assert_eq!(PlayMode::Beat14K.scratch_index(3), None);

    for i in 0..9 {
        assert!(!PlayMode::PopN9K.is_scratch(i));
    }
    assert_eq!(PlayMode::PopN9K.scratch_count(), 0);

    assert_eq!(PlayMode::Keyboard24K.scratch_count(), 0);
}

#[test]
fn play_mode_skin_offset() {
    assert_eq!(PlayMode::Beat7K.lane_to_skin_offset(0), 1);
    assert_eq!(PlayMode::Beat7K.lane_to_skin_offset(6), 7);
    assert_eq!(PlayMode::Beat7K.lane_to_skin_offset(7), 0);

    for i in 0..9 {
        assert_eq!(PlayMode::PopN9K.lane_to_skin_offset(i), i + 1);
    }
}

#[test]
fn play_mode_lane_to_player() {
    for i in 0..8 {
        assert_eq!(PlayMode::Beat7K.lane_to_player(i), 0);
    }
    for i in 0..8 {
        assert_eq!(PlayMode::Beat14K.lane_to_player(i), 0);
    }
    for i in 8..16 {
        assert_eq!(PlayMode::Beat14K.lane_to_player(i), 1);
    }
}

#[test]
fn note_is_long_note() {
    let normal = note(0, NoteType::Normal, 0);
    assert!(!normal.is_long_note());

    let ln = Note {
        lane: 0,
        note_type: NoteType::LongNote,
        time_us: 1_000_000,
        end_time_us: 2_000_000,
        wav_id: 0,
        damage_bits: 0.0f64.to_bits(),
    };
    assert!(ln.is_long_note());
    assert_eq!(ln.duration_us(), 1_000_000);

    let mine = Note {
        lane: 0,
        note_type: NoteType::Mine,
        time_us: 0,
        end_time_us: 0,
        wav_id: 0,
        damage_bits: 10.0f64.to_bits(),
    };
    assert!(!mine.is_long_note());
}

#[test]
fn player_rule_from_mode() {
    assert_eq!(
        PlayerRule::from_mode(PlayMode::Beat5K).rule_type,
        PlayerRuleType::FiveKeys
    );
    assert_eq!(
        PlayerRule::from_mode(PlayMode::Beat7K).rule_type,
        PlayerRuleType::SevenKeys
    );
    assert_eq!(
        PlayerRule::from_mode(PlayMode::PopN9K).rule_type,
        PlayerRuleType::Pms
    );
    assert_eq!(
        PlayerRule::from_mode(PlayMode::Keyboard24K).rule_type,
        PlayerRuleType::Keyboard
    );
}

#[test]
fn pms_judge_window_rule() {
    let rule = JudgeWindowRule::pms();
    assert_eq!(rule.judge_rank, [33, 50, 70, 100, 133]);
    assert_eq!(rule.fix_judge, [true, false, false, true, true]);
}

#[test]
fn key_to_lane_beat7k() {
    assert_eq!(
        key_to_lane(PlayerSide::Player1, Key::Key(1), PlayMode::Beat7K),
        Some(0)
    );
    assert_eq!(
        key_to_lane(PlayerSide::Player1, Key::Key(7), PlayMode::Beat7K),
        Some(6)
    );
    assert_eq!(
        key_to_lane(PlayerSide::Player1, Key::Scratch(1), PlayMode::Beat7K),
        Some(7)
    );
}

#[test]
fn key_to_lane_beat14k() {
    assert_eq!(
        key_to_lane(PlayerSide::Player2, Key::Key(1), PlayMode::Beat14K),
        Some(8)
    );
    assert_eq!(
        key_to_lane(PlayerSide::Player2, Key::Scratch(1), PlayMode::Beat14K),
        Some(15)
    );
}

#[test]
fn key_to_lane_popn9k() {
    for i in 1..=9 {
        assert_eq!(
            key_to_lane(PlayerSide::Player1, Key::Key(i), PlayMode::PopN9K),
            Some((i - 1) as usize)
        );
    }
}

#[test]
fn key_to_lane_unknown_keys() {
    assert_eq!(key_to_lane(PlayerSide::Player1, Key::Key(8), PlayMode::Beat7K), None);
    assert_eq!(key_to_lane(PlayerSide::Player1, Key::FootPedal, PlayMode::Beat7K), None);
    assert_eq!(key_to_lane(PlayerSide::Player1, Key::Scratch(1), PlayMode::PopN9K), None);
    assert_eq!(
        key_to_lane(PlayerSide::Player2, Key::Key(26), PlayMode::Keyboard24KDouble),
        Some(51)
    );
    assert_eq!(
        key_to_lane(PlayerSide::Player2, Key::Scratch(1), PlayMode::Beat10K),
        Some(11)
    );
}

#[test]
fn detect_play_mode_by_keys() {
    assert_eq!(detect_play_mode(false, &vec![Key::Key(1), Key::Key(5)]), PlayMode::Beat5K);
    assert_eq!(detect_play_mode(false, &vec![Key::Key(1), Key::Key(7)]), PlayMode::Beat7K);
    assert_eq!(detect_play_mode(true, &vec![Key::Key(6)]), PlayMode::Beat14K);
    assert_eq!(detect_play_mode(true, &vec![Key::Scratch(1)]), PlayMode::Beat10K);
    assert_eq!(detect_play_mode(false, &vec![]), PlayMode::Beat5K);
}

#[test]
fn resolve_ln_pairs_in_time_order() {
    let mut notes = vec![
        note(0, NoteType::LongNote, 3000),
        note(0, NoteType::LongNote, 1000),
        note(1, NoteType::Normal, 1000),
        note(0, NoteType::LongNote, 2000),
        note(0, NoteType::LongNote, 5000),
        note(1, NoteType::LongNote, 4000),
    ];
    resolve_ln_end_times(&mut notes);
    // lane 0 in time order: 1000 (idx 1), 2000 (idx 3), 3000 (idx 0), 5000 (idx 4)
    assert_eq!(notes[1].end_time_us, 2000);
    assert_eq!(notes[3].note_type, NoteType::Invisible);
    assert_eq!(notes[0].end_time_us, 5000);
    assert_eq!(notes[4].note_type, NoteType::Invisible);
    assert_eq!(notes[0].note_type, NoteType::LongNote);
    assert_eq!(notes[1].note_type, NoteType::LongNote);
    // an unpaired long note stays as it is
    assert_eq!(notes[5].note_type, NoteType::LongNote);
    assert_eq!(notes[5].end_time_us, 0);
    assert_eq!(notes[2], note(1, NoteType::Normal, 1000));
}

fn make_note(lane: usize, time_us: i64) -> Note {
    note(lane, NoteType::Normal, time_us)
}

#[test]
fn timelines_sorted_insertion() {
    let mut tls = Timelines::new(8);
    tls.add(Timeline::new(2_000_000, 8));
    tls.add(Timeline::new(1_000_000, 8));
    tls.add(Timeline::new(3_000_000, 8));

    let times: Vec<i64> = tls.timelines().iter().map(|t| t.time_us).collect();
    assert_eq!(times, vec![1_000_000, 2_000_000, 3_000_000]);
}

#[test]
fn get_or_create_existing() {
    let mut tls = Timelines::new(8);
    tls.get_or_create(1_000_000);
    tls.get_or_create(1_000_000); // should not duplicate
    assert_eq!(tls.len(), 1);
}

#[test]
fn get_or_create_new() {
    let mut tls = Timelines::new(8);
    tls.get_or_create(1_000_000);
    tls.get_or_create(2_000_000);
    assert_eq!(tls.len(), 2);
}

#[test]
fn all_notes_sorted() {
    let lane_count = PlayMode::Beat7K.lane_count();
    let mut tls = Timelines::new(lane_count);

    let tl = tls.get_or_create(2_000_000);
    tl.notes[0] = Some(make_note(0, 2_000_000));

    let tl = tls.get_or_create(1_000_000);
    tl.notes[1] = Some(make_note(1, 1_000_000));

    let notes = tls.all_notes();
    assert_eq!(notes.len(), 2);
    assert_eq!(notes[0].time_us, 1_000_000);
    assert_eq!(notes[1].time_us, 2_000_000);
}

#[test]
fn lane_notes_filtered() {
    let lane_count = PlayMode::Beat7K.lane_count();
    let mut tls = Timelines::new(lane_count);

    let tl = tls.get_or_create(1_000_000);
    tl.notes[0] = Some(make_note(0, 1_000_000));
    tl.notes[1] = Some(make_note(1, 1_000_000));

    let tl = tls.get_or_create(2_000_000);
    tl.notes[0] = Some(make_note(0, 2_000_000));

    let lane0 = tls.lane_notes(0);
    assert_eq!(lane0.len(), 2);

    let lane1 = tls.lane_notes(1);
    assert_eq!(lane1.len(), 1);
}

#[test]
fn new_timeline_is_empty_with_a_slot_per_lane() {
    let tl = Timeline::new(5, 3);
    assert_eq!(tl.time_us, 5);
    assert_eq!(tl.notes, vec![None, None, None]);
    assert!(tl.bgm_events.is_empty() && tl.bga_events.is_empty());
    assert_eq!(f64::from_bits(tl.bpm_bits), 0.0);
    assert_eq!(f64::from_bits(tl.scroll_bits), 1.0);
    assert_eq!(SCROLL_ONE_BITS, 1.0f64.to_bits());
}

#[test]
fn all_notes_keep_lane_order_at_equal_times() {
    let mut tls = Timelines::new(4);
    let tl = tls.get_or_create(300);
    tl.notes[3] = Some(make_note(3, 300));
    tl.notes[1] = Some(make_note(1, 300));
    let tl = tls.get_or_create(100);
    tl.notes[2] = Some(make_note(2, 100));
    let lanes: Vec<usize> = tls.all_notes().iter().map(|n| n.lane).collect();
    assert_eq!(lanes, vec![2, 1, 3]);
    assert!(tls.lane_notes(9).is_empty());
    assert_eq!(tls.lane_count(), 4);
    assert!(!tls.is_empty());
    assert_eq!(tls.timelines_mut().len(), 2);
}

#[test]
fn sort_notes_by_time_keeps_ties_in_order() {
    let mut notes = vec![
        make_note(3, 500),
        make_note(1, 100),
        make_note(2, 500),
        make_note(0, 100),
        make_note(5, 0),
    ];
    sort_notes_by_time(&mut notes);
    let order: Vec<(i64, usize)> = notes.iter().map(|n| (n.time_us, n.lane)).collect();
    assert_eq!(order, vec![(0, 5), (100, 1), (100, 0), (500, 3), (500, 2)]);
}

#[test]
fn header_judge_rank_prefers_defexrank() {
    assert_eq!(header_judge_rank(None, None), (100, JudgeRankType::BmsonJudgeRank));
    assert_eq!(header_judge_rank(Some(RankLevel::VeryHard), None), (0, JudgeRankType::BmsRank));
    assert_eq!(header_judge_rank(Some(RankLevel::Easy), None), (3, JudgeRankType::BmsRank));
    assert_eq!(
        header_judge_rank(Some(RankLevel::OtherInt(80)), None),
        (80, JudgeRankType::BmsDefExRank)
    );
    assert_eq!(
        header_judge_rank(Some(RankLevel::Normal), Some(RankLevel::OtherInt(120))),
        (120, JudgeRankType::BmsDefExRank)
    );
    // a named level in #DEFEXRANK does not override #RANK
    assert_eq!(
        header_judge_rank(Some(RankLevel::Hard), Some(RankLevel::Easy)),
        (1, JudgeRankType::BmsRank)
    );
}

#[test]
fn note_kinds_map_to_note_types() {
    assert_eq!(note_type_for(NoteKind::Visible, LongNoteMode::LnType1), NoteType::Normal);
    assert_eq!(note_type_for(NoteKind::Invisible, LongNoteMode::LnType1), NoteType::Invisible);
    assert_eq!(note_type_for(NoteKind::Landmine, LongNoteMode::ChargeNote), NoteType::Mine);
    assert_eq!(note_type_for(NoteKind::Long, LongNoteMode::LnType1), NoteType::LongNote);
    assert_eq!(note_type_for(NoteKind::Long, LongNoteMode::ChargeNote), NoteType::ChargeNote);
    assert_eq!(
        note_type_for(NoteKind::Long, LongNoteMode::HellChargeNote),
        NoteType::HellChargeNote
    );
}

#[test]
fn chart_note_places_keys_on_lanes() {
    let n = chart_note(
        PlayerSide::Player2,
        NoteKind::Long,
        Key::Key(3),
        PlayMode::Beat14K,
        LongNoteMode::ChargeNote,
        1_000,
        7,
        0,
    )
    .unwrap();
    assert_eq!(n.lane, 10);
    assert_eq!(n.note_type, NoteType::ChargeNote);
    assert_eq!((n.time_us, n.end_time_us, n.wav_id), (1_000, 0, 7));
    assert!(chart_note(
        PlayerSide::Player1,
        NoteKind::Visible,
        Key::FootPedal,
        PlayMode::Beat7K,
        LongNoteMode::LnType1,
        0,
        1,
        0
    )
    .is_none());
}

#[test]
fn decode_utf8() {
    let data = "hello world".as_bytes();
    assert_eq!(decode_bms_content(data), "hello world");
}

#[test]
fn decode_falls_back_to_shift_jis() {
    // 0x82 0xA0 is "あ" in Shift_JIS and no valid UTF-8
    let data = [b'#', 0x82, 0xA0];
    assert_eq!(decode_bms_content(&data), "#\u{3042}");
}

#[test]
fn scratch_count_counts_scratch_lanes() {
    let modes = [
        PlayMode::Beat5K,
        PlayMode::Beat7K,
        PlayMode::Beat10K,
        PlayMode::Beat14K,
        PlayMode::PopN9K,
        PlayMode::Keyboard24K,
        PlayMode::Keyboard24KDouble,
    ];
    for mode in modes {
        let counted = (0..mode.lane_count()).filter(|l| mode.is_scratch(*l)).count();
        assert_eq!(counted, mode.scratch_count());
        for l in mode.lane_count()..mode.lane_count() + 64 {
            assert!(!mode.is_scratch(l));
        }
        for l in 0..mode.lane_count() {
            assert_eq!(mode.is_scratch(l), mode.scratch_index(l).is_some());
        }
    }
}

#[test]
fn validate_bms_rank() {
    // #RANK 2 is NORMAL: the rule's third judge rank
    assert_eq!(normalize_judge_rank(PlayMode::Beat7K, 2, JudgeRankType::BmsRank), 75);
}

#[test]
fn validate_bms_rank_out_of_range() {
    // out of range defaults to NORMAL
    assert_eq!(normalize_judge_rank(PlayMode::Beat7K, 10, JudgeRankType::BmsRank), 75);
}

#[test]
fn validate_bms_defexrank() {
    // 100% of NORMAL: 100 * 75 / 100
    assert_eq!(normalize_judge_rank(PlayMode::Beat7K, 100, JudgeRankType::BmsDefExRank), 75);
}

#[test]
fn validate_bmson_judgerank_default() {
    assert_eq!(normalize_judge_rank(PlayMode::Beat7K, 0, JudgeRankType::BmsonJudgeRank), 100);
}
