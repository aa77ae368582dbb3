use brs::play::score::{ScoreData, ScoreRank};
use brs::replay::ghost::{judge_to_exscore, GhostData};
use brs::replay::key_event::KeyEvent;
use brs::replay::replay_data::{decode_keylog, encode_keylog, ReplayData, ReplayDataError};
use brs::replay::replay_player::ReplayPlayer;
use brs::replay::replay_recorder::ReplayRecorder;
use brs::replay::storage::{
    find_empty_slot, list_replays, pack_replay, replay_file_name, unpack_replay, ReplaySlot,
};

#[test]
fn rank_f() {
    assert_eq!(ScoreRank::from_score(1, 10), ScoreRank::F);
}

#[test]
fn rank_e() {
    assert_eq!(ScoreRank::from_score(3, 10), ScoreRank::E);
}

#[test]
fn rank_d() {
    assert_eq!(ScoreRank::from_score(5, 10), ScoreRank::D);
}

#[test]
fn rank_c() {
    assert_eq!(ScoreRank::from_score(7, 10), ScoreRank::C);
}

#[test]
fn rank_b() {
    assert_eq!(ScoreRank::from_score(10, 10), ScoreRank::B);
}

#[test]
fn rank_a() {
    assert_eq!(ScoreRank::from_score(12, 10), ScoreRank::A);
}

#[test]
fn rank_aa() {
    assert_eq!(ScoreRank::from_score(14, 10), ScoreRank::AA);
}

#[test]
fn rank_aaa() {
    assert_eq!(ScoreRank::from_score(16, 10), ScoreRank::AAA);
}

#[test]
fn rank_max() {
    assert_eq!(ScoreRank::from_score(18, 10), ScoreRank::Max);
    assert_eq!(ScoreRank::from_score(20, 10), ScoreRank::Max);
}

#[test]
fn rank_zero_notes() {
    assert_eq!(ScoreRank::from_score(0, 0), ScoreRank::F);
}

#[test]
fn rank_boundary_exact() {
    assert_eq!(ScoreRank::from_score(6, 27), ScoreRank::E);
    assert_eq!(ScoreRank::from_score(5, 27), ScoreRank::F);
}

#[test]
fn score_data_new() {
    let sd = ScoreData::new(100);
    assert_eq!(sd.total_notes, 100);
    assert_eq!(sd.exscore(), 0);
    assert_eq!(sd.judge_count(0), 0);
}

#[test]
fn exscore_calculation() {
    let mut sd = ScoreData::new(100);
    sd.early_counts[0] = 50;
    sd.late_counts[0] = 20;
    sd.early_counts[1] = 10;
    sd.late_counts[1] = 5;
    assert_eq!(sd.exscore(), 155);
}

#[test]
fn is_perfect() {
    let mut sd = ScoreData::new(10);
    sd.early_counts[0] = 10;
    assert!(sd.is_perfect());

    sd.early_counts[1] = 1;
    assert!(!sd.is_perfect());
}

#[test]
fn is_full_combo() {
    let mut sd = ScoreData::new(10);
    sd.early_counts[0] = 5;
    sd.early_counts[1] = 3;
    sd.early_counts[2] = 2;
    assert!(sd.is_full_combo());

    sd.early_counts[3] = 1;
    assert!(!sd.is_full_combo());
}

#[test]
fn is_max() {
    let mut sd = ScoreData::new(10);
    sd.early_counts[0] = 10;
    sd.max_combo = 10;
    assert!(sd.is_max());

    sd.max_combo = 9;
    assert!(!sd.is_max());
}

#[test]
fn rank_integration() {
    let mut sd = ScoreData::new(100);
    sd.early_counts[0] = 100;
    assert_eq!(sd.rank(), ScoreRank::Max);

    sd.early_counts[0] = 75;
    sd.early_counts[1] = 25;
    assert_eq!(sd.rank(), ScoreRank::AAA);
}

#[test]
fn judge_count_out_of_range() {
    let sd = ScoreData::new(10);
    assert_eq!(sd.judge_count(6), 0);
    assert_eq!(sd.judge_count(100), 0);
}

#[test]
fn rank_is_monotonic_in_exscore() {
    let mut last = ScoreRank::from_score(0, 50);
    for ex in 0..=100u32 {
        let r = ScoreRank::from_score(ex, 50);
        assert!(r.index() >= last.index());
        last = r;
    }
    assert_eq!(last, ScoreRank::Max);
}

#[test]
fn ghost_empty() {
    let ghost = GhostData::empty(10);
    assert_eq!(ghost.total_notes(), 10);
    for i in 0..10 {
        assert_eq!(ghost.judge_at(i), Some(4));
    }
}

#[test]
fn ghost_judge_at() {
    let ghost = GhostData::new(vec![0, 1, 2, 3, 4, 5], 6);
    assert_eq!(ghost.judge_at(0), Some(0));
    assert_eq!(ghost.judge_at(1), Some(1));
    assert_eq!(ghost.judge_at(5), Some(5));
    assert_eq!(ghost.judge_at(6), None);
}

#[test]
fn exscore_diff_all_pg() {
    let ghost = GhostData::new(vec![0, 0, 0], 3);
    let current = vec![0, 0, 0];
    assert_eq!(ghost.exscore_diff(&current, 3), 0);
}

#[test]
fn exscore_diff_current_better() {
    let ghost = GhostData::new(vec![1, 1, 1], 3);
    let current = vec![0, 0, 0];
    assert_eq!(ghost.exscore_diff(&current, 3), 3);
}

#[test]
fn exscore_diff_ghost_better() {
    let ghost = GhostData::new(vec![0, 0, 0], 3);
    let current = vec![2, 2, 2];
    assert_eq!(ghost.exscore_diff(&current, 3), -6);
}

#[test]
fn exscore_diff_partial() {
    let ghost = GhostData::new(vec![0, 1, 2, 3], 4);
    let current = vec![0, 0, 0, 0];
    assert_eq!(ghost.exscore_diff(&current, 2), 1);
}

#[test]
fn judge_to_exscore_values() {
    assert_eq!(judge_to_exscore(0), 2);
    assert_eq!(judge_to_exscore(1), 1);
    assert_eq!(judge_to_exscore(2), 0);
    assert_eq!(judge_to_exscore(3), 0);
    assert_eq!(judge_to_exscore(4), 0);
    assert_eq!(judge_to_exscore(5), 0);
}

#[test]
fn test_replay_slot_all() {
    let slots = ReplaySlot::all();
    assert_eq!(slots.len(), 4);
    assert_eq!(slots[0], ReplaySlot(0));
    assert_eq!(slots[3], ReplaySlot(3));
}

#[test]
fn test_replay_path() {
    let path0 = replay_file_name("abc123", ReplaySlot(0));
    assert!(path0.ends_with("abc123.json.gz"));

    let path1 = replay_file_name("abc123", ReplaySlot(1));
    assert!(path1.ends_with("abc123_1.json.gz"));
}

#[test]
fn replay_file_names_exact() {
    assert_eq!(replay_file_name("abc", ReplaySlot(0)), "abc.json.gz");
    assert_eq!(replay_file_name("abc", ReplaySlot(3)), "abc_3.json.gz");
    assert_eq!(replay_file_name("abc", ReplaySlot(120)), "abc_120.json.gz");
}

#[test]
fn find_empty_slot_picks_lowest_free() {
    assert_eq!(find_empty_slot(&[true, false, true, false]), Some(ReplaySlot(1)));
    assert_eq!(find_empty_slot(&[false, false, false, false]), Some(ReplaySlot(0)));
    assert_eq!(find_empty_slot(&[true, true, true, true]), None);
}

fn make_events() -> Vec<KeyEvent> {
    vec![
        KeyEvent {
            key: 0,
            pressed: true,
            time_us: 1_000_000,
        },
        KeyEvent {
            key: 1,
            pressed: true,
            time_us: 1_500_000,
        },
        KeyEvent {
            key: 0,
            pressed: false,
            time_us: 2_000_000,
        },
        KeyEvent {
            key: 1,
            pressed: false,
            time_us: 2_500_000,
        },
    ]
}

#[test]
fn shrink_and_expand_roundtrip() {
    let events = make_events();
    let mut data = ReplayData {
        keylog: events.clone(),
        ..Default::default()
    };

    data.shrink().unwrap();
    assert!(data.keyinput.is_some());
    assert!(data.keylog.is_empty());

    data.expand().unwrap();
    assert!(data.keyinput.is_none());
    assert_eq!(data.keylog.len(), events.len());

    for (a, b) in data.keylog.iter().zip(events.iter()) {
        assert_eq!(a.key, b.key);
        assert_eq!(a.pressed, b.pressed);
        assert_eq!(a.time_us, b.time_us);
    }
}

#[test]
fn shrink_empty_keylog() {
    let mut data = ReplayData::default();
    data.shrink().unwrap();
    assert!(data.keyinput.is_none());
}

#[test]
fn expand_no_keyinput() {
    let mut data = ReplayData::default();
    data.expand().unwrap();
    assert!(data.keylog.is_empty());
}

#[test]
fn keycode_encoding_matches_beatoraja() {
    let events = vec![
        KeyEvent {
            key: 0,
            pressed: true,
            time_us: 100,
        },
        KeyEvent {
            key: 0,
            pressed: false,
            time_us: 200,
        },
        KeyEvent {
            key: 3,
            pressed: true,
            time_us: 300,
        },
    ];
    let mut data = ReplayData {
        keylog: events,
        ..Default::default()
    };
    data.shrink().unwrap();
    data.expand().unwrap();
    assert_eq!(data.keylog[0].key, 0);
    assert!(data.keylog[0].pressed);
    assert_eq!(data.keylog[1].key, 0);
    assert!(!data.keylog[1].pressed);
    assert_eq!(data.keylog[2].key, 3);
    assert!(data.keylog[2].pressed);
}

#[test]
fn default_values() {
    let data = ReplayData::default();
    assert!(data.player.is_empty());
    assert!(data.sha256.is_empty());
    assert_eq!(data.mode, 0);
    assert_eq!(data.gauge, 0);
    assert_eq!(data.randomoptionseed, -1);
    assert_eq!(data.date, 0);
}

#[test]
fn keylog_encoding_roundtrip_and_layout() {
    let events = make_events();
    let raw = encode_keylog(&events);
    assert_eq!(raw.len(), events.len() * 10);
    // key 0 pressed is code +1, time 1_000_000 little-endian
    assert_eq!(&raw[0..2], &[1u8, 0]);
    assert_eq!(&raw[2..10], &1_000_000i64.to_le_bytes());
    // key 0 released is code -1
    assert_eq!(&raw[20..22], &(-1i16).to_le_bytes());
    assert_eq!(decode_keylog(&raw), events);
}

#[test]
fn expand_rejects_bad_base64() {
    let mut data = ReplayData {
        keyinput: Some("@@not base64@@".to_string()),
        ..Default::default()
    };
    assert_eq!(data.expand(), Err(ReplayDataError::Base64));
}

#[test]
fn shrink_output_is_gzip_in_base64() {
    let mut data = ReplayData {
        keylog: make_events(),
        ..Default::default()
    };
    data.shrink().unwrap();
    let text = data.keyinput.clone().unwrap();
    // the URL-safe base64 of a gzip stream starts with the gzip magic bytes 1f 8b
    assert!(text.starts_with("H4sI"));
    assert_ne!(text.len(), 0);
}

#[test]
fn record_and_retrieve() {
    let mut recorder = ReplayRecorder::new();
    assert!(recorder.events().is_empty());

    recorder.record(KeyEvent {
        key: 0,
        pressed: true,
        time_us: 1_000_000,
    });
    recorder.record(KeyEvent {
        key: 1,
        pressed: true,
        time_us: 2_000_000,
    });
    recorder.record(KeyEvent {
        key: 0,
        pressed: false,
        time_us: 3_000_000,
    });

    assert_eq!(recorder.events().len(), 3);
    assert_eq!(recorder.events()[0].key, 0);
    assert!(recorder.events()[0].pressed);
}

#[test]
fn build_replay_data() {
    let mut recorder = ReplayRecorder::new();
    recorder.record(KeyEvent {
        key: 0,
        pressed: true,
        time_us: 100,
    });
    recorder.record(KeyEvent {
        key: 0,
        pressed: false,
        time_us: 200,
    });

    let data =
        recorder.build_replay_data("player1".to_string(), "sha256hash".to_string(), 7, 2);
    assert_eq!(data.player, "player1");
    assert_eq!(data.sha256, "sha256hash");
    assert_eq!(data.mode, 7);
    assert_eq!(data.gauge, 2);
    assert_eq!(data.keylog.len(), 2);
}

#[test]
fn clear_events() {
    let mut recorder = ReplayRecorder::new();
    recorder.record(KeyEvent {
        key: 0,
        pressed: true,
        time_us: 100,
    });
    assert_eq!(recorder.events().len(), 1);

    recorder.clear();
    assert!(recorder.events().is_empty());
}

#[test]
fn default_recorder() {
    let recorder = ReplayRecorder::default();
    assert!(recorder.events().is_empty());
}

#[test]
fn replay_from_events() {
    let events = vec![
        KeyEvent {
            key: 0,
            pressed: true,
            time_us: 1_000_000,
        },
        KeyEvent {
            key: 0,
            pressed: false,
            time_us: 2_000_000,
        },
    ];
    let mut player = ReplayPlayer::from_events(events, 8);

    let polled = player.poll_up_to(1_500_000);
    assert_eq!(polled.len(), 1);
    assert!(player.is_pressed(0));

    let polled = player.poll_up_to(2_500_000);
    assert_eq!(polled.len(), 1);
    assert!(!player.is_pressed(0));
    assert!(player.is_finished());
}

#[test]
fn replay_from_replay_data() {
    let data = ReplayData {
        keylog: vec![
            KeyEvent {
                key: 1,
                pressed: true,
                time_us: 500_000,
            },
            KeyEvent {
                key: 1,
                pressed: false,
                time_us: 1_500_000,
            },
        ],
        ..Default::default()
    };
    let mut player = ReplayPlayer::new(&data, 8);

    let polled = player.poll_up_to(1_000_000);
    assert_eq!(polled.len(), 1);
    assert!(player.is_pressed(1));
}

#[test]
fn replay_determinism() {
    let events = vec![
        KeyEvent {
            key: 0,
            pressed: true,
            time_us: 100,
        },
        KeyEvent {
            key: 1,
            pressed: true,
            time_us: 200,
        },
        KeyEvent {
            key: 0,
            pressed: false,
            time_us: 300,
        },
    ];

    let mut player1 = ReplayPlayer::from_events(events.clone(), 8);
    let mut player2 = ReplayPlayer::from_events(events, 8);

    let polled1 = player1.poll_up_to(1_000_000);
    let polled2 = player2.poll_up_to(1_000_000);

    assert_eq!(polled1.len(), polled2.len());
    for (a, b) in polled1.iter().zip(polled2.iter()) {
        assert_eq!(a.key, b.key);
        assert_eq!(a.pressed, b.pressed);
        assert_eq!(a.time_us, b.time_us);
    }
}

#[test]
fn list_replays_pairs_found_replays_with_their_slots() {
    let mut a = ReplayData::default();
    a.player = "a".to_string();
    let mut b = ReplayData::default();
    b.player = "b".to_string();
    let listed = list_replays(vec![None, Some(a), None, Some(b)]);
    assert_eq!(listed.len(), 2);
    assert_eq!(listed[0].0, ReplaySlot(1));
    assert_eq!(listed[0].1.player, "a");
    assert_eq!(listed[1].0, ReplaySlot(3));
    assert_eq!(listed[1].1.player, "b");
    assert!(list_replays(vec![None, None, None, None]).is_empty());
    assert!(list_replays(Vec::new()).is_empty());
}

#[test]
fn packed_replay_unpacks_to_its_text() {
    let json = br#"{"player":"p","keylog":[]}"#;
    let packed = pack_replay(json);
    assert!(packed.len() >= 18);
    assert_ne!(packed.as_slice(), &json[..]);
    assert_eq!(unpack_replay(&packed), Ok(json.to_vec()));
    assert_eq!(unpack_replay(b"not gzip"), Err(ReplayDataError::Gzip));
}

#[test]
fn rank_is_whole_ninths_of_max_score() {
    for notes in [1u32, 7, 100, 1234] {
        for ex in 0..=(2 * notes) {
            let q = (27 * ex as u64) / (6 * notes as u64);
            let expected = if q < 8 { q as usize } else { 8 };
            assert_eq!(ScoreRank::from_score(ex, notes).index(), expected);
        }
    }
    assert_eq!(ScoreRank::from_score(500, 0), ScoreRank::F);
}

#[test]
fn exscore_diff_is_antisymmetric() {
    let a: Vec<u8> = vec![0, 1, 2, 3];
    let b: Vec<u8> = vec![0, 0, 0, 0];
    let ga = GhostData::new(a.clone(), 4);
    let gb = GhostData::new(b.clone(), 4);
    assert_eq!(ga.exscore_diff(&b, 2), -gb.exscore_diff(&a, 2));
    assert_eq!(ga.exscore_diff(&a, 4), 0);
}
