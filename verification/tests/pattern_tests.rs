use brs::model::note::{Lane, Note, NoteType, PlayMode};
use brs::pattern::lane_shuffle::{
    battle, cross, flip, lane_random, lane_random_by, mirror, playable_random, rotate, rotate_by,
};
use brs::pattern::mirror::MirrorModifier;
use brs::pattern::random::{RRandomModifier, RandomModifier};
use brs::pattern::s_random::{LaneNote, NotePart, SRandomModifier, MIN_INTERVAL_US};
use brs::pattern::note_shuffle::{
    all_scratch, converge, group_notes_by_time, h_random, s_random, s_random_no_threshold,
    s_random_playable, spiral,
};
use brs::pattern::{get_keys, RandomOption};
use rand::rngs::SmallRng;
use rand::SeedableRng;

fn normal_note(lane: usize, time_us: i64) -> Note {
    Note {
        lane,
        note_type: NoteType::Normal,
        time_us,
        end_time_us: 0,
        wav_id: 0,
        damage_bits: 0.0f64.to_bits(),
    }
}

fn long_note(lane: usize, time_us: i64, end_time_us: i64) -> Note {
    Note {
        lane,
        note_type: NoteType::LongNote,
        time_us,
        end_time_us,
        wav_id: 0,
        damage_bits: 0.0f64.to_bits(),
    }
}

fn mine_note(lane: usize, time_us: i64) -> Note {
    Note {
        lane,
        note_type: NoteType::Mine,
        time_us,
        end_time_us: 0,
        wav_id: 0,
        damage_bits: 10.0f64.to_bits(),
    }
}

fn count_notes_per_lane(notes: &[Note], lane_count: usize) -> Vec<usize> {
    let mut counts = vec![0; lane_count];
    for n in notes {
        counts[n.lane] += 1;
    }
    counts
}

#[test]
fn test_mirror_lane_1p() {
    assert_eq!(MirrorModifier::mirror_lane(Lane::Scratch), Lane::Scratch);
    assert_eq!(MirrorModifier::mirror_lane(Lane::Key1), Lane::Key7);
    assert_eq!(MirrorModifier::mirror_lane(Lane::Key2), Lane::Key6);
    assert_eq!(MirrorModifier::mirror_lane(Lane::Key3), Lane::Key5);
    assert_eq!(MirrorModifier::mirror_lane(Lane::Key4), Lane::Key4);
    assert_eq!(MirrorModifier::mirror_lane(Lane::Key5), Lane::Key3);
    assert_eq!(MirrorModifier::mirror_lane(Lane::Key6), Lane::Key2);
    assert_eq!(MirrorModifier::mirror_lane(Lane::Key7), Lane::Key1);
}

#[test]
fn test_mirror_lane_2p() {
    assert_eq!(MirrorModifier::mirror_lane(Lane::Scratch2), Lane::Scratch2);
    assert_eq!(MirrorModifier::mirror_lane(Lane::Key8), Lane::Key14);
    assert_eq!(MirrorModifier::mirror_lane(Lane::Key9), Lane::Key13);
    assert_eq!(MirrorModifier::mirror_lane(Lane::Key10), Lane::Key12);
    assert_eq!(MirrorModifier::mirror_lane(Lane::Key11), Lane::Key11);
    assert_eq!(MirrorModifier::mirror_lane(Lane::Key12), Lane::Key10);
    assert_eq!(MirrorModifier::mirror_lane(Lane::Key13), Lane::Key9);
    assert_eq!(MirrorModifier::mirror_lane(Lane::Key14), Lane::Key8);
}

#[test]
fn mirror_modifier_twice_restores_lanes() {
    let original = vec![Lane::Scratch, Lane::Key1, Lane::Key4, Lane::Key9, Lane::Key14];
    let mut lanes = original.clone();
    MirrorModifier.modify(&mut lanes);
    assert_eq!(lanes, vec![Lane::Scratch, Lane::Key7, Lane::Key4, Lane::Key13, Lane::Key8]);
    MirrorModifier.modify(&mut lanes);
    assert_eq!(lanes, original);
}

#[test]
fn get_keys_beat7k_no_scratch() {
    let keys = get_keys(PlayMode::Beat7K, 0, false);
    assert_eq!(keys, vec![0, 1, 2, 3, 4, 5, 6]);
}

#[test]
fn get_keys_beat7k_with_scratch() {
    let keys = get_keys(PlayMode::Beat7K, 0, true);
    assert_eq!(keys, vec![0, 1, 2, 3, 4, 5, 6, 7]);
}

#[test]
fn get_keys_beat14k_player1() {
    let keys = get_keys(PlayMode::Beat14K, 1, false);
    assert_eq!(keys, vec![8, 9, 10, 11, 12, 13, 14]);
}

#[test]
fn get_keys_popn9k() {
    let keys = get_keys(PlayMode::PopN9K, 0, false);
    assert_eq!(keys, vec![0, 1, 2, 3, 4, 5, 6, 7, 8]);
}

#[test]
fn get_keys_invalid_player() {
    let keys = get_keys(PlayMode::Beat7K, 1, false);
    assert!(keys.is_empty());
}

#[test]
fn mirror_applied_twice_is_identity() {
    let original = vec![
        normal_note(0, 0),
        normal_note(1, 1000),
        normal_note(2, 2000),
        normal_note(6, 3000),
    ];
    let mut notes = original.clone();
    mirror(&mut notes, PlayMode::Beat7K, 0, false);
    mirror(&mut notes, PlayMode::Beat7K, 0, false);
    for (a, b) in notes.iter().zip(original.iter()) {
        assert_eq!(a.lane, b.lane);
    }
}

#[test]
fn mirror_preserves_note_count() {
    let mut notes = vec![
        normal_note(0, 0),
        normal_note(3, 1000),
        long_note(5, 2000, 3000),
        mine_note(6, 4000),
    ];
    let original_count = notes.len();
    mirror(&mut notes, PlayMode::Beat7K, 0, false);
    assert_eq!(notes.len(), original_count);
}

#[test]
fn mirror_beat7k_reverses_key_lanes() {
    let mut notes = vec![normal_note(0, 0)];
    mirror(&mut notes, PlayMode::Beat7K, 0, false);
    assert_eq!(notes[0].lane, 6);
}

#[test]
fn mirror_does_not_affect_scratch() {
    let mut notes = vec![normal_note(7, 0)];
    mirror(&mut notes, PlayMode::Beat7K, 0, false);
    assert_eq!(notes[0].lane, 7);
}

#[test]
fn lane_random_preserves_note_count() {
    let mut notes = vec![
        normal_note(0, 0),
        normal_note(1, 1000),
        normal_note(2, 2000),
        long_note(3, 3000, 4000),
    ];
    let original_count = notes.len();
    let mut rng = SmallRng::seed_from_u64(42);
    lane_random(&mut notes, PlayMode::Beat7K, 0, false, &mut rng);
    assert_eq!(notes.len(), original_count);
}

#[test]
fn lane_random_maps_lanes_within_range() {
    let mut notes: Vec<Note> = (0..7).map(|i| normal_note(i, i as i64 * 1000)).collect();
    let mut rng = SmallRng::seed_from_u64(42);
    lane_random(&mut notes, PlayMode::Beat7K, 0, false, &mut rng);
    for n in &notes {
        assert!(n.lane < 7, "Lane {} out of range", n.lane);
    }
}

#[test]
fn rotate_preserves_note_count() {
    let mut notes = vec![
        normal_note(0, 0),
        normal_note(1, 1000),
        normal_note(2, 2000),
    ];
    let original_count = notes.len();
    let mut rng = SmallRng::seed_from_u64(42);
    rotate(&mut notes, PlayMode::Beat7K, 0, false, &mut rng);
    assert_eq!(notes.len(), original_count);
}

#[test]
fn flip_swaps_player_sides_in_dp() {
    let mut notes = vec![normal_note(0, 0), normal_note(8, 0)];
    flip(&mut notes, PlayMode::Beat14K);
    assert_eq!(notes[0].lane, 8);
    assert_eq!(notes[1].lane, 0);
}

#[test]
fn flip_noop_for_single_player() {
    let mut notes = vec![normal_note(3, 0)];
    flip(&mut notes, PlayMode::Beat7K);
    assert_eq!(notes[0].lane, 3);
}

#[test]
fn battle_copies_p1_to_p2() {
    let mut notes = vec![normal_note(0, 0), normal_note(1, 1000)];
    battle(&mut notes, PlayMode::Beat14K);
    assert!(notes.len() >= 2);
}

#[test]
fn s_random_preserves_note_count() {
    let mut notes: Vec<Note> = (0..7)
        .map(|i| normal_note(i, (i as i64 / 3) * 1000))
        .collect();
    let original_count = notes.len();
    let mut rng = SmallRng::seed_from_u64(42);
    s_random(&mut notes, PlayMode::Beat7K, 0, false, &mut rng);
    assert_eq!(notes.len(), original_count);
}

#[test]
fn s_random_respects_lane_bounds() {
    let mut notes: Vec<Note> = (0..20)
        .map(|i| normal_note(i % 7, i as i64 * 100_000))
        .collect();
    let mut rng = SmallRng::seed_from_u64(123);
    s_random(&mut notes, PlayMode::Beat7K, 0, false, &mut rng);
    let keys = get_keys(PlayMode::Beat7K, 0, false);
    for n in &notes {
        assert!(keys.contains(&n.lane), "Lane {} not in key lanes", n.lane);
    }
}

#[test]
fn h_random_preserves_note_count() {
    let mut notes: Vec<Note> = (0..10)
        .map(|i| normal_note(i % 7, i as i64 * 50_000))
        .collect();
    let original_count = notes.len();
    let mut rng = SmallRng::seed_from_u64(42);
    h_random(&mut notes, PlayMode::Beat7K, 0, false, 100_000, &mut rng);
    assert_eq!(notes.len(), original_count);
}

#[test]
fn spiral_preserves_note_count() {
    let mut notes: Vec<Note> = (0..14)
        .map(|i| normal_note(i % 7, i as i64 * 50_000))
        .collect();
    let original_count = notes.len();
    let mut rng = SmallRng::seed_from_u64(42);
    spiral(&mut notes, PlayMode::Beat7K, 0, false, &mut rng);
    assert_eq!(notes.len(), original_count);
}

#[test]
fn all_scratch_preserves_note_count() {
    let mut notes: Vec<Note> = (0..10)
        .map(|i| normal_note(i % 7, i as i64 * 100_000))
        .collect();
    let original_count = notes.len();
    let mut rng = SmallRng::seed_from_u64(42);
    all_scratch(&mut notes, PlayMode::Beat7K, 0, 100_000, &mut rng);
    assert_eq!(notes.len(), original_count);
}

#[test]
fn cross_preserves_note_count() {
    let mut notes: Vec<Note> = (0..7).map(|i| normal_note(i, i as i64 * 1000)).collect();
    let original_count = notes.len();
    cross(&mut notes, PlayMode::Beat7K, 0, false);
    assert_eq!(notes.len(), original_count);
}

#[test]
fn mirror_remaps_long_notes_consistently() {
    let mut notes = vec![long_note(0, 1000, 3000), normal_note(0, 5000)];
    mirror(&mut notes, PlayMode::Beat7K, 0, false);
    let ln_lane = notes[0].lane;
    let normal_lane = notes[1].lane;
    assert_eq!(ln_lane, normal_lane);
}

#[test]
fn s_random_keeps_ln_on_same_lane_during_hold() {
    let mut notes = vec![
        long_note(0, 0, 2_000_000),
        normal_note(1, 1_000_000),
        normal_note(2, 1_000_000),
    ];
    let mut rng = SmallRng::seed_from_u64(42);
    s_random(&mut notes, PlayMode::Beat7K, 0, false, &mut rng);
    let ln_lane = notes[0].lane;
    for n in &notes[1..] {
        if n.time_us == 1_000_000 {
            assert_ne!(
                n.lane, ln_lane,
                "Note during LN hold should not share LN lane"
            );
        }
    }
}

#[test]
fn all_modifiers_preserve_note_count() {
    let notes: Vec<Note> = (0..20)
        .map(|i| normal_note(i % 7, i as i64 * 100_000))
        .collect();
    let count = notes.len();

    let mut m = notes.clone();
    mirror(&mut m, PlayMode::Beat7K, 0, false);
    assert_eq!(m.len(), count);

    let mut m = notes.clone();
    let mut rng = SmallRng::seed_from_u64(1);
    lane_random(&mut m, PlayMode::Beat7K, 0, false, &mut rng);
    assert_eq!(m.len(), count);

    let mut m = notes.clone();
    let mut rng = SmallRng::seed_from_u64(2);
    rotate(&mut m, PlayMode::Beat7K, 0, false, &mut rng);
    assert_eq!(m.len(), count);

    let mut m = notes.clone();
    let mut rng = SmallRng::seed_from_u64(3);
    s_random(&mut m, PlayMode::Beat7K, 0, false, &mut rng);
    assert_eq!(m.len(), count);

    let mut m = notes.clone();
    let mut rng = SmallRng::seed_from_u64(4);
    h_random(&mut m, PlayMode::Beat7K, 0, false, 100_000, &mut rng);
    assert_eq!(m.len(), count);

    let mut m = notes.clone();
    let mut rng = SmallRng::seed_from_u64(5);
    spiral(&mut m, PlayMode::Beat7K, 0, false, &mut rng);
    assert_eq!(m.len(), count);

    let mut m = notes.clone();
    let mut rng = SmallRng::seed_from_u64(6);
    all_scratch(&mut m, PlayMode::Beat7K, 0, 100_000, &mut rng);
    assert_eq!(m.len(), count);

    let mut m = notes.clone();
    cross(&mut m, PlayMode::Beat7K, 0, false);
    assert_eq!(m.len(), count);

    let mut m = notes.clone();
    flip(&mut m, PlayMode::Beat7K);
    assert_eq!(m.len(), count);
}

#[test]
fn random_option_from_id_general() {
    assert_eq!(
        RandomOption::from_id(0, PlayMode::Beat7K),
        RandomOption::Identity
    );
    assert_eq!(
        RandomOption::from_id(1, PlayMode::Beat7K),
        RandomOption::Mirror
    );
    assert_eq!(
        RandomOption::from_id(4, PlayMode::Beat7K),
        RandomOption::SRandom
    );
    assert_eq!(
        RandomOption::from_id(7, PlayMode::Beat7K),
        RandomOption::AllScr
    );
    assert_eq!(
        RandomOption::from_id(99, PlayMode::Beat7K),
        RandomOption::Identity
    );
}

#[test]
fn random_option_from_id_pms() {
    assert_eq!(
        RandomOption::from_id(0, PlayMode::PopN9K),
        RandomOption::Identity
    );
    assert_eq!(
        RandomOption::from_id(4, PlayMode::PopN9K),
        RandomOption::SRandomNoThreshold
    );
    assert_eq!(
        RandomOption::from_id(7, PlayMode::PopN9K),
        RandomOption::Converge
    );
    assert_eq!(
        RandomOption::from_id(9, PlayMode::PopN9K),
        RandomOption::SRandomPlayable
    );
}

#[test]
fn random_option_scratch_modify() {
    assert!(!RandomOption::Identity.is_scratch_lane_modify());
    assert!(!RandomOption::Mirror.is_scratch_lane_modify());
    assert!(!RandomOption::Random.is_scratch_lane_modify());
    assert!(RandomOption::AllScr.is_scratch_lane_modify());
    assert!(RandomOption::MirrorEx.is_scratch_lane_modify());
    assert!(RandomOption::RandomEx.is_scratch_lane_modify());
    assert!(RandomOption::Flip.is_scratch_lane_modify());
    assert!(RandomOption::Battle.is_scratch_lane_modify());
}

#[test]
fn lane_shuffle_is_bijection() {
    let notes: Vec<Note> = (0..7).map(|i| normal_note(i, 0)).collect();

    let mut m = notes.clone();
    mirror(&mut m, PlayMode::Beat7K, 0, false);
    let before = count_notes_per_lane(&notes, 8);
    let after = count_notes_per_lane(&m, 8);
    let mut before_sorted = before;
    let mut after_sorted = after;
    before_sorted.sort();
    after_sorted.sort();
    assert_eq!(before_sorted, after_sorted);
}

#[test]
fn mirror_beat5k() {
    let mut notes = vec![normal_note(0, 0), normal_note(4, 0)];
    mirror(&mut notes, PlayMode::Beat5K, 0, false);
    assert_eq!(notes[0].lane, 4);
    assert_eq!(notes[1].lane, 0);
}

#[test]
fn mirror_beat14k_player0() {
    let mut notes = vec![normal_note(0, 0)];
    mirror(&mut notes, PlayMode::Beat14K, 0, false);
    assert_eq!(notes[0].lane, 6);
}

#[test]
fn mirror_beat14k_player1() {
    let mut notes = vec![normal_note(8, 0)];
    mirror(&mut notes, PlayMode::Beat14K, 1, false);
    assert_eq!(notes[0].lane, 14);
}

#[test]
fn lane_random_is_permutation() {
    let mut notes: Vec<Note> = (0..7).map(|i| normal_note(i, 0)).collect();
    let mut rng = SmallRng::seed_from_u64(42);
    lane_random(&mut notes, PlayMode::Beat7K, 0, false, &mut rng);

    let mut lanes: Vec<usize> = notes.iter().map(|n| n.lane).collect();
    lanes.sort();
    lanes.dedup();
    assert_eq!(lanes.len(), 7);
    assert!(lanes.iter().all(|&l| l < 7));
}

#[test]
fn rotate_produces_rotation() {
    let notes: Vec<Note> = (0..7).map(|i| normal_note(i, 0)).collect();
    let mut seen_different = false;
    for seed in 0..100 {
        let mut m = notes.clone();
        let mut rng = SmallRng::seed_from_u64(seed);
        rotate(&mut m, PlayMode::Beat7K, 0, false, &mut rng);
        if m.iter().map(|n| n.lane).collect::<Vec<_>>()
            != notes.iter().map(|n| n.lane).collect::<Vec<_>>()
        {
            seen_different = true;
            break;
        }
    }
    assert!(
        seen_different,
        "Rotate should produce at least one non-identity result"
    );
}

#[test]
fn cross_swaps_pairs() {
    let mut notes: Vec<Note> = (0..6).map(|i| normal_note(i, 0)).collect();
    cross(&mut notes, PlayMode::Beat7K, 0, false);
    assert_eq!(notes[0].lane, 1);
    assert_eq!(notes[1].lane, 0);
    assert_eq!(notes[5].lane, 6);
}

#[test]
fn flip_beat14k() {
    let mut notes = vec![
        normal_note(0, 0),
        normal_note(7, 0),
        normal_note(8, 0),
        normal_note(15, 0),
    ];
    flip(&mut notes, PlayMode::Beat14K);
    assert_eq!(notes[0].lane, 8);
    assert_eq!(notes[1].lane, 15);
    assert_eq!(notes[2].lane, 0);
    assert_eq!(notes[3].lane, 7);
}

#[test]
fn battle_duplicates_to_p2() {
    let mut notes = vec![normal_note(0, 0), normal_note(3, 1000)];
    battle(&mut notes, PlayMode::Beat14K);
    assert_eq!(notes.len(), 4);
    let p2_notes: Vec<&Note> = notes.iter().filter(|n| n.lane >= 8).collect();
    assert_eq!(p2_notes.len(), 2);
}

#[test]
fn battle_sorts_by_time_then_lane_and_drops_p2() {
    let mut notes = vec![normal_note(9, 0), normal_note(3, 1000), normal_note(1, 0)];
    battle(&mut notes, PlayMode::Beat14K);
    let got: Vec<(i64, usize)> = notes.iter().map(|n| (n.time_us, n.lane)).collect();
    assert_eq!(got, vec![(0, 1), (0, 9), (1000, 3), (1000, 11)]);
    let mut single = vec![normal_note(9, 0)];
    battle(&mut single, PlayMode::Beat7K);
    assert_eq!(single, vec![normal_note(9, 0)]);
}

#[test]
fn cross_nine_keys_swaps_outer_pairs() {
    let mut notes: Vec<Note> = (0..9).map(|i| normal_note(i, 0)).collect();
    cross(&mut notes, PlayMode::PopN9K, 0, false);
    let lanes: Vec<usize> = notes.iter().map(|n| n.lane).collect();
    assert_eq!(lanes, vec![1, 0, 3, 2, 4, 6, 5, 8, 7]);
}

#[test]
fn lane_random_by_takes_lanes_from_pool() {
    let mut notes: Vec<Note> = (0..8).map(|i| normal_note(i, 0)).collect();
    // pool [0..7): draw 6 takes 6 (pool 0..5), draw 0 takes 0 (pool 5,1,2,3,4), ...
    lane_random_by(&mut notes, PlayMode::Beat7K, 0, false, &vec![6, 0, 0, 0, 0, 0, 0]);
    let lanes: Vec<usize> = notes.iter().map(|n| n.lane).collect();
    assert_eq!(lanes, vec![6, 0, 5, 4, 3, 2, 1, 7]);
}

#[test]
fn rotate_by_upward_and_downward() {
    let base: Vec<Note> = (0..8).map(|i| normal_note(i, 0)).collect();
    let mut up = base.clone();
    rotate_by(&mut up, PlayMode::Beat7K, 0, false, true, 2);
    let lanes: Vec<usize> = up.iter().map(|n| n.lane).collect();
    assert_eq!(lanes, vec![2, 3, 4, 5, 6, 0, 1, 7]);
    let mut down = base.clone();
    rotate_by(&mut down, PlayMode::Beat7K, 0, false, false, 2);
    let lanes: Vec<usize> = down.iter().map(|n| n.lane).collect();
    assert_eq!(lanes, vec![2, 1, 0, 6, 5, 4, 3, 7]);
}

#[test]
fn playable_random_moves_an_impossible_chord() {
    // buttons 1, 4 and 7 together cannot be pressed; so cannot 3, 6 and 9 (the mirror)
    let impossible: [[usize; 3]; 10] = [
        [1, 4, 7],
        [1, 4, 8],
        [1, 4, 9],
        [1, 5, 8],
        [1, 5, 9],
        [1, 6, 9],
        [2, 5, 8],
        [2, 5, 9],
        [2, 6, 9],
        [3, 6, 9],
    ];
    let notes = vec![normal_note(0, 0), normal_note(3, 0), normal_note(6, 0)];
    for seed in 0..16u64 {
        let mut m = notes.clone();
        let mut rng = SmallRng::seed_from_u64(seed);
        playable_random(&mut m, PlayMode::PopN9K, 0, &mut rng);
        let mut buttons: Vec<usize> = m.iter().map(|n| n.lane + 1).collect();
        buttons.sort();
        assert_eq!(buttons.len(), 3);
        assert!(buttons[0] < buttons[1] && buttons[1] < buttons[2]);
        assert!(!impossible.iter().any(|c| c[..] == buttons[..]));
    }
}

#[test]
fn playable_random_keeps_nine_lanes() {
    let mut notes: Vec<Note> = (0..9).map(|i| normal_note(i, (i as i64 / 3) * 1000)).collect();
    let mut rng = SmallRng::seed_from_u64(7);
    playable_random(&mut notes, PlayMode::PopN9K, 0, &mut rng);
    let mut lanes: Vec<usize> = notes.iter().map(|n| n.lane).collect();
    lanes.sort();
    assert_eq!(lanes, vec![0, 1, 2, 3, 4, 5, 6, 7, 8]);
}

#[test]
fn group_by_time_basic() {
    let notes = vec![
        normal_note(0, 0),
        normal_note(1, 0),
        normal_note(2, 1000),
        normal_note(3, 2000),
    ];
    let groups = group_notes_by_time(&notes);
    assert_eq!(groups.len(), 3);
    assert_eq!(groups[0], (0, 0..2));
    assert_eq!(groups[1], (1000, 2..3));
    assert_eq!(groups[2], (2000, 3..4));
}

#[test]
fn group_by_time_empty() {
    let notes: Vec<Note> = Vec::new();
    let groups = group_notes_by_time(&notes);
    assert!(groups.is_empty());
}

#[test]
fn s_random_assigns_within_keys() {
    let mut notes: Vec<Note> = (0..7).map(|i| normal_note(i, i as i64 * 100_000)).collect();
    let mut rng = SmallRng::seed_from_u64(42);
    s_random(&mut notes, PlayMode::Beat7K, 0, false, &mut rng);
    let keys = get_keys(PlayMode::Beat7K, 0, false);
    for n in &notes {
        assert!(
            keys.contains(&n.lane),
            "Lane {} not in keys {:?}",
            n.lane,
            keys
        );
    }
}

#[test]
fn s_random_ln_tracking() {
    let mut notes = vec![
        long_note(0, 0, 2_000_000),
        normal_note(1, 1_000_000),
        normal_note(2, 1_000_000),
    ];
    let mut rng = SmallRng::seed_from_u64(42);
    s_random(&mut notes, PlayMode::Beat7K, 0, false, &mut rng);

    let ln_lane = notes[0].lane;
    for n in &notes[1..] {
        assert_ne!(
            n.lane, ln_lane,
            "Note at time {} should not share LN lane {}",
            n.time_us, ln_lane
        );
    }
}

#[test]
fn h_random_with_threshold() {
    let mut notes: Vec<Note> = (0..14)
        .map(|i| normal_note(i % 7, i as i64 * 50_000))
        .collect();
    let mut rng = SmallRng::seed_from_u64(42);
    h_random(&mut notes, PlayMode::Beat7K, 0, false, 100_000, &mut rng);
    assert_eq!(notes.len(), 14);
}

#[test]
fn spiral_rotates_lanes() {
    let mut notes: Vec<Note> = (0..7).map(|i| normal_note(i, i as i64 * 100_000)).collect();
    let original_lanes: Vec<usize> = notes.iter().map(|n| n.lane).collect();
    let mut rng = SmallRng::seed_from_u64(42);
    spiral(&mut notes, PlayMode::Beat7K, 0, false, &mut rng);
    let new_lanes: Vec<usize> = notes.iter().map(|n| n.lane).collect();
    assert_ne!(
        original_lanes, new_lanes,
        "Spiral should change lane assignment"
    );
}

#[test]
fn all_scratch_assigns_to_scratch() {
    let mut notes: Vec<Note> = (0..10)
        .map(|i| normal_note(i % 7, i as i64 * 200_000))
        .collect();
    let mut rng = SmallRng::seed_from_u64(42);
    all_scratch(&mut notes, PlayMode::Beat7K, 0, 100_000, &mut rng);
    let scratch_count = notes.iter().filter(|n| n.lane == 7).count();
    assert!(
        scratch_count > 0,
        "All-SCR should assign some notes to scratch lane"
    );
}

#[test]
fn all_scratch_gives_the_first_noted_lane_to_scratch() {
    // every timeslice is 200 ms after the last: the scratch lane is always rested, so
    // the first free key lane with a note (here the only one) goes to the scratch lane
    let notes: Vec<Note> = (0..6)
        .map(|i| normal_note(i % 3 + 1, i as i64 * 200_000))
        .collect();
    for seed in 0..8u64 {
        let mut m = notes.clone();
        let mut rng = SmallRng::seed_from_u64(seed);
        all_scratch(&mut m, PlayMode::Beat7K, 0, 100_000, &mut rng);
        assert!(m.iter().all(|n| n.lane == 7));
    }
}

#[test]
fn spiral_turns_every_lane_by_one_step_per_timeslice() {
    let notes: Vec<Note> = (0..14).map(|i| normal_note(0, i as i64 * 100_000)).collect();
    let mut m = notes.clone();
    let mut rng = SmallRng::seed_from_u64(3);
    spiral(&mut m, PlayMode::Beat7K, 0, false, &mut rng);
    // the first note has moved by one step; each next note by one step more
    let step = m[0].lane;
    assert!(step >= 1 && step < 7);
    for (i, n) in m.iter().enumerate() {
        assert_eq!(n.lane, (step * (i + 1)) % 7);
    }
}

#[test]
fn s_random_playable_rests_lanes_outside_chords() {
    // single notes 50 ms apart: each goes to a lane not hit in the last 100 ms
    let notes: Vec<Note> = (0..30).map(|i| normal_note(0, i as i64 * 50_000)).collect();
    for seed in 0..8u64 {
        let mut m = notes.clone();
        let mut rng = SmallRng::seed_from_u64(seed);
        s_random_playable(&mut m, PlayMode::PopN9K, 0, false, 100_000, &mut rng);
        for i in 2..m.len() {
            assert_ne!(m[i].lane, m[i - 1].lane);
            assert_ne!(m[i].lane, m[i - 2].lane);
        }
    }
}

#[test]
fn mine_notes_not_shuffled_to_note_lanes() {
    let mut notes = vec![mine_note(0, 0), normal_note(1, 0), normal_note(2, 0)];
    let mut rng = SmallRng::seed_from_u64(42);
    s_random(&mut notes, PlayMode::Beat7K, 0, false, &mut rng);
    assert_eq!(notes.len(), 3);
    assert_eq!(
        notes
            .iter()
            .filter(|n| n.note_type == NoteType::Mine)
            .count(),
        1
    );
}

#[test]
fn s_random_no_threshold_works() {
    let mut notes: Vec<Note> = (0..10)
        .map(|i| normal_note(i % 7, i as i64 * 10_000))
        .collect();
    let mut rng = SmallRng::seed_from_u64(42);
    s_random_no_threshold(&mut notes, PlayMode::Beat7K, 0, false, &mut rng);
    assert_eq!(notes.len(), 10);
}

fn chords_stay_apart(shuffle: &dyn Fn(&mut Vec<Note>, &mut SmallRng)) {
    // five chords of three notes on distinct key lanes, with single notes between them
    let mut notes: Vec<Note> = Vec::new();
    for t in 0..5i64 {
        for lane in [0usize, 2, 4] {
            notes.push(normal_note(lane, t * 200_000));
        }
        notes.push(normal_note(6, t * 200_000 + 100_000));
    }
    for seed in 0..8u64 {
        let mut m = notes.clone();
        let mut rng = SmallRng::seed_from_u64(seed);
        shuffle(&mut m, &mut rng);
        assert_eq!(m.len(), notes.len());
        for t in 0..5 {
            let chord = &m[t * 4..t * 4 + 3];
            let mut lanes: Vec<usize> = chord.iter().map(|n| n.lane).collect();
            lanes.sort();
            lanes.dedup();
            assert_eq!(lanes.len(), 3);
            assert!(lanes.iter().all(|&l| l < 8));
        }
    }
}

#[test]
fn h_random_rests_lanes_for_the_threshold() {
    // one note every 50 ms on lane 0; with a 120 ms threshold the lanes of the two notes
    // before are not rested, and five other key lanes are
    let notes: Vec<Note> = (0..30).map(|i| normal_note(0, i as i64 * 50_000)).collect();
    for seed in 0..8u64 {
        let mut m = notes.clone();
        let mut rng = SmallRng::seed_from_u64(seed);
        h_random(&mut m, PlayMode::Beat7K, 0, false, 120_000, &mut rng);
        let mut c = notes.clone();
        converge(&mut c, PlayMode::Beat7K, 0, false, 120_000, &mut rng);
        for i in 0..c.len() {
            if i >= 2 {
                assert_ne!(c[i].lane, c[i - 1].lane);
                assert_ne!(c[i].lane, c[i - 2].lane);
            }
        }
        for i in 0..m.len() {
            assert!(m[i].lane < 7);
            if i >= 1 {
                assert_ne!(m[i].lane, m[i - 1].lane);
            }
            if i >= 2 {
                assert_ne!(m[i].lane, m[i - 2].lane);
            }
        }
    }
}

#[test]
fn per_note_shuffles_keep_chords_apart() {
    chords_stay_apart(&|n, r| spiral(n, PlayMode::Beat7K, 0, false, r));
    chords_stay_apart(&|n, r| converge(n, PlayMode::Beat7K, 0, false, 100_000, r));
    chords_stay_apart(&|n, r| all_scratch(n, PlayMode::Beat7K, 0, 40_000, r));
    chords_stay_apart(&|n, r| h_random(n, PlayMode::Beat7K, 0, false, 60_000, r));
}

#[test]
fn converge_basic() {
    let mut notes: Vec<Note> = (0..10)
        .map(|i| normal_note(i % 7, i as i64 * 50_000))
        .collect();
    let mut rng = SmallRng::seed_from_u64(42);
    converge(&mut notes, PlayMode::Beat7K, 0, false, 100_000, &mut rng);
    assert_eq!(notes.len(), 10);
}

#[test]
fn s_random_playable_basic() {
    let mut notes: Vec<Note> = (0..9).map(|i| normal_note(i, i as i64 * 100_000)).collect();
    let mut rng = SmallRng::seed_from_u64(42);
    s_random_playable(&mut notes, PlayMode::PopN9K, 0, false, 100_000, &mut rng);
    assert_eq!(notes.len(), 9);
}

#[test]
fn s_random_playable_keeps_chords_apart() {
    // chords of four notes go by a preferred button set; their lanes stay distinct
    let mut notes: Vec<Note> = Vec::new();
    for t in 0..5 {
        for lane in [0usize, 2, 5, 8] {
            notes.push(normal_note(lane, t as i64 * 300_000));
        }
    }
    for seed in 0..8u64 {
        let mut m = notes.clone();
        let mut rng = SmallRng::seed_from_u64(seed);
        s_random_playable(&mut m, PlayMode::PopN9K, 0, false, 100_000, &mut rng);
        for chord in m.chunks(4) {
            let mut lanes: Vec<usize> = chord.iter().map(|n| n.lane).collect();
            lanes.sort();
            lanes.dedup();
            assert_eq!(lanes.len(), 4);
            assert!(chord.iter().all(|n| n.lane < 9));
        }
    }
}

#[test]
fn note_shuffles_keep_slices_together() {
    // three timeslices; within each, distinct lanes stay distinct and the times stay
    let notes = vec![
        normal_note(0, 0),
        normal_note(1, 0),
        normal_note(2, 0),
        normal_note(3, 500_000),
        normal_note(4, 500_000),
        normal_note(7, 1_000_000),
    ];
    let mut m = notes.clone();
    let mut rng = SmallRng::seed_from_u64(9);
    s_random(&mut m, PlayMode::Beat7K, 0, false, &mut rng);
    for (a, b) in m.iter().zip(notes.iter()) {
        assert_eq!(a.time_us, b.time_us);
    }
    assert_ne!(m[0].lane, m[1].lane);
    assert_ne!(m[1].lane, m[2].lane);
    assert_ne!(m[0].lane, m[2].lane);
    assert_ne!(m[3].lane, m[4].lane);
    // the scratch lane is no key here and stays
    assert_eq!(m[5].lane, 7);
}

fn random_test_lanes() -> Vec<Lane> {
    vec![Lane::Key1, Lane::Key2, Lane::Key3, Lane::Scratch]
}

#[test]
fn test_random_preserves_scratch() {
    let mut lanes = random_test_lanes();
    let mut rng = SmallRng::seed_from_u64(42);
    RandomModifier.modify(&mut lanes, &mut rng);
    assert_eq!(lanes[3], Lane::Scratch);
}

#[test]
fn test_random_changes_key_lanes() {
    let mut lanes = random_test_lanes();
    let mut rng = SmallRng::seed_from_u64(42);
    RandomModifier.modify(&mut lanes, &mut rng);
    for lane in &lanes[..3] {
        assert!(lane.is_key());
    }
}

#[test]
fn test_r_random_rotation() {
    let mut lanes = random_test_lanes();
    let mut rng = SmallRng::seed_from_u64(0);
    RRandomModifier.modify(&mut lanes, &mut rng);
    for lane in &lanes[..3] {
        assert!(lane.is_key());
    }
    assert_eq!(lanes[3], Lane::Scratch);
}

#[test]
fn random_modifiers_with_given_arrangements() {
    let mut lanes = vec![Lane::Key1, Lane::Key7, Lane::Scratch, Lane::Key9];
    RandomModifier.modify_with(&mut lanes, &[6, 5, 4, 3, 2, 1, 0]);
    assert_eq!(lanes, vec![Lane::Key7, Lane::Key1, Lane::Scratch, Lane::Key9]);
    let mut lanes = vec![Lane::Key1, Lane::Key7, Lane::Scratch2];
    RRandomModifier.modify_with(&mut lanes, 2);
    assert_eq!(lanes, vec![Lane::Key3, Lane::Key2, Lane::Scratch2]);
}

fn single(lane: Lane, time_us: i64) -> LaneNote {
    LaneNote { lane, part: NotePart::Single, time_us }
}

#[test]
fn test_s_random_distributes_notes() {
    let mut notes: Vec<LaneNote> = (0..10).map(|i| single(Lane::Key1, i * 100_000)).collect();
    let mut rng = SmallRng::seed_from_u64(42);
    SRandomModifier.modify(&mut notes, &mut rng);

    // All notes should be on key lanes
    for note in &notes {
        assert!(note.lane.is_key());
    }

    // Notes should be distributed across multiple lanes (with high probability)
    let lanes: std::collections::HashSet<_> = notes.iter().map(|n| n.lane).collect();
    assert!(lanes.len() > 1, "S-Random should distribute across multiple lanes");
}

#[test]
fn test_s_random_avoids_rapid_same_lane() {
    // Create notes very close together
    let mut notes: Vec<LaneNote> = (0..5).map(|i| single(Lane::Key1, i * 10_000)).collect();
    let mut rng = SmallRng::seed_from_u64(42);
    SRandomModifier.modify(&mut notes, &mut rng);

    // Five notes within 50 ms leave a free lane for each, so no two share one.
    for i in 1..notes.len() {
        for j in 0..i {
            if notes[i].time_us - notes[j].time_us < MIN_INTERVAL_US {
                assert_ne!(notes[i].lane, notes[j].lane);
            }
        }
    }
}

#[test]
fn s_random_leaves_scratch_and_second_side_and_times() {
    let before = vec![
        single(Lane::Scratch, 0),
        single(Lane::Key3, 0),
        single(Lane::Key9, 0),
        single(Lane::Scratch2, 5_000),
        single(Lane::Key7, 5_000),
    ];
    let mut notes = before.clone();
    let mut rng = SmallRng::seed_from_u64(7);
    SRandomModifier.modify(&mut notes, &mut rng);
    assert_eq!(notes[0], before[0]);
    assert_eq!(notes[2], before[2]);
    assert_eq!(notes[3], before[3]);
    for (a, b) in notes.iter().zip(before.iter()) {
        assert_eq!(a.time_us, b.time_us);
        assert_eq!(a.part, b.part);
    }
    assert!(notes[1].lane.is_key() && notes[4].lane.is_key());
    assert_ne!(notes[1].lane, notes[4].lane);
}

#[test]
fn s_random_long_note_end_follows_its_start() {
    for seed in 0..20 {
        let mut notes = vec![
            LaneNote { lane: Lane::Key2, part: NotePart::LongStart, time_us: 1_000 },
            LaneNote { lane: Lane::Key2, part: NotePart::LongEnd, time_us: 900_000 },
        ];
        let mut rng = SmallRng::seed_from_u64(seed);
        SRandomModifier.modify(&mut notes, &mut rng);
        assert_eq!(notes[1].lane, notes[0].lane);
        assert_eq!(notes[1].part, NotePart::LongEnd);
    }
}

#[test]
fn s_random_long_note_end_without_start_stays() {
    let mut notes = vec![
        LaneNote { lane: Lane::Key4, part: NotePart::LongEnd, time_us: 1_000 },
        LaneNote { lane: Lane::Key4, part: NotePart::LongStart, time_us: 2_000 },
    ];
    let mut rng = SmallRng::seed_from_u64(3);
    SRandomModifier.modify(&mut notes, &mut rng);
    assert_eq!(notes[0], LaneNote { lane: Lane::Key4, part: NotePart::LongEnd, time_us: 1_000 });
    assert!(notes[1].lane.is_key());
}

#[test]
fn s_random_playable_chord_lands_in_one_button_set() {
    let sets: [[usize; 6]; 10] = [
        [0, 1, 2, 3, 4, 5],
        [0, 1, 2, 4, 5, 6],
        [0, 1, 2, 5, 6, 7],
        [0, 1, 2, 6, 7, 8],
        [1, 2, 3, 4, 5, 6],
        [1, 2, 3, 5, 6, 7],
        [1, 2, 3, 6, 7, 8],
        [2, 3, 4, 5, 6, 7],
        [2, 3, 4, 6, 7, 8],
        [3, 4, 5, 6, 7, 8],
    ];
    for seed in 0..64u64 {
        let mut notes = vec![
            normal_note(0, 1_000_000),
            normal_note(4, 1_000_000),
            normal_note(8, 1_000_000),
            normal_note(7, 1_000_000),
        ];
        let mut rng = SmallRng::seed_from_u64(seed);
        s_random_playable(&mut notes, PlayMode::PopN9K, 0, false, 100_000, &mut rng);
        let lanes: Vec<usize> = notes.iter().map(|n| n.lane).collect();
        assert!(
            sets.iter().any(|set| lanes.iter().all(|l| set.contains(l))),
            "lanes {:?} fit no button set",
            lanes
        );
    }
}

#[test]
fn all_scratch_without_scratch_lane_rests_lanes() {
    for seed in 0..64u64 {
        let mut notes = vec![normal_note(3, 0), normal_note(3, 20_000)];
        let mut rng = SmallRng::seed_from_u64(seed);
        all_scratch(&mut notes, PlayMode::PopN9K, 0, 100_000, &mut rng);
        assert_ne!(notes[0].lane, notes[1].lane);
    }
}

#[test]
fn s_random_keeps_notes_off_held_long_note_lanes() {
    for seed in 0..128u64 {
        let mut notes = vec![
            long_note(0, 0, 2_000_000),
            normal_note(1, 1_000_000),
            normal_note(2, 1_000_000),
            normal_note(3, 1_500_000),
        ];
        let mut rng = SmallRng::seed_from_u64(seed);
        s_random(&mut notes, PlayMode::Beat7K, 0, false, &mut rng);
        let ln_lane = notes[0].lane;
        for n in &notes[1..] {
            assert_ne!(n.lane, ln_lane, "seed {}", seed);
        }
        let mut notes = vec![
            long_note(4, 0, 2_000_000),
            normal_note(6, 500_000),
            normal_note(5, 1_000_000),
        ];
        let mut rng = SmallRng::seed_from_u64(seed);
        h_random(&mut notes, PlayMode::Beat7K, 0, false, 100_000, &mut rng);
        assert_ne!(notes[1].lane, notes[0].lane, "seed {}", seed);
        assert_ne!(notes[2].lane, notes[0].lane, "seed {}", seed);
    }
}

#[test]
fn converge_and_all_scratch_keep_notes_off_held_long_note_lanes() {
    for seed in 0..128u64 {
        let mut notes = vec![
            long_note(0, 0, 2_000_000),
            normal_note(1, 1_000_000),
            normal_note(2, 1_000_000),
        ];
        let mut rng = SmallRng::seed_from_u64(seed);
        converge(&mut notes, PlayMode::Beat7K, 0, false, 100_000, &mut rng);
        assert_ne!(notes[1].lane, notes[0].lane, "seed {}", seed);
        assert_ne!(notes[2].lane, notes[0].lane, "seed {}", seed);

        let mut notes = vec![
            long_note(0, 0, 2_000_000),
            normal_note(1, 1_000_000),
            normal_note(2, 1_000_000),
            normal_note(3, 1_000_000),
        ];
        let mut rng = SmallRng::seed_from_u64(seed);
        all_scratch(&mut notes, PlayMode::Beat7K, 0, 100_000, &mut rng);
        for n in &notes[1..] {
            assert_ne!(n.lane, notes[0].lane, "seed {}", seed);
        }
    }
}

#[test]
fn converge_keeps_a_run_on_one_lane() {
    for seed in 0..64u64 {
        let mut notes: Vec<Note> = (0..10).map(|i| normal_note(i % 7, i as i64 * 150_000)).collect();
        let mut rng = SmallRng::seed_from_u64(seed);
        converge(&mut notes, PlayMode::Beat7K, 0, false, 100_000, &mut rng);
        let first = notes[0].lane;
        assert!(notes.iter().all(|n| n.lane == first), "seed {}", seed);
    }
}

#[test]
fn s_random_falls_back_to_the_lane_hit_longest_ago() {
    for seed in 0..64u64 {
        let mut notes = vec![
            normal_note(0, 0),
            normal_note(1, 0),
            normal_note(2, 0),
            normal_note(3, 5_000),
            normal_note(4, 5_000),
            normal_note(5, 5_000),
            normal_note(0, 12_000),
            normal_note(1, 12_000),
        ];
        let mut rng = SmallRng::seed_from_u64(seed);
        s_random(&mut notes, PlayMode::Beat7K, 0, false, &mut rng);
        let used: Vec<usize> = notes[..6].iter().map(|n| n.lane).collect();
        let early: Vec<usize> = notes[..3].iter().map(|n| n.lane).collect();
        let (a, b) = (notes[6].lane, notes[7].lane);
        // one note takes the lane not hit yet, the other the lane hit longest ago
        let fresh = if used.contains(&a) { b } else { a };
        let other = if fresh == a { b } else { a };
        assert!(!used.contains(&fresh), "seed {}", seed);
        assert!(early.contains(&other), "seed {}", seed);
    }
}
