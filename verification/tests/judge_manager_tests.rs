use brs::play::judge::judge_algorithm::JudgeAlgorithm;
use brs::play::judge::judge_manager::{
    build_judge_tables, determine_judge_index, determine_note_judge, select_note, update_judge,
    JudgeLevel, JudgeScore, HCN_DURATION_US,
};
use brs::play::judge::judge_property::{JudgeProperty, MissCondition};

const SEVENKEYS_TABLE: [[i64; 2]; 5] = [
    [-20000, 20000],
    [-60000, 60000],
    [-150000, 150000],
    [-280000, 220000],
    [-150000, 500000],
];

#[test]
fn judge_level_from_index() {
    assert_eq!(JudgeLevel::from_index(0), Some(JudgeLevel::PerfectGreat));
    assert_eq!(JudgeLevel::from_index(3), Some(JudgeLevel::Bad));
    assert_eq!(JudgeLevel::from_index(5), Some(JudgeLevel::Miss));
    assert_eq!(JudgeLevel::from_index(6), Some(JudgeLevel::EmptyPoor));
    assert_eq!(JudgeLevel::from_index(7), None);
}

#[test]
fn judge_level_continues_combo() {
    let combo_cond = &[true, true, true, false, false, true];
    assert!(JudgeLevel::PerfectGreat.continues_combo(combo_cond));
    assert!(JudgeLevel::Great.continues_combo(combo_cond));
    assert!(JudgeLevel::Good.continues_combo(combo_cond));
    assert!(!JudgeLevel::Bad.continues_combo(combo_cond));
    assert!(!JudgeLevel::Poor.continues_combo(combo_cond));
    assert!(JudgeLevel::Miss.continues_combo(combo_cond));
}

#[test]
fn determine_judge_index_pg() {
    assert_eq!(determine_judge_index(0, &SEVENKEYS_TABLE), Some(0));
    assert_eq!(determine_judge_index(20000, &SEVENKEYS_TABLE), Some(0));
    assert_eq!(determine_judge_index(-20000, &SEVENKEYS_TABLE), Some(0));
}

#[test]
fn determine_judge_index_gr() {
    assert_eq!(determine_judge_index(30000, &SEVENKEYS_TABLE), Some(1));
    assert_eq!(determine_judge_index(-30000, &SEVENKEYS_TABLE), Some(1));
}

#[test]
fn determine_judge_index_gd() {
    assert_eq!(determine_judge_index(100000, &SEVENKEYS_TABLE), Some(2));
}

#[test]
fn determine_judge_index_bd() {
    assert_eq!(determine_judge_index(200000, &SEVENKEYS_TABLE), Some(3));
    assert_eq!(determine_judge_index(-200000, &SEVENKEYS_TABLE), Some(3));
}

#[test]
fn determine_judge_index_ms() {
    assert_eq!(determine_judge_index(300000, &SEVENKEYS_TABLE), Some(4));
}

#[test]
fn determine_judge_index_outside() {
    assert_eq!(determine_judge_index(600000, &SEVENKEYS_TABLE), None);
    assert_eq!(determine_judge_index(-300000, &SEVENKEYS_TABLE), None);
}

#[test]
fn note_judge_unjudged_pg() {
    assert_eq!(determine_note_judge(0, true, &SEVENKEYS_TABLE), 0);
}

#[test]
fn note_judge_unjudged_gr() {
    assert_eq!(determine_note_judge(30000, true, &SEVENKEYS_TABLE), 1);
}

#[test]
fn note_judge_unjudged_ms_window() {
    assert_eq!(determine_note_judge(300000, true, &SEVENKEYS_TABLE), 5);
}

#[test]
fn note_judge_unjudged_outside() {
    assert_eq!(determine_note_judge(600000, true, &SEVENKEYS_TABLE), 6);
}

#[test]
fn note_judge_already_judged_in_ms_window() {
    assert_eq!(determine_note_judge(300000, false, &SEVENKEYS_TABLE), 5);
}

#[test]
fn note_judge_already_judged_outside() {
    assert_eq!(determine_note_judge(600000, false, &SEVENKEYS_TABLE), 6);
}

#[test]
fn judge_score_new() {
    let score = JudgeScore::new(100);
    assert_eq!(score.ghost_data.len(), 100);
    assert!(score.ghost_data.iter().all(|&g| g == 4));
    assert_eq!(score.recent_judges_us.len(), 100);
}

#[test]
fn judge_score_add_and_count() {
    let mut score = JudgeScore::new(10);
    score.add_judge(0, true);
    score.add_judge(0, false);
    score.add_judge(1, true);
    assert_eq!(score.judge_count(0), 2);
    assert_eq!(score.judge_count(1), 1);
    assert_eq!(score.judge_count(2), 0);
    assert_eq!(score.early_counts[0], 1);
    assert_eq!(score.late_counts[0], 1);
}

#[test]
fn judge_score_combo() {
    let combo_cond = &[true, true, true, false, false, true];
    let mut score = JudgeScore::new(10);

    score.update_combo(0, combo_cond);
    assert_eq!(score.combo, 1);
    score.update_combo(1, combo_cond);
    assert_eq!(score.combo, 2);
    score.update_combo(3, combo_cond);
    assert_eq!(score.combo, 0);
    assert_eq!(score.max_combo, 2);
    score.update_combo(0, combo_cond);
    assert_eq!(score.combo, 1);
}

#[test]
fn judge_score_ghost() {
    let mut score = JudgeScore::new(3);
    score.record_ghost(0);
    score.record_ghost(1);
    score.record_ghost(3);
    assert_eq!(score.ghost_data, vec![0, 1, 3]);
    assert_eq!(score.pass_notes, 3);
}

#[test]
fn update_judge_basic() {
    let mut score = JudgeScore::new(5);
    let combo_cond = &[true, true, true, false, false, true];

    update_judge(
        &mut score,
        0,
        5000,
        true,
        MissCondition::Always,
        combo_cond,
        0,
    );
    assert_eq!(score.judge_count(0), 1);
    assert_eq!(score.early_counts[0], 1);
    assert_eq!(score.combo, 1);
    assert_eq!(score.pass_notes, 1);
}

#[test]
fn update_judge_miss_condition_one_skips_duplicate() {
    let mut score = JudgeScore::new(5);
    let combo_cond = &[true, true, true, false, false, false];

    update_judge(
        &mut score,
        4,
        -200000,
        true,
        MissCondition::One,
        combo_cond,
        12345,
    );
    assert_eq!(score.judge_count(4), 0);
    assert_eq!(score.pass_notes, 1);

    update_judge(
        &mut score,
        4,
        -200000,
        true,
        MissCondition::One,
        combo_cond,
        0,
    );
    assert_eq!(score.judge_count(4), 1);
}

#[test]
fn update_judge_miss_condition_always_counts_all() {
    let mut score = JudgeScore::new(5);
    let combo_cond = &[true, true, true, false, false, false];

    update_judge(
        &mut score,
        4,
        -200000,
        true,
        MissCondition::Always,
        combo_cond,
        12345,
    );
    assert_eq!(score.judge_count(4), 1);
}

#[test]
fn select_note_single_unjudged() {
    let candidates = vec![(100000i64, true, 0i64)];
    let result = select_note(
        &candidates,
        100000,
        &SEVENKEYS_TABLE,
        -280000,
        500000,
        JudgeAlgorithm::Combo,
        MissCondition::Always,
    );
    assert_eq!(result, Some((0, 0)));
}

#[test]
fn select_note_picks_closer_with_duration() {
    let candidates = vec![(50000i64, true, 0i64), (110000i64, true, 0i64)];
    let result = select_note(
        &candidates,
        100000,
        &SEVENKEYS_TABLE,
        -280000,
        500000,
        JudgeAlgorithm::Duration,
        MissCondition::Always,
    );
    assert_eq!(result, Some((1, 0)));
}

#[test]
fn select_note_lowest_keeps_first() {
    let candidates = vec![(80000i64, true, 0i64), (100000i64, true, 0i64)];
    let result = select_note(
        &candidates,
        100000,
        &SEVENKEYS_TABLE,
        -280000,
        500000,
        JudgeAlgorithm::Lowest,
        MissCondition::Always,
    );
    assert_eq!(result, Some((0, 0)));
}

#[test]
fn select_note_empty_candidates() {
    let candidates: Vec<(i64, bool, i64)> = vec![];
    let result = select_note(
        &candidates,
        100000,
        &SEVENKEYS_TABLE,
        -280000,
        500000,
        JudgeAlgorithm::Combo,
        MissCondition::Always,
    );
    assert_eq!(result, None);
}

#[test]
fn select_note_outside_window() {
    let candidates = vec![(900000i64, true, 0i64)];
    let result = select_note(
        &candidates,
        100000,
        &SEVENKEYS_TABLE,
        -280000,
        500000,
        JudgeAlgorithm::Combo,
        MissCondition::Always,
    );
    assert_eq!(result, None);
}

#[test]
fn build_judge_tables_sevenkeys() {
    let prop = &JudgeProperty::sevenkeys();
    let rate = [100, 100, 100];
    let tables = build_judge_tables(prop, 100, &rate, &rate);

    assert_eq!(tables.note.len(), 5);
    assert_eq!(tables.ln_end.len(), 4);
    assert_eq!(tables.scratch.len(), 5);
    assert_eq!(tables.scratch_ln_end.len(), 4);
    assert_eq!(tables.note_release_margin, 0);
    assert_eq!(tables.scratch_release_margin, 0);

    assert!(tables.judge_start <= -280000);
    assert!(tables.judge_end >= 500000);
}

#[test]
fn build_judge_tables_pms() {
    let prop = &JudgeProperty::pms();
    let rate = [100, 100, 100];
    let tables = build_judge_tables(prop, 100, &rate, &rate);

    assert_eq!(tables.note_release_margin, 200000);
    assert!(tables.scratch.is_empty());
}

#[test]
fn judge_tables_lane_selection() {
    let prop = &JudgeProperty::sevenkeys();
    let rate = [100, 100, 100];
    let tables = build_judge_tables(prop, 100, &rate, &rate);

    assert_eq!(tables.table_for_lane(false), tables.note.as_slice());
    assert_eq!(
        tables.ln_end_table_for_lane(false),
        tables.ln_end.as_slice()
    );

    assert_eq!(tables.table_for_lane(true), tables.scratch.as_slice());
    assert_eq!(
        tables.ln_end_table_for_lane(true),
        tables.scratch_ln_end.as_slice()
    );
}

#[test]
fn hcn_duration_matches_beatoraja() {
    assert_eq!(HCN_DURATION_US, 200_000);
}

#[test]
fn judge_score_combo_tracks_max_across_breaks() {
    let combo_cond = &[true, true, true, false, false, true];
    let mut score = JudgeScore::new(10);
    for _ in 0..3 {
        score.update_combo(0, combo_cond);
    }
    score.update_combo(4, combo_cond);
    score.update_combo(2, combo_cond);
    assert_eq!(score.combo, 1);
    assert_eq!(score.max_combo, 3);
}

#[test]
fn select_note_pick_lies_in_range_with_its_judge() {
    let candidates = vec![
        (-400000i64, true, 0i64),
        (40000i64, true, 0i64),
        (900000i64, true, 0i64),
    ];
    let press = 0i64;
    for algorithm in [JudgeAlgorithm::Combo, JudgeAlgorithm::Duration, JudgeAlgorithm::Lowest] {
        let result = select_note(
            &candidates,
            press,
            &SEVENKEYS_TABLE,
            -280000,
            500000,
            algorithm,
            MissCondition::Always,
        );
        let (i, j) = result.expect("the middle candidate is in range");
        let d = candidates[i].0 - press;
        assert_eq!(i, 1);
        assert!(-280000 <= d && d < 500000);
        assert!(j < 6);
        assert_eq!(j, determine_note_judge(d, candidates[i].1, &SEVENKEYS_TABLE));
    }
}
