use brs::play::play_result::determine_clear_type;
use brs::play::score::ScoreData;
use brs::model::note::PlayMode;
use brs::play::clear_type::ClearType;
use brs::play::gauge::gauge_property::{GaugePropertyType, GaugeType};
use brs::play::judge::judge_algorithm::JudgeAlgorithm;

const SEVENKEYS_TABLE: [[i64; 2]; 5] = [
    [-20000, 20000],
    [-60000, 60000],
    [-150000, 150000],
    [-280000, 220000],
    [-150000, 500000],
];

#[test]
fn from_id_all_valid() {
    assert_eq!(ClearType::from_id(0), ClearType::NoPlay);
    assert_eq!(ClearType::from_id(1), ClearType::Failed);
    assert_eq!(ClearType::from_id(2), ClearType::AssistEasy);
    assert_eq!(ClearType::from_id(3), ClearType::LightAssistEasy);
    assert_eq!(ClearType::from_id(4), ClearType::Easy);
    assert_eq!(ClearType::from_id(5), ClearType::Normal);
    assert_eq!(ClearType::from_id(6), ClearType::Hard);
    assert_eq!(ClearType::from_id(7), ClearType::ExHard);
    assert_eq!(ClearType::from_id(8), ClearType::FullCombo);
    assert_eq!(ClearType::from_id(9), ClearType::Perfect);
    assert_eq!(ClearType::from_id(10), ClearType::Max);
}

#[test]
fn from_id_unknown_returns_noplay() {
    assert_eq!(ClearType::from_id(11), ClearType::NoPlay);
    assert_eq!(ClearType::from_id(255), ClearType::NoPlay);
}

#[test]
fn from_gauge_type_matches_beatoraja() {
    assert_eq!(
        ClearType::from_gauge_type(GaugeType::AssistEasy),
        ClearType::LightAssistEasy
    );
    assert_eq!(ClearType::from_gauge_type(GaugeType::Easy), ClearType::Easy);
    assert_eq!(
        ClearType::from_gauge_type(GaugeType::Normal),
        ClearType::Normal
    );
    assert_eq!(
        ClearType::from_gauge_type(GaugeType::Class),
        ClearType::Normal
    );
    assert_eq!(ClearType::from_gauge_type(GaugeType::Hard), ClearType::Hard);
    assert_eq!(
        ClearType::from_gauge_type(GaugeType::ExClass),
        ClearType::Hard
    );
    assert_eq!(
        ClearType::from_gauge_type(GaugeType::ExHard),
        ClearType::ExHard
    );
    assert_eq!(
        ClearType::from_gauge_type(GaugeType::ExHardClass),
        ClearType::ExHard
    );
    assert_eq!(
        ClearType::from_gauge_type(GaugeType::Hazard),
        ClearType::FullCombo
    );
}

#[test]
fn ordering_matches_id() {
    assert!(ClearType::NoPlay < ClearType::Failed);
    assert!(ClearType::Failed < ClearType::AssistEasy);
    assert!(ClearType::AssistEasy < ClearType::LightAssistEasy);
    assert!(ClearType::LightAssistEasy < ClearType::Easy);
    assert!(ClearType::Easy < ClearType::Normal);
    assert!(ClearType::Normal < ClearType::Hard);
    assert!(ClearType::Hard < ClearType::ExHard);
    assert!(ClearType::ExHard < ClearType::FullCombo);
    assert!(ClearType::FullCombo < ClearType::Perfect);
    assert!(ClearType::Perfect < ClearType::Max);
}

#[test]
fn gauge_property_type_from_mode() {
    assert_eq!(
        GaugePropertyType::from_mode(PlayMode::Beat5K),
        GaugePropertyType::FiveKeys
    );
    assert_eq!(
        GaugePropertyType::from_mode(PlayMode::Beat7K),
        GaugePropertyType::SevenKeys
    );
    assert_eq!(
        GaugePropertyType::from_mode(PlayMode::PopN9K),
        GaugePropertyType::Pms
    );
    assert_eq!(
        GaugePropertyType::from_mode(PlayMode::Keyboard24K),
        GaugePropertyType::Keyboard
    );
}

#[test]
fn combo_prefers_note2_when_note1_past_gd_late() {
    assert!(JudgeAlgorithm::Combo.compare(0, 300000, true, 200000, &SEVENKEYS_TABLE));
}

#[test]
fn combo_keeps_note1_when_within_gd_late() {
    assert!(!JudgeAlgorithm::Combo.compare(100000, 300000, true, 200000, &SEVENKEYS_TABLE));
}

#[test]
fn combo_keeps_note1_when_note2_judged() {
    assert!(!JudgeAlgorithm::Combo.compare(0, 300000, false, 200000, &SEVENKEYS_TABLE));
}

#[test]
fn combo_keeps_note1_when_note2_past_gd_early() {
    assert!(!JudgeAlgorithm::Combo.compare(0, 400000, true, 200000, &SEVENKEYS_TABLE));
}

#[test]
fn duration_prefers_closer_note() {
    assert!(JudgeAlgorithm::Duration.compare(0, 180000, true, 100000, &SEVENKEYS_TABLE));
}

#[test]
fn duration_keeps_note1_when_closer() {
    assert!(!JudgeAlgorithm::Duration.compare(90000, 200000, true, 100000, &SEVENKEYS_TABLE));
}

#[test]
fn duration_keeps_note1_when_note2_judged() {
    assert!(!JudgeAlgorithm::Duration.compare(0, 180000, false, 100000, &SEVENKEYS_TABLE));
}

#[test]
fn duration_keeps_note1_on_tie() {
    assert!(!JudgeAlgorithm::Duration.compare(90000, 110000, true, 100000, &SEVENKEYS_TABLE));
}

#[test]
fn lowest_always_keeps_note1() {
    assert!(!JudgeAlgorithm::Lowest.compare(0, 100000, true, 50000, &SEVENKEYS_TABLE));
    assert!(!JudgeAlgorithm::Lowest.compare(1000000, 50000, true, 50000, &SEVENKEYS_TABLE));
}

#[test]
fn score_prefers_note2_when_note1_past_gr_late() {
    assert!(JudgeAlgorithm::Score.compare(0, 250000, true, 200000, &SEVENKEYS_TABLE));
}

#[test]
fn score_keeps_note1_when_within_gr_late() {
    assert!(!JudgeAlgorithm::Score.compare(150000, 250000, true, 200000, &SEVENKEYS_TABLE));
}

#[test]
fn score_keeps_note1_when_note2_judged() {
    assert!(!JudgeAlgorithm::Score.compare(0, 250000, false, 200000, &SEVENKEYS_TABLE));
}

#[test]
fn score_keeps_note1_when_note2_past_gr_early() {
    assert!(!JudgeAlgorithm::Score.compare(0, 280000, true, 200000, &SEVENKEYS_TABLE));
}

#[test]
fn default_algorithm_set() {
    assert_eq!(
        JudgeAlgorithm::default_set(),
        [
            JudgeAlgorithm::Combo,
            JudgeAlgorithm::Duration,
            JudgeAlgorithm::Lowest
        ]
    );
}

// The gauge's clear condition is a float comparison made by the gauge itself; these
// cases pass its outcome (where each described gauge ends up) to the library.

#[test]
fn clear_type_failed_when_not_qualified() {
    // Normal gauge starts at 20%, border is 80% -> not qualified
    let score = ScoreData::new(1000);
    assert_eq!(determine_clear_type(false, GaugeType::Normal, &score), ClearType::Failed);
}

#[test]
fn clear_type_max_when_all_pg_full_combo() {
    let mut score = ScoreData::new(10);
    score.early_counts[0] = 10; // All PG
    score.max_combo = 10; // Full combo
    assert_eq!(determine_clear_type(true, GaugeType::Normal, &score), ClearType::Max);
}

#[test]
fn clear_type_perfect_when_all_pg_but_combo_broken() {
    let mut score = ScoreData::new(10);
    score.early_counts[0] = 10;
    score.max_combo = 5; // Combo was broken
    assert_eq!(determine_clear_type(true, GaugeType::Normal, &score), ClearType::Perfect);
}

#[test]
fn clear_type_full_combo_with_gr() {
    let mut score = ScoreData::new(10);
    score.early_counts[0] = 5;
    score.early_counts[1] = 5; // Some GR
    score.max_combo = 10;
    assert_eq!(determine_clear_type(true, GaugeType::Normal, &score), ClearType::FullCombo);
}

fn with_bad() -> ScoreData {
    let mut score = ScoreData::new(10);
    score.early_counts[0] = 5;
    score.early_counts[3] = 5; // Some BD -> not full combo
    score
}

#[test]
fn clear_type_normal_gauge() {
    assert_eq!(determine_clear_type(true, GaugeType::Normal, &with_bad()), ClearType::Normal);
}

#[test]
fn clear_type_easy_gauge() {
    assert_eq!(determine_clear_type(true, GaugeType::Easy, &with_bad()), ClearType::Easy);
}

#[test]
fn clear_type_hard_gauge() {
    // Hard gauge: starts at 100, border is 0 (any value > 0 qualifies)
    assert_eq!(determine_clear_type(true, GaugeType::Hard, &with_bad()), ClearType::Hard);
}

#[test]
fn clear_type_exhard_gauge() {
    assert_eq!(determine_clear_type(true, GaugeType::ExHard, &with_bad()), ClearType::ExHard);
}

#[test]
fn clear_type_assist_easy_gauge() {
    assert_eq!(
        determine_clear_type(true, GaugeType::AssistEasy, &with_bad()),
        ClearType::LightAssistEasy
    );
}

#[test]
fn clear_type_hazard_gauge() {
    // Hazard gauge: starts at 100, any miss = death
    assert_eq!(determine_clear_type(true, GaugeType::Hazard, &with_bad()), ClearType::FullCombo);
}

#[test]
fn clear_type_class_gauge() {
    // CLASS gauge init is 100, border is 0
    assert_eq!(determine_clear_type(true, GaugeType::Class, &with_bad()), ClearType::Normal);
}
