use journey_bot::spam_config::{parse_u32_list, AntiSpamConfig, Punishment};

fn tiers(max_messages: Vec<u32>, thresholds: Vec<u64>) -> AntiSpamConfig {
    AntiSpamConfig {
        punishment: Punishment::Mute,
        timeout_minutes: 10,
        max_messages,
        similarity_thresholds: thresholds,
        re_punish_threshold: 1_100_000,
        time_frame_seconds: 60,
        clean_user: false,
    }
}

#[test]
fn escalation_tiers_fire_in_configured_order() {
    // tiers 6 / 4 / 2 messages at 0.9 / 0.95 / 0.99 similarity
    let c = tiers(vec![6, 4, 2], vec![900_000, 950_000, 990_000]);
    // a cluster of 4 messages with mean similarity 0.96 fires tier 1
    assert_eq!(c.first_firing_tier(960_000, 4), Some(1));
    // a cluster of 4 messages with mean similarity 0.90 fires no tier
    assert_eq!(c.first_firing_tier(900_000, 4), None);
    // a near-exact pair already fires the strictest tier
    assert_eq!(c.first_firing_tier(995_000, 2), Some(2));
    // a large loose cluster fires the first tier
    assert_eq!(c.first_firing_tier(910_000, 6), Some(0));
}

#[test]
fn admission_floor_and_capacity() {
    let c = tiers(vec![6, 4, 2], vec![900_000, 950_000, 990_000]);
    assert_eq!(c.min_threshold(), 900_000);
    assert_eq!(c.capacity(), 6);
}

#[test]
fn well_formedness_checks() {
    assert!(tiers(vec![3], vec![900_000]).is_well_formed());
    assert!(!tiers(vec![3, 2], vec![900_000]).is_well_formed());
    assert!(!tiers(vec![], vec![]).is_well_formed());
    assert!(!tiers(vec![0], vec![900_000]).is_well_formed());
}

#[test]
fn tier_lists_parse_from_command_input() {
    assert_eq!(parse_u32_list("6, 4, 2"), Some(vec![6, 4, 2]));
    assert_eq!(parse_u32_list("6"), Some(vec![6]));
    // repeated separators collapse, as in the command's split pattern
    assert_eq!(parse_u32_list("6, , 2"), Some(vec![6, 2]));
    assert_eq!(parse_u32_list("4294967295"), Some(vec![u32::MAX]));
    assert_eq!(parse_u32_list("0006"), Some(vec![6]));
}

#[test]
fn malformed_tier_lists_are_rejected() {
    assert_eq!(parse_u32_list(""), None);
    assert_eq!(parse_u32_list("6,4"), None);
    assert_eq!(parse_u32_list("6, "), None);
    assert_eq!(parse_u32_list(", 6"), None);
    assert_eq!(parse_u32_list("a, 2"), None);
    assert_eq!(parse_u32_list("6,  2"), None);
    assert_eq!(parse_u32_list("4294967296"), None);
}
