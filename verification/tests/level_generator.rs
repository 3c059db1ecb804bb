use skiplist::level_generator::{LevelGenerator, DEFAULT_LEVELS, DEFAULT_PROPABILITY};

const HALF: u64 = 0x8000_0000_0000_0000;
const QUARTER: u64 = 0x4000_0000_0000_0000;
const SIXTEENTH: u64 = 0x1000_0000_0000_0000;

#[test]
fn choose_level() {
    let mut lg = LevelGenerator::new();
    assert_eq!(lg.choose_level(), 0);
}

#[test]
fn defaults_are_a_half_and_32_levels() {
    assert_eq!(DEFAULT_PROPABILITY, HALF);
    assert_eq!(DEFAULT_LEVELS, 32);
}

#[test]
fn first_level_is_zero_whatever_the_sample() {
    let mut lg = LevelGenerator::new();
    assert_eq!(lg.choose_with(0), 0);
    let mut lg = LevelGenerator::new();
    assert_eq!(lg.choose_with(u64::MAX), 0);
}

#[test]
fn level_rises_by_one_at_most() {
    let mut lg = LevelGenerator::new();
    for expected in 0..8 {
        assert_eq!(lg.choose_with(0), expected);
    }
}

#[test]
fn squared_thresholds_run_out() {
    // a half, squared seven times, is less than one part in 2^64
    let mut lg = LevelGenerator::new();
    for _ in 0..8 {
        lg.choose_with(0);
    }
    assert_eq!(lg.choose_with(0), 7);
    assert_eq!(lg.choose_with(0), 7);
    // the seventh threshold is one part in 2^64
    assert_eq!(lg.choose_with(1), 6);
}

#[test]
fn thresholds_are_squared() {
    let mut lg = LevelGenerator::with_propability(HALF);
    // raise the limit to 3
    assert_eq!(lg.choose_with(0), 0);
    assert_eq!(lg.choose_with(0), 1);
    assert_eq!(lg.choose_with(0), 2);
    // a half is not passed by a half
    assert_eq!(lg.choose_with(HALF), 0);
    assert_eq!(lg.choose_with(HALF - 1), 1);
    // the second threshold is a quarter
    assert_eq!(lg.choose_with(QUARTER), 1);
    assert_eq!(lg.choose_with(QUARTER - 1), 2);
    // the third is a sixteenth, and passing it reaches the limit of 3
    assert_eq!(lg.choose_with(SIXTEENTH), 2);
    assert_eq!(lg.choose_with(SIXTEENTH - 1), 3);
    assert_eq!(lg.choose_with(0), 4);
}

#[test]
fn level_stays_below_the_number_of_levels() {
    let mut lg = LevelGenerator::with_config(HALF, 2);
    assert_eq!(lg.choose_with(0), 0);
    assert_eq!(lg.choose_with(0), 1);
    assert_eq!(lg.choose_with(0), 1);
    assert_eq!(lg.choose_with(0), 1);
    let mut lg = LevelGenerator::with_config(HALF, 1);
    assert_eq!(lg.choose_with(0), 0);
    assert_eq!(lg.choose_with(0), 0);
}

#[test]
fn probability_zero_never_climbs() {
    let mut lg = LevelGenerator::with_propability(0);
    for _ in 0..5 {
        assert_eq!(lg.choose_with(0), 0);
    }
}

#[test]
fn shrink_lowers_the_limit_down_to_zero() {
    let mut lg = LevelGenerator::new();
    assert_eq!(lg.shrink(), 0);
    assert_eq!(lg.choose_with(0), 0);
    assert_eq!(lg.choose_with(0), 1);
    assert_eq!(lg.choose_with(0), 2);
    assert_eq!(lg.shrink(), 2);
    assert_eq!(lg.shrink(), 1);
    assert_eq!(lg.choose_with(0), 1);
    assert_eq!(lg.shrink(), 1);
    assert_eq!(lg.shrink(), 0);
    assert_eq!(lg.shrink(), 0);
    assert_eq!(lg.choose_with(0), 0);
}

#[test]
fn clone_starts_over_with_the_same_configuration() {
    let mut lg = LevelGenerator::with_config(HALF, 2);
    assert_eq!(lg.choose_with(0), 0);
    assert_eq!(lg.choose_with(0), 1);
    let mut copy = lg.clone();
    assert_eq!(copy.choose_with(0), 0);
    assert_eq!(copy.choose_with(HALF), 0);
    assert_eq!(copy.choose_with(0), 1);
    assert_eq!(copy.choose_with(0), 1);
}

#[test]
fn drawn_levels_stay_in_bounds() {
    let mut lg = LevelGenerator::with_config(HALF, 4);
    let mut limit = 0;
    for _ in 0..1000 {
        let level = lg.choose_level();
        assert!(level <= limit);
        assert!(level < 4);
        if level == limit && limit < 4 {
            limit = level + 1;
        }
    }
}
