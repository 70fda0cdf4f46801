use advent_of_rust_22::day2::{Day2, Play, Round};
use advent_of_rust_22::AOCSolutions;

const SAMPLE_INPUT: &str = r"A Y
    B X
    C Z";

#[test]
fn day2_test_star_1_against_sample_input() {
    assert_eq!(Day2::get_star_1(SAMPLE_INPUT).unwrap(), 15)
}

#[test]
fn day2_test_star_2_against_sample_input() {
    assert_eq!(Day2::get_star_2(SAMPLE_INPUT).unwrap(), 12)
}

#[test]
fn day2_round_scores() {
    assert_eq!(Round(Play::Paper, Play::Rock).get_score(), 8);
    assert_eq!(Round(Play::Rock, Play::Paper).get_score(), 1);
    assert_eq!(Round(Play::Scissors, Play::Scissors).get_score(), 6);
}

#[test]
fn day2_letters() {
    let s = "AXBYCZQ".as_bytes();
    assert!(Play::from_str(s, 0, 1) == Ok(Play::Rock));
    assert!(Play::from_str(s, 3, 4) == Ok(Play::Paper));
    assert!(Play::from_str(s, 5, 6) == Ok(Play::Scissors));
    assert!(Play::from_str(s, 6, 7) == Err(()));
    assert!(Play::from_str(s, 0, 2) == Err(()));
}

#[test]
fn day2_empty_guide_scores_nothing() {
    assert_eq!(Day2::get_star_1(""), Ok(0));
    assert_eq!(Day2::get_star_2(""), Ok(0));
}
