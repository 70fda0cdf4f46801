use advent_of_rust_22::day3::Day3;
use advent_of_rust_22::AOCSolutions;

const SAMPLE_INPUT: &str = r"vJrwpWtwJgWrhcsFMMfFFhFp
    jqHRNqRjqzjGDLGLrsFMfFZSrLrFZsSL
    PmmdzqPrVvPwwTWBwg
    wMqvLMZHhHMvwLHjbvcjnnSBnvTQFn
    ttgJtRGJQctTZtZT
    CrZsJsPPZsGzwwsLwLmpwMDw";

#[test]
fn day3_test_get_star_1() {
    assert_eq!(Day3::get_star_1(SAMPLE_INPUT).unwrap(), 157)
}

#[test]
fn day3_test_get_star_2() {
    assert_eq!(Day3::get_star_2(SAMPLE_INPUT).unwrap(), 70)
}

#[test]
fn day3_priorities() {
    assert_eq!(Day3::priority(&b'a'), Ok(1));
    assert_eq!(Day3::priority(&b'z'), Ok(26));
    assert_eq!(Day3::priority(&b'A'), Ok(27));
    assert_eq!(Day3::priority(&b'Z'), Ok(52));
    assert_eq!(Day3::priority(&200u8), Err(()));
}

#[test]
fn day3_reading_stops_at_a_short_line() {
    assert_eq!(Day3::get_star_1("aa\nb\nZZ\n"), Ok(1));
}

#[test]
fn day3_group_without_one_badge_is_an_error() {
    assert_eq!(Day3::get_star_2("ab\nab\nab\n"), Err(()));
    assert_eq!(Day3::get_star_2("ab\ncd\nef\n"), Err(()));
    assert_eq!(Day3::get_star_2("ab\nbc\nbd\nxy\n"), Ok(2));
}
