use advent_of_rust_22::day4::Day4;
use advent_of_rust_22::AOCSolutions;

const SAMPLE_INPUT: &str = r"2-4,6-8
        2-3,4-5
        5-7,7-9
        2-8,3-7
        6-6,4-6
        2-6,4-8";

const SAMPLE_2: &str = r"1-5,1-5
    2-16,49-55
    31-98,98-99";

#[test]
fn day4_test_get_star_1() {
    assert_eq!(Day4::get_star_1(SAMPLE_INPUT).unwrap(), 2);
    assert_eq!(Day4::get_star_1(SAMPLE_2).unwrap(), 1);
}

#[test]
fn day4_test_get_star_2() {
    assert_eq!(Day4::get_star_2(SAMPLE_INPUT).unwrap(), 4);
    assert_eq!(Day4::get_star_2(SAMPLE_2).unwrap(), 2);
}

#[test]
fn day4_short_line_is_an_error() {
    assert_eq!(Day4::get_star_1("1-2,3\n"), Err(()));
    assert_eq!(Day4::get_star_2("1-2,3-4\n5\n"), Err(()));
}

#[test]
fn day4_parsed_pairs() {
    let r = Day4::parse_to_rangeduos("2-4,6-8\n10-20,15-15".as_bytes()).unwrap();
    assert_eq!(r, vec![((2, 4), (6, 8)), ((10, 20), (15, 15))]);
}
