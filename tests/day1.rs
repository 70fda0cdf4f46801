use advent_of_rust_22::day1::{get_star_1, get_star_2, top3_sum};

const SAMPLE_INPUT: &str = r"1000
        2000
        3000

        4000

        5000
        6000

        7000
        8000
        9000

        10000";

#[test]
fn day1_test_star_1_against_sample_input() {
    assert_eq!(get_star_1(SAMPLE_INPUT), 24000);
}

#[test]
fn day1_test_star_2_against_sample_input() {
    assert_eq!(get_star_2(SAMPLE_INPUT).unwrap(), 45000);
}

#[test]
fn day1_empty_input_is_one_empty_group() {
    assert_eq!(get_star_1(""), 0);
    assert_eq!(get_star_2(""), Err(()));
}

#[test]
fn day1_two_groups_are_too_few() {
    assert_eq!(get_star_2("1\n\n2\n"), Err(()));
    assert_eq!(get_star_1("1\n\n2\n"), 2);
}

#[test]
fn day1_trailing_blank_line_opens_an_empty_group() {
    assert_eq!(get_star_2("5\n\n7\n\n"), Ok(12));
}

#[test]
fn day1_top3_takes_distinct_places() {
    assert_eq!(top3_sum(&vec![4, 9, 9, 1, 9]), Ok(27));
    assert_eq!(top3_sum(&vec![3, 1, 2, 10]), Ok(15));
    assert_eq!(top3_sum(&vec![3, 1]), Err(()));
}

#[test]
fn day1_signed_lines() {
    assert_eq!(get_star_1("-5\n3\n\n10\n\n1"), 10);
    assert_eq!(get_star_2("-5\n3\n\n10\n\n1"), Ok(9));
    assert_eq!(get_star_1("-5\n\n-7"), 0);
}
