use advent_of_rust_22::day8::{ColumnIterator, Day8};
use advent_of_rust_22::AOCSolutions;

const SAMPLE_INPUT: &str = r"30373
25512
65332
33549
35390";

#[test]
fn test_is_visible_in_view_1() {
    let axis_1: Vec<u8> = vec![3, 5, 1, 2, 6, 7, 3, 1, 2, 5];
    let answer_1 = vec![true, true, false, false, true, true, false, false, false, true];
    let result_1: Vec<bool> = axis_1
        .iter()
        .enumerate()
        .map(|(idx, _)| Day8::is_visible_in_view(idx, &axis_1))
        .collect();
    assert_eq!(answer_1, result_1);
}

#[test]
fn test_scenic_score() {
    let axis = "33549";
    let axis2 = "35353";
    assert_eq!(Day8::scenic_score_of_idx_along_axis(2, axis.as_bytes()), 4);
    assert_eq!(Day8::scenic_score_of_idx_along_axis(3, axis2.as_bytes()), 2);
}

#[test]
fn test_scenic_score_2() {
    let result = Day8::parse2(SAMPLE_INPUT);
    assert_eq!(result, 8);
}

#[test]
fn test_is_visible_in_view_2() {
    let axis_2 = "abccba";
    let answer_2 = vec![true, true, true, true, true, true];
    let result_2: Vec<bool> = axis_2
        .as_bytes()
        .iter()
        .enumerate()
        .map(|(idx, _)| Day8::is_visible_in_view(idx, axis_2.as_bytes()))
        .collect();
    assert_eq!(answer_2, result_2);
}

#[test]
fn test_col_iter() {
    let test_str = "abc\ndef\nghi";
    let mut col_iter = ColumnIterator::from(test_str);
    let sub_u8s = col_iter.next().unwrap();
    assert_eq!(sub_u8s, b"adg".to_vec());
    assert!(col_iter.next().is_some());
    assert!(col_iter.next().is_some());
    assert!(col_iter.next().is_none());
}

#[test]
fn test_parse() {
    assert_eq!(Day8::parse(SAMPLE_INPUT), 21);
}

#[test]
fn day8_stars() {
    assert_eq!(Day8::get_star_1(SAMPLE_INPUT), Ok(21));
    assert_eq!(Day8::get_star_2(SAMPLE_INPUT), Ok(8));
}

#[test]
fn day8_view_helpers() {
    assert_eq!(Day8::find_view_distance(5, &[3, 4, 5, 2]), 3);
    assert_eq!(Day8::find_view_distance(5, &[1, 2]), 2);
    assert_eq!(Day8::find_eqincreasing_subsequence(5, &[2, 2, 1, 6, 6, 7]), vec![2, 2, 6, 7]);
}
