use advent_of_rust_22::day13::{compare_expr, cursor_at_end, decrement_depth, increment_cursor, increment_depth, is_digit, modify_cursor_to, Day13};
use advent_of_rust_22::AOCSolutions;
use std::cmp::Ordering;

const EXAMPLE_1: &str = r"[[[[[[]]]]]]
[]";

#[test]
fn test_example_1() {
    let mut cursors = EXAMPLE_1.lines().map(|s| (s.as_bytes(), 0 as usize, 0 as usize));
    let mut l_cursor = cursors.next().unwrap();
    let mut r_cursor = cursors.next().unwrap();
    assert_eq!(compare_expr(&mut l_cursor, &mut r_cursor), Ordering::Greater);
}

const EXAMPLE_2: &str = r"[[[[[[3,7]]]]]]
[12]";

#[test]
fn test_example_2() {
    let mut cursors = EXAMPLE_2.lines().map(|s| (s.as_bytes(), 0 as usize, 0 as usize));
    let mut l_cursor = cursors.next().unwrap();
    let mut r_cursor = cursors.next().unwrap();
    assert_eq!(compare_expr(&mut l_cursor, &mut r_cursor), Ordering::Less);
}

const EXAMPLE_3: &str = r"[225870]
[225870,101293]";

#[test]
fn test_example_3() {
    let mut cursors = EXAMPLE_3.lines().map(|s| (s.as_bytes(), 0 as usize, 0 as usize));
    let mut l_cursor = cursors.next().unwrap();
    let mut r_cursor = cursors.next().unwrap();
    assert_eq!(compare_expr(&mut l_cursor, &mut r_cursor), Ordering::Less);
}

const EXAMPLE_4: &str = r"[[1],[2,3,4]]
[[1],4]";

#[test]
fn test_example_4() {
    let mut cursors = EXAMPLE_4.lines().map(|s| (s.as_bytes(), 0 as usize, 0 as usize));
    let mut l_cursor = cursors.next().unwrap();
    let mut r_cursor = cursors.next().unwrap();
    assert_eq!(compare_expr(&mut l_cursor, &mut r_cursor), Ordering::Less);
}

const EXAMPLE_5: &str = r"[[1],4]
[1,1,2]";

#[test]
fn test_example_freeform() {
    let mut cursors = EXAMPLE_5.lines().map(|s| (s.as_bytes(), 0 as usize, 0 as usize));
    let mut l_cursor = cursors.next().unwrap();
    let mut r_cursor = cursors.next().unwrap();
    assert_ne!(compare_expr(&mut l_cursor, &mut r_cursor), Ordering::Greater);
}

const SAMPLE_INPUT: &str = r"[1,1,3,1,1]
[1,1,5,1,1]

[[1],[2,3,4]]
[[1],4]

[9]
[[8,7,6]]

[[4,4],4,4]
[[4,4],4,4,4]

[7,7,7,7]
[7,7,7]

[]
[3]

[[[]]]
[[]]

[1,[2,[3,[4,[5,6,7]]]],8,9]
[1,[2,[3,[4,[5,6,0]]]],8,9]";

#[test]
fn day13_test_get_star_1() {
    assert_eq!(Day13::get_star_1(SAMPLE_INPUT).unwrap(), 13);
}

#[test]
fn day13_test_get_star_2() {
    assert_eq!(Day13::get_star_2(SAMPLE_INPUT).unwrap(), 140);
}

#[test]
fn day13_equal_and_larger_packets() {
    let mut a = ("[1,2]".as_bytes(), 0usize, 0usize);
    let mut b = ("[1,2]".as_bytes(), 0usize, 0usize);
    assert_eq!(compare_expr(&mut a, &mut b), Ordering::Equal);
    assert_eq!(a.1, 0);
    let mut c = ("[10]".as_bytes(), 0usize, 0usize);
    let mut d = ("[9,9]".as_bytes(), 0usize, 0usize);
    assert_eq!(compare_expr(&mut c, &mut d), Ordering::Greater);
}

#[test]
fn day13_cursor_helpers() {
    assert!(is_digit(b'7'));
    assert!(!is_digit(b'['));
    let mut bc = ("[1]".as_bytes(), 0usize, 0usize);
    increment_cursor(&mut bc);
    increment_depth(&mut bc);
    assert_eq!((bc.1, bc.2), (1, 1));
    modify_cursor_to(&mut bc, 9);
    assert_eq!(bc.1, 2);
    assert!(cursor_at_end(&bc));
    increment_cursor(&mut bc);
    assert_eq!(bc.1, 2);
    decrement_depth(&mut bc);
    decrement_depth(&mut bc);
    assert_eq!(bc.2, 0);
}
