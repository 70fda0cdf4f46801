use advent_of_rust_22::day14::{find_bounded_sand_pos, parse_input, Blocked, Day14, Position};
use advent_of_rust_22::AOCSolutions;

const SAMPLE_INPUT: &str = r"498,4 -> 498,6 -> 496,6
503,4 -> 502,4 -> 502,9 -> 494,9";

#[test]
fn day14_test_get_star_1() {
    assert_eq!(Day14::get_star_1(SAMPLE_INPUT).unwrap(), 24);
}

#[test]
fn day14_test_get_star_2() {
    assert_eq!(Day14::get_star_2(SAMPLE_INPUT).unwrap(), 93);
}

#[test]
fn day14_positions_and_segments() {
    let p = Position::from("498,4");
    assert_eq!(p, Position { x: 498, depth: 4 });
    let seg = Position::generate_in_range_inclusive(&Position { x: 502, depth: 4 }, &Position { x: 500, depth: 4 });
    assert_eq!(seg, vec![Position { x: 500, depth: 4 }, Position { x: 501, depth: 4 }, Position { x: 502, depth: 4 }]);
    let one = Position::generate_in_range_inclusive(&p, &p);
    assert_eq!(one, vec![p]);
}

#[test]
fn day14_parse_and_fall() {
    let (rocks, bound) = parse_input(SAMPLE_INPUT);
    assert_eq!(bound, 10);
    let mut b = Blocked::new(bound);
    for r in &rocks {
        b.insert(*r);
    }
    assert!(b.contains(&Position { x: 496, depth: 6 }));
    let (rest, abyss) = find_bounded_sand_pos(&Position { x: 500, depth: 0 }, &b, bound);
    assert_eq!((rest, abyss), (Position { x: 500, depth: 8 }, false));
    let (fell, abyss) = find_bounded_sand_pos(&Position { x: 490, depth: 0 }, &b, bound);
    assert_eq!((fell, abyss), (Position { x: 490, depth: 10 }, true));
}

#[test]
fn day14_blocked_source() {
    assert_eq!(Day14::get_star_1("500,0 -> 500,2"), Err(()));
    assert_eq!(Day14::get_star_2("500,0 -> 500,2"), Ok(0));
}

#[test]
fn day14_segments_are_ordered_and_symmetric() {
    let a = Position { x: 3, depth: 9 };
    let b = Position { x: 3, depth: 5 };
    let ab = Position::generate_in_range_inclusive(&a, &b);
    assert_eq!(ab, Position::generate_in_range_inclusive(&b, &a));
    assert_eq!(ab.len(), 5);
    assert_eq!(ab[0], b);
    assert_eq!(ab[4], a);
}
