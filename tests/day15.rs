use advent_of_rust_22::day15::{Day15, LinearEquation, Position, Sensor};
use advent_of_rust_22::AOCSolutions;

const SAMPLE_INPUT: &str = r"Sensor at x=2, y=18: closest beacon is at x=-2, y=15
Sensor at x=9, y=16: closest beacon is at x=10, y=16
Sensor at x=13, y=2: closest beacon is at x=15, y=3
Sensor at x=12, y=14: closest beacon is at x=10, y=16
Sensor at x=10, y=20: closest beacon is at x=10, y=16
Sensor at x=14, y=17: closest beacon is at x=10, y=16
Sensor at x=8, y=7: closest beacon is at x=2, y=10
Sensor at x=2, y=0: closest beacon is at x=2, y=10
Sensor at x=0, y=11: closest beacon is at x=2, y=10
Sensor at x=20, y=14: closest beacon is at x=25, y=17
Sensor at x=17, y=20: closest beacon is at x=21, y=22
Sensor at x=16, y=7: closest beacon is at x=15, y=3
Sensor at x=14, y=3: closest beacon is at x=15, y=3
Sensor at x=20, y=1: closest beacon is at x=15, y=3";

#[test]
fn day15_test_get_star_1() {
    assert_eq!(Day15::excluded_on_row(SAMPLE_INPUT, 10).unwrap(), 26);
}

#[test]
fn day15_test_get_star_2() {
    assert_eq!(Day15::distress_frequency(SAMPLE_INPUT, 21).unwrap(), 5600_0011);
}

#[test]
fn day15_positions() {
    let mut p = Position { x: 3, y: -4 };
    p.increment_x();
    p.increment_x();
    p.decrement_y();
    assert!(p == Position { x: 5, y: -5 });
    p.decrement_x();
    p.increment_y();
    assert!(p == Position { x: 4, y: -4 });
    assert_eq!(p.manhattan_dist(&Position { x: -1, y: 2 }), 11);
}

#[test]
fn day15_lines() {
    let a = LinearEquation::from(&Position { x: 0, y: 4 }, &Position { x: 4, y: 0 });
    assert_eq!(a.slope, -1);
    assert_eq!(a.solve_at(3), 1);
    let b = LinearEquation::from(&Position { x: 0, y: 0 }, &Position { x: 2, y: 2 });
    assert!(b.intersection(&a) == Some(Position { x: 2, y: 2 }));
    assert!(a.intersection(&a).is_none());
}

#[test]
fn day15_sensor_line() {
    let s = Sensor::from_line("Sensor at x=8, y=7: closest beacon is at x=2, y=10");
    assert!(s.sensor_pos == Position { x: 8, y: 7 });
    assert!(s.beacon_pos == Position { x: 2, y: 10 });
    assert_eq!(s.beacon_dist, 9);
    let row = s.find_impossible_beacon_coords_along_axis(None, Some(10));
    assert_eq!(row.len(), 12);
    assert!(!row.contains(&Position { x: 2, y: 10 }));
    assert_eq!(s.find_impossible_beacon_coords_along_axis(Some(8), Some(16)).len(), 1);
    assert_eq!(s.find_peripheries().len(), 4);
}

#[test]
fn day15_stars_on_the_sample() {
    assert!(Day15::check_report(SAMPLE_INPUT));
    // no sensor of the sample reaches row 2000000
    assert_eq!(Day15::get_star_1(SAMPLE_INPUT), Ok(0));
    let v = Day15::get_star_2(SAMPLE_INPUT).unwrap();
    let (x, y) = (v / 4_000_000, v % 4_000_000);
    assert!((0..4_000_000).contains(&x) && (0..4_000_000).contains(&y));
    for line in SAMPLE_INPUT.lines() {
        let s = Sensor::from_line(line);
        assert!(s.sensor_pos.manhattan_dist(&Position { x, y }) > s.beacon_dist);
    }
}

#[test]
fn day15_report_check_and_wide_coordinates() {
    assert!(!Day15::check_report("Sensor at x=2, y=18: closest beacon is at x=-2"));
    assert!(!Day15::check_report("Sensor at x=2, y=18: closest beacon is at x=-2, y=150000000000000"));
    let s = Sensor::from_line("Sensor at x=4000000000000000000, y=-4000000000000000000: closest beacon is at x=-4000000000000000000, y=4000000000000000000");
    assert_eq!(s.beacon_dist, 16_000_000_000_000_000_000);
    assert_eq!(Day15::excluded_on_row(SAMPLE_INPUT, i64::MAX), Ok(0));
}

#[test]
fn day15_row_order() {
    let s = Sensor::from_line("Sensor at x=8, y=7: closest beacon is at x=2, y=10");
    let row = s.find_impossible_beacon_coords_along_axis(None, Some(10));
    assert_eq!(row[0], Position { x: 8, y: 10 });
    assert_eq!(row[1], Position { x: 9, y: 10 });
    assert_eq!(row[2], Position { x: 7, y: 10 });
    let col = s.find_impossible_beacon_coords_along_axis(Some(8), None);
    assert_eq!(col[0], Position { x: 8, y: 7 });
    assert_eq!(col.len(), 19);
}
