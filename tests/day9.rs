use advent_of_rust_22::day9::{AdvancedRopeConfig, BasicRopeConfig, Day9, Move, MoveVariant, RopeConfig};
use advent_of_rust_22::AOCSolutions;

const SAMPLE_INPUT: &str = r"R 4
U 4
L 3
D 1
R 4
D 1
L 5
R 2";

const SAMPLE_INPUT_2: &str = r"R 5
U 8
L 8
D 3
R 17
D 10
L 25
U 20";

#[test]
fn day9_test_get_star_1() {
    assert_eq!(Day9::get_star_1(SAMPLE_INPUT).unwrap(), 13);
}

#[test]
fn day9_test_get_star_2() {
    assert_eq!(Day9::get_star_2(SAMPLE_INPUT).unwrap(), 1);
    assert_eq!(Day9::get_star_2(SAMPLE_INPUT_2).unwrap(), 36);
}

#[test]
fn day9_moves() {
    let m = Move::from_line("U 12");
    assert!(m.variant == MoveVariant::YAdd);
    assert_eq!(m.move_amnt, 12);
    assert!(Move::from_line("L 0").is_noop());
    assert!(Move::from_line("D 3").variant == MoveVariant::YSub);
}

#[test]
fn day9_tail_follows_head() {
    let mut rope = BasicRopeConfig::new((0, 0), (0, 0));
    let mut m = Move::from_line("R 3");
    while !m.is_noop() {
        m.perform_once(&mut rope);
    }
    assert_eq!(rope.head_pos, (3, 0));
    assert_eq!(rope.tail_pos, (2, 0));
    assert!(rope.is_valid_configuration());
}

#[test]
fn day9_long_rope_moves_diagonally() {
    let mut rope = AdvancedRopeConfig::new(3, (0, 0));
    for line in ["R 1", "U 1", "U 1"] {
        let mut m = Move::from_line(line);
        m.perform_once(&mut rope);
    }
    assert_eq!(rope.ctrl_nodes, vec![(1, 2), (1, 1), (0, 0)]);
    assert!(AdvancedRopeConfig::is_valid_segment(&(0, 0), &(1, 1)));
    assert!(!AdvancedRopeConfig::is_valid_segment(&(0, 0), &(2, 1)));
}
