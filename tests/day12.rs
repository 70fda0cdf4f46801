use advent_of_rust_22::day12::{get_next_possible_moves, graph_search, is_valid_move, Day12};
use advent_of_rust_22::AOCSolutions;

const SIMPLE_INPUT: &str = r"SbcdefghijklmnopqrstuvwxyE";

const SAMPLE_INPUT: &str = r"Sabqponm
abcryxxl
accszExk
acctuvwj
abdefghi";

#[test]
fn day12_test_get_star_1() {
    assert_eq!(Day12::get_star_1(SIMPLE_INPUT).unwrap(), 25);
    assert_eq!(Day12::get_star_1(SAMPLE_INPUT).unwrap(), 31);
}

#[test]
fn day12_test_get_star_2() {
    assert_eq!(Day12::get_star_2(SAMPLE_INPUT).unwrap(), 29);
}

#[test]
fn day12_moves_and_search() {
    assert!(is_valid_move(&b'S', &b'b'));
    assert!(!is_valid_move(&b'a', &b'c'));
    assert!(is_valid_move(&b'y', &b'E'));
    assert!(is_valid_move(&b'z', &b'a'));
    let graph: Vec<Vec<u8>> = vec![b"ab".to_vec(), b"dc".to_vec()];
    let mut moves = get_next_possible_moves(&(0, 1), &graph);
    moves.sort();
    assert_eq!(moves, vec![(0, 0), (1, 1)]);
    assert_eq!(graph_search(&graph, (0, 0), (1, 0)), Some(3));
    assert_eq!(graph_search(&graph, (0, 0), (0, 0)), Some(0));
    let wall: Vec<Vec<u8>> = vec![b"az".to_vec()];
    assert_eq!(graph_search(&wall, (0, 0), (0, 1)), None);
}

#[test]
fn day12_unreachable_goal() {
    assert_eq!(Day12::get_star_1("SzE"), Err(()));
    assert_eq!(Day12::get_star_2("SzE"), Ok(i64::MAX));
}
