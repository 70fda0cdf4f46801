use advent_of_rust_22::day6::Day6;
use advent_of_rust_22::AOCSolutions;

const SAMPLE_1: &str = "wxzy";
const SAMPLE_2: &str = "bvwbjplbgvbhsrlpgdmjqwftvncz";
const SAMPLE_3: &str = "nznrnfrfntjfmvfwmzdfjlvtqnbhcprsg";
const SAMPLE_4: &str = "zcfzfwzzqfrljwzlrfnpqdbhtmscgvjw";

#[test]
fn test_invariance_between_thread_count() {
    assert_eq!(Day6::pooled_decode(SAMPLE_1.as_bytes(), 4, 4), Day6::pooled_decode(SAMPLE_1.as_bytes(), 4, 1));
    assert_eq!(Day6::pooled_decode(SAMPLE_2.as_bytes(), 4, 4), Day6::pooled_decode(SAMPLE_2.as_bytes(), 4, 1));
    assert_eq!(Day6::pooled_decode(SAMPLE_3.as_bytes(), 4, 4), Day6::pooled_decode(SAMPLE_3.as_bytes(), 4, 12));
    assert_eq!(Day6::pooled_decode(SAMPLE_4.as_bytes(), 4, 4), Day6::pooled_decode(SAMPLE_4.as_bytes(), 4, 7));
}

#[test]
fn test_results() {
    assert_eq!(Day6::pooled_decode(SAMPLE_1.as_bytes(), 4, 4).unwrap(), 4);
    assert_eq!(Day6::pooled_decode(SAMPLE_2.as_bytes(), 4, 8).unwrap(), 5);
    assert_eq!(Day6::pooled_decode(SAMPLE_3.as_bytes(), 4, 12).unwrap(), 10);
    assert_eq!(Day6::pooled_decode(SAMPLE_4.as_bytes(), 4, 1).unwrap(), 11);
}

#[test]
fn day6_test_get_star_2() {
    assert_eq!(Day6::get_star_2(SAMPLE_2).unwrap(), 23);
}

#[test]
fn day6_no_marker() {
    assert_eq!(Day6::pooled_decode("aabb".as_bytes(), 4, 2), None);
    assert_eq!(Day6::get_star_1("abcabcabc"), Err(()));
    assert!(Day6::is_packet_start_marker("abcd".as_bytes()));
    assert!(!Day6::is_packet_start_marker("abca".as_bytes()));
}
