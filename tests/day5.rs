use advent_of_rust_22::day5::Day5;
use advent_of_rust_22::AOCSolutions;

const SAMPLE_INPUT: &str = r"    [D]    
[N] [C]    
[Z] [M] [P]
 1   2   3 

move 1 from 2 to 1
move 3 from 1 to 3
move 2 from 2 to 1
move 1 from 1 to 2";

#[test]
fn test_get_result_9000() {
    let br = SAMPLE_INPUT.as_bytes();

    let row_count = Day5::get_row_count(br).unwrap();
    assert_eq!(row_count, 3);

    let (mut cargo_load, start) = Day5::construct_init_cargo_load(br, row_count).unwrap();
    assert_eq!(cargo_load[0], "ZN".as_bytes());
    assert_eq!(cargo_load[1], "MCD".as_bytes());
    assert_eq!(cargo_load[2], "P".as_bytes());

    let result = Day5::follow_instructions(br, start, &mut cargo_load, 9000).unwrap();
    assert_eq!(result.as_slice(), "CMZ".as_bytes());
    assert_eq!(cargo_load[0], "".as_bytes());
    assert_eq!(cargo_load[1], "".as_bytes());
    assert_eq!(cargo_load[2], "PDN".as_bytes());
}

#[test]
fn test_get_result_9001() {
    let br = SAMPLE_INPUT.as_bytes();

    let row_count = Day5::get_row_count(br).unwrap();
    assert_eq!(row_count, 3);

    let (mut cargo_load, start) = Day5::construct_init_cargo_load(br, row_count).unwrap();
    assert_eq!(cargo_load[0], "ZN".as_bytes());
    assert_eq!(cargo_load[1], "MCD".as_bytes());
    assert_eq!(cargo_load[2], "P".as_bytes());

    let result = Day5::follow_instructions(br, start, &mut cargo_load, 9001).unwrap();
    assert_eq!(result.as_slice(), "MCD".as_bytes());
    assert_eq!(cargo_load[0], "".as_bytes());
    assert_eq!(cargo_load[1], "".as_bytes());
    assert_eq!(cargo_load[2], "PZN".as_bytes());
}

#[test]
fn day5_test_get_star_1() {
    assert_eq!(Day5::get_star_1(SAMPLE_INPUT).unwrap(), 1);
}

#[test]
fn day5_test_get_star_2() {
    assert_eq!(Day5::get_star_2(SAMPLE_INPUT).unwrap(), 1);
}

#[test]
fn day5_failures() {
    assert_eq!(Day5::get_row_count("".as_bytes()), None);
    assert_eq!(Day5::get_star_1(""), Err(()));
    let too_many = "[A]\n 1 \n\nmove 2 from 1 to 1\nmove 2 from 1 to 2";
    assert_eq!(Day5::top_crates(too_many, 9000), None);
    assert_eq!(Day5::top_crates(SAMPLE_INPUT, 9000), Some(b"CMZ".to_vec()));
}
