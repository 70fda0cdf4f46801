use advent_of_rust_22::day10::{Day10, Instruction, Processor};
use advent_of_rust_22::AOCSolutions;

const SAMPLE_INPUT: &str = r"noop
addx 3
addx -5";

#[test]
fn test_processor() {
    let mut processor = Processor::new();
    let mut input_iter = SAMPLE_INPUT.lines();

    assert!(processor.finished_running_program());

    processor.issue_instruction(Instruction::from_line(input_iter.next().unwrap()));
    processor.run_cycle();
    assert_eq!(processor.reg_x, 1);
    assert_eq!(processor.cycle, 1);
    assert!(processor.staged_instructions.is_empty());

    processor.issue_instruction(Instruction::from_line(input_iter.next().unwrap()));
    processor.issue_instruction(Instruction::from_line(input_iter.next().unwrap()));

    processor.run_cycle();
    assert_eq!(processor.staged_instructions.len(), 2);
    assert_eq!(processor.reg_x, 1);
    assert_eq!(processor.cycle, 2);

    processor.run_cycle();
    assert_eq!(processor.staged_instructions.len(), 1);
    assert_eq!(processor.reg_x, 1);
    assert_eq!(processor.cycle, 3);

    processor.run_cycle();
    assert_eq!(processor.reg_x, 4);
    assert_eq!(processor.cycle, 4);

    processor.run_cycle();
    assert_eq!(processor.reg_x, 4);
    assert_eq!(processor.cycle, 5);

    processor.run_cycle();
    assert_eq!(processor.reg_x, -1);
    assert!(processor.finished_running_program());
}

#[test]
fn day10_signal_strength_and_getters() {
    let mut processor = Processor::new();
    processor.issue_instruction(Instruction::from_line("addx 7"));
    processor.run_cycle();
    processor.run_cycle();
    processor.run_cycle();
    assert_eq!(processor.get_cycle(), 3);
    assert_eq!(processor.get_reg(), 8);
    assert_eq!(processor.get_signal_strength(), (24, false));
    assert!(processor.finished_running_program());
}

#[test]
fn day10_parse_instructions() {
    assert!(matches!(Instruction::from_line("noop"), Instruction::NoOp));
    assert!(matches!(Instruction::from_line("  addx -12 "), Instruction::AddX(-12, 2)));
}

const LARGE_SAMPLE_INPUT: &str = r"addx 15
addx -11
addx 6
addx -3
addx 5
addx -1
addx -8
addx 13
addx 4
noop
addx -1
addx 5
addx -1
addx 5
addx -1
addx 5
addx -1
addx 5
addx -1
addx -35
addx 1
addx 24
addx -19
addx 1
addx 16
addx -11
noop
noop
addx 21
addx -15
noop
noop
addx -3
addx 9
addx 1
addx -3
addx 8
addx 1
addx 5
noop
noop
noop
noop
noop
addx -36
noop
addx 1
addx 7
noop
noop
noop
addx 2
addx 6
noop
noop
noop
noop
noop
addx 1
noop
noop
addx 7
addx 1
noop
addx -13
addx 13
addx 7
noop
addx 1
addx -33
noop
noop
noop
addx 2
noop
noop
noop
addx 8
noop
addx -1
addx 2
addx 1
noop
addx 17
addx -9
addx 1
addx 1
addx -3
addx 11
noop
noop
addx 1
noop
addx 1
noop
noop
addx -13
addx -19
addx 1
addx 3
addx 26
addx -30
addx 12
addx -1
addx 3
addx 1
noop
noop
noop
addx -9
addx 18
addx 1
addx 2
noop
noop
addx 9
noop
noop
noop
addx -1
addx 2
addx -37
addx 1
addx 3
noop
addx 15
addx -21
addx 22
addx -6
addx 1
noop
addx 2
addx 1
noop
addx -10
noop
noop
addx 20
addx 1
addx 2
addx 2
addx -6
addx -11
noop
noop
noop";

#[test]
fn day10_test_get_star_1() {
    assert_eq!(Day10::get_star_1(LARGE_SAMPLE_INPUT).unwrap(), 13140);
}

#[test]
fn day10_test_get_star_2() {
    let _ = Day10::get_star_2(LARGE_SAMPLE_INPUT);
}

#[test]
fn day10_picture() {
    let picture = Day10::crt_lines(LARGE_SAMPLE_INPUT);
    assert_eq!(picture.len(), 7);
    assert_eq!(picture[0], b"##..##..##..##..##..##..##..##..##..##..".to_vec());
    assert_eq!(picture[5], b"#######.......#######.......#######.....".to_vec());
    assert!(picture[6].is_empty());
}
