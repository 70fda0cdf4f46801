use advent_of_rust_22::day11::{parse_monkeys, play_round, Day11, Monkey, Operation, Relief, Test};
use advent_of_rust_22::AOCSolutions;

const SAMPLE_INPUT: &str = r"Monkey 0:
  Starting items: 79, 98
  Operation: new = old * 19
  Test: divisible by 23
    If true: throw to monkey 2
    If false: throw to monkey 3

Monkey 1:
  Starting items: 54, 65, 75, 74
  Operation: new = old + 6
  Test: divisible by 19
    If true: throw to monkey 2
    If false: throw to monkey 0

Monkey 2:
  Starting items: 79, 60, 97
  Operation: new = old * old
  Test: divisible by 13
    If true: throw to monkey 1
    If false: throw to monkey 3

Monkey 3:
  Starting items: 74
  Operation: new = old + 3
  Test: divisible by 17
    If true: throw to monkey 0
    If false: throw to monkey 1";

fn init_test_env() -> Vec<Monkey> {
    vec![
        Monkey {
            items: vec![79, 98],
            op: Operation::Mul(19),
            test: Test { divisor: 23, if_true: 2, if_false: 3 },
            inspection_count: 0,
        },
        Monkey {
            items: vec![54, 65, 75, 74],
            op: Operation::Add(6),
            test: Test { divisor: 19, if_true: 2, if_false: 0 },
            inspection_count: 0,
        },
        Monkey {
            items: vec![79, 60, 97],
            op: Operation::Square,
            test: Test { divisor: 13, if_true: 1, if_false: 3 },
            inspection_count: 0,
        },
        Monkey {
            items: vec![74],
            op: Operation::Add(3),
            test: Test { divisor: 17, if_true: 0, if_false: 1 },
            inspection_count: 0,
        },
    ]
}

#[test]
fn test_play_round() {
    let mut monkeys = init_test_env();
    monkeys = play_round(monkeys, Relief::Divide(3));
    assert!(([20, 23, 27, 26] as [u64; 4]).iter().all(|x| monkeys[0].items.contains(x)));
    assert_eq!(monkeys[0].items.len(), 4);
    assert!(([2080, 25, 167, 207, 401, 1046] as [u64; 6]).iter().all(|x| monkeys[1].items.contains(x)));
    assert_eq!(monkeys[1].items.len(), 6);
    assert!(monkeys[2].items.is_empty());
    assert!(monkeys[3].items.is_empty());

    for _ in 2..=20 {
        monkeys = play_round(monkeys, Relief::Divide(3));
    }

    assert!(([10, 12, 14, 26, 34] as [u64; 5]).iter().all(|x| monkeys[0].items.contains(x)));
    assert_eq!(monkeys[0].items.len(), 5);
    assert!(([245, 93, 53, 199, 115] as [u64; 5]).iter().all(|x| monkeys[1].items.contains(x)));
    assert_eq!(monkeys[1].items.len(), 5);
    assert!(monkeys[2].items.is_empty());
    assert!(monkeys[3].items.is_empty());

    assert_eq!(monkeys.iter().map(|m| m.inspection_count).collect::<Vec<usize>>(), vec![101, 95, 7, 105]);
}

#[test]
fn day11_test_get_star_1() {
    assert_eq!(Day11::get_star_1(SAMPLE_INPUT).unwrap(), 10605);
}

#[test]
fn day11_test_get_star_2() {
    assert_eq!(Day11::get_star_2(SAMPLE_INPUT).unwrap(), 2713310158);
}

#[test]
fn day11_parse() {
    let (monkeys, prod) = parse_monkeys(SAMPLE_INPUT);
    assert_eq!(prod, 23 * 19 * 13 * 17);
    assert_eq!(monkeys.len(), 4);
    assert_eq!(monkeys[1].items, vec![54, 65, 75, 74]);
    assert!(monkeys[2].op == Operation::Square);
    assert!(monkeys[3].test == Test { divisor: 17, if_true: 0, if_false: 1 });
}

#[test]
fn day11_monkey_methods() {
    let mut m = Monkey { items: vec![4, 5], op: Operation::Mul(3), test: Test { divisor: 5, if_true: 1, if_false: 2 }, inspection_count: 0 };
    assert_eq!(m.inspect_item(), Some(15));
    assert_eq!(m.inspection_count, 1);
    assert_eq!(m.find_item_target(15), 1);
    assert_eq!(m.find_item_target(16), 2);
    m.receive_item(7);
    assert_eq!(m.items, vec![4, 7]);
    m.minimize_inspection_op();
    assert_eq!(m.inspect_item(), Some(7));
    assert_eq!(m.inspect_item(), Some(4));
    assert_eq!(m.inspect_item(), None);
    assert_eq!(m.inspection_count, 3);
}
