use advent::monkey::{
    parse_input, parse_items, parse_monkey, parse_op, parse_test, Monkey, MonkeyError,
    MonkeyGroup, Op, Term, WorryTest,
};
use std::collections::VecDeque;

const SAMPLE: &str = "Monkey 0:
  Starting items: 79, 98
  Operation: new = old * 19
  Test: divisible by 23
    If true: throw to monkey 2
    If false: throw to monkey 3

Monkey 1:
  Starting items: 54, 65, 75, 74
  Operation: new = old + 6
  Test: divisible by 19
    If true: throw to monkey 2
    If false: throw to monkey 0

Monkey 2:
  Starting items: 79, 60, 97
  Operation: new = old * old
  Test: divisible by 13
    If true: throw to monkey 1
    If false: throw to monkey 3

Monkey 3:
  Starting items: 74
  Operation: new = old + 3
  Test: divisible by 17
    If true: throw to monkey 0
    If false: throw to monkey 1
";

fn items(group: &MonkeyGroup) -> Vec<Vec<i64>> {
    group.monkeys.iter().map(|m| m.items.iter().copied().collect()).collect()
}

#[test]
fn terms_and_operations() {
    assert_eq!(Term::Old.eval(7), 7);
    assert_eq!(Term::Const(3).eval(7), 3);
    assert_eq!(Op::Add(Term::Old, Term::Const(6)).eval(54), Some(60));
    assert_eq!(Op::Mult(Term::Old, Term::Old).eval(-9), Some(81));
    assert_eq!(Op::Mult(Term::Old, Term::Const(19)).eval(79), Some(1501));
    assert_eq!(Op::Mult(Term::Old, Term::Old).eval(i64::MAX), None);
    assert_eq!(Op::Add(Term::Old, Term::Const(1)).eval(i64::MAX), None);
}

#[test]
fn parse_reads_the_sample() {
    let monkeys = parse_input(SAMPLE).unwrap();
    assert_eq!(monkeys.len(), 4);
    assert_eq!(monkeys[0].items, VecDeque::from(vec![79, 98]));
    assert_eq!(monkeys[0].op, Op::Mult(Term::Old, Term::Const(19)));
    assert_eq!(monkeys[0].test, WorryTest { divisor: 23, when_true: 2, when_false: 3 });
    assert_eq!(monkeys[1].op, Op::Add(Term::Old, Term::Const(6)));
    assert_eq!(monkeys[2].op, Op::Mult(Term::Old, Term::Old));
    assert_eq!(monkeys[3].items, VecDeque::from(vec![74]));
    assert_eq!(monkeys[3].test, WorryTest { divisor: 17, when_true: 0, when_false: 1 });
    assert!(monkeys.iter().all(|m| m.inspections == 0));
}

#[test]
fn parse_pieces() {
    assert_eq!(parse_items(b"  Starting items: 1, -2, 3\nx", 0), Some((vec![1, -2, 3], 27)));
    assert_eq!(parse_items(b"  Starting items: 5,6", 0), Some((vec![5], 19)));
    assert_eq!(parse_items(b"Starting items: 5", 0), None);
    assert_eq!(parse_items(b"  Starting items: ", 0), None);
    assert_eq!(parse_op(b" Operation: new = 4 + old", 0), Some((Op::Add(Term::Const(4), Term::Old), 25)));
    assert_eq!(parse_op(b" Operation: new = old - 1", 0), None);
    assert_eq!(
        parse_test(b" Test: divisible by 2\n If true: throw to monkey 1\n If false: throw to monkey 0\n", 0),
        Some((WorryTest { divisor: 2, when_true: 1, when_false: 0 }, 79))
    );
    assert!(parse_monkey(b"Monkey 0:\n", 0).is_none());
    assert!(parse_monkey(b"Monkey x:\n", 0).is_none());
    assert!(parse_input("").is_none());
    assert!(parse_input("Ape 0:\n").is_none());
    assert!(MonkeyGroup::parse("junk").is_none());
}

#[test]
fn first_round_of_the_sample() {
    let mut group = MonkeyGroup::parse(SAMPLE).unwrap();
    assert_eq!(group.rounds, 0);
    assert_eq!(group.step_round(), Ok(()));
    assert_eq!(group.rounds, 1);
    assert_eq!(
        items(&group),
        vec![vec![20, 23, 27, 26], vec![2080, 25, 167, 207, 401, 1046], vec![], vec![]]
    );
}

#[test]
fn twenty_rounds_of_the_sample() {
    let mut group = MonkeyGroup::parse(SAMPLE).unwrap();
    for _ in 0..20 {
        assert_eq!(group.step_round(), Ok(()));
    }
    let counts: Vec<usize> = group.monkeys.iter().map(|m| m.inspections).collect();
    assert_eq!(counts, vec![101, 95, 7, 105]);
    assert_eq!(group.monkey_business(), Some(10605));
    assert_eq!(
        items(&group),
        vec![vec![10, 12, 14, 26, 34], vec![245, 93, 53, 199, 115], vec![], vec![]]
    );
}

fn lone(items: Vec<i64>, op: Op, test: WorryTest) -> Monkey {
    Monkey { items: VecDeque::from(items), op, test, inspections: 0 }
}

#[test]
fn next_takes_one_item() {
    let mut m = lone(
        vec![79, 98],
        Op::Mult(Term::Old, Term::Const(19)),
        WorryTest { divisor: 23, when_true: 2, when_false: 3 },
    );
    assert_eq!(m.next(), Ok(Some((3, 500))));
    assert_eq!(m.next(), Ok(Some((3, 620))));
    assert_eq!(m.next(), Ok(None));
    assert_eq!(m.inspections, 2);
    assert_eq!(m.inspect(-7), Ok((3, -44)));
    assert_eq!(m.inspect(0), Ok((2, 0)));
}

#[test]
fn a_third_is_rounded_towards_zero() {
    let m = lone(vec![], Op::Add(Term::Old, Term::Const(0)), WorryTest { divisor: -2, when_true: 1, when_false: 0 });
    assert_eq!(m.inspect(-7), Ok((1, -2)));
    assert_eq!(m.inspect(-10), Ok((0, -3)));
    assert_eq!(m.inspect(8), Ok((1, 2)));
}

#[test]
fn errors_of_a_round() {
    let zero = WorryTest { divisor: 0, when_true: 0, when_false: 0 };
    let mut m = lone(vec![1], Op::Add(Term::Old, Term::Old), zero);
    assert_eq!(m.next(), Err(MonkeyError::DivisionByZero));
    assert_eq!(m.items.len(), 1);
    let away = WorryTest { divisor: 1, when_true: 5, when_false: 5 };
    let mut group = MonkeyGroup::new(vec![lone(vec![1], Op::Add(Term::Old, Term::Old), away)]);
    assert_eq!(group.step_round(), Err(MonkeyError::NoSuchMonkey));
    let minus = WorryTest { divisor: 1, when_true: -1, when_false: -1 };
    let mut m = lone(vec![1], Op::Add(Term::Old, Term::Old), minus);
    assert_eq!(m.process_items(), Err(MonkeyError::NoSuchMonkey));
    let mut m = lone(vec![i64::MAX], Op::Add(Term::Old, Term::Old), away);
    assert_eq!(m.next(), Err(MonkeyError::Overflow));
}

#[test]
fn a_monkey_that_throws_to_itself_keeps_the_item_for_the_next_round() {
    let own = WorryTest { divisor: 1, when_true: 0, when_false: 0 };
    let mut group = MonkeyGroup::new(vec![lone(vec![9, 30], Op::Add(Term::Old, Term::Const(0)), own)]);
    assert_eq!(group.turn(0), Ok(()));
    assert_eq!(items(&group), vec![vec![3, 10]]);
    assert_eq!(group.monkeys[0].inspections, 2);
    assert_eq!(group.monkey_business(), None);
}
