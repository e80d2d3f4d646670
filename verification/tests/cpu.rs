use advent::cpu::{parse_input, parse_instruction, CpuState, Instruction, Screen};

fn small() -> Vec<Instruction> {
    vec![Instruction::Noop, Instruction::Add(3), Instruction::Add(-5)]
}

#[test]
fn cycles_of_each_instruction() {
    assert_eq!(Instruction::Noop.cycles(), 1);
    assert_eq!(Instruction::Add(7).cycles(), 2);
}

#[test]
fn parse_input_reads_a_program() {
    assert_eq!(parse_input("noop\naddx 3\naddx -5\n"), Some((small(), 20)));
    assert_eq!(parse_input("noop\naddx 3\naddx -5"), Some((small(), 19)));
    assert_eq!(parse_input("addx +12"), Some((vec![Instruction::Add(12)], 8)));
}

#[test]
fn parse_input_stops_at_what_is_no_instruction() {
    assert_eq!(parse_input("noop\nnop\n"), Some((vec![Instruction::Noop], 5)));
    assert_eq!(parse_input("noop\n\nnoop\n"), Some((vec![Instruction::Noop], 5)));
    assert_eq!(parse_input("noopnoop"), Some((vec![Instruction::Noop, Instruction::Noop], 8)));
    assert_eq!(parse_input(""), None);
    assert_eq!(parse_input("addx\n"), None);
    assert_eq!(parse_input("addx 99999999999999999999"), None);
    assert_eq!(parse_input(" noop"), None);
}

#[test]
fn parse_instruction_at_a_position() {
    assert_eq!(parse_instruction(b"xxaddx -7;", 2), Some((Instruction::Add(-7), 9)));
    assert_eq!(parse_instruction(b"noop", 0), Some((Instruction::Noop, 4)));
    assert_eq!(parse_instruction(b"noop", 1), None);
    assert_eq!(parse_instruction(b"noop", 4), None);
}

#[test]
fn cycle_states_list_every_cycle() {
    let states = CpuState::cycle_states(&small()).unwrap();
    let pairs: Vec<(usize, i64)> = states.iter().map(|s| (s.cycles, s.register_value)).collect();
    assert_eq!(pairs, vec![(0, 1), (1, 1), (2, 1), (3, 4), (4, 4), (5, -1)]);
    let none = CpuState::cycle_states(&vec![]).unwrap();
    assert_eq!(none, vec![CpuState { cycles: 0, register_value: 1 }]);
}

#[test]
fn run_to_gives_the_register_during_a_cycle() {
    let program = small();
    let expected: [(usize, i64); 7] = [(0, 1), (1, 1), (3, 1), (4, 4), (5, 4), (6, -1), (100, -1)];
    for (limit, register) in expected {
        let state = CpuState::run_to(&program, limit).unwrap();
        assert_eq!(state.cycles, limit);
        assert_eq!(state.register_value, register);
    }
}

#[test]
fn signal_strength_is_cycle_times_register() {
    assert_eq!(CpuState::run_to(&small(), 4).unwrap().signal_strength(), Some(16));
    assert_eq!(CpuState { cycles: 20, register_value: 21 }.signal_strength(), Some(420));
    assert_eq!(CpuState { cycles: 220, register_value: -3 }.signal_strength(), Some(-660));
    assert_eq!(CpuState { cycles: 3, register_value: i64::MAX }.signal_strength(), None);
    assert_eq!(CpuState { cycles: 0, register_value: i64::MIN }.signal_strength(), Some(0));
}

#[test]
fn overflow_is_reported() {
    let program = vec![Instruction::Add(i64::MAX), Instruction::Add(1)];
    assert!(CpuState::cycle_states(&program).is_none());
    assert!(CpuState::run_to(&program, 10).is_none());
    assert_eq!(CpuState::run_to(&program, 2).unwrap().register_value, 1);
    assert!(CpuState::run_to(&program, 3).is_none());
    assert!(Screen::new(&program).is_none());
}

#[test]
fn update_carries_out_one_instruction() {
    let mut state = CpuState::default();
    assert_eq!(state, CpuState { cycles: 0, register_value: 1 });
    state.update(Instruction::Noop);
    assert_eq!(state, CpuState { cycles: 1, register_value: 1 });
    state.update(Instruction::Add(-4));
    assert_eq!(state, CpuState { cycles: 3, register_value: -3 });
}

#[test]
fn screen_lights_the_pixels_near_the_register() {
    let idle: Vec<Instruction> = (0..240).map(|_| Instruction::Noop).collect();
    let rows = Screen::new(&idle).unwrap().render().unwrap();
    assert_eq!(rows.len(), 6);
    for row in &rows {
        assert_eq!(row.len(), 40);
        assert_eq!(&row[..3], b"###");
        assert!(row[3..].iter().all(|&b| b == b'.'));
    }
    let mut moving = vec![Instruction::Add(15)];
    moving.extend((0..240).map(|_| Instruction::Noop));
    let rows = Screen::new(&moving).unwrap().render().unwrap();
    assert_eq!(&rows[0][..4], b"##..");
    assert_eq!(&rows[0][14..19], b".###.");
    assert_eq!(&rows[1][14..19], b".###.");
}

#[test]
fn screen_needs_a_state_for_every_pixel() {
    let short: Vec<Instruction> = (0..238).map(|_| Instruction::Noop).collect();
    assert!(Screen::new(&short).unwrap().render().is_none());
    let enough: Vec<Instruction> = (0..239).map(|_| Instruction::Noop).collect();
    assert!(Screen::new(&enough).unwrap().render().is_some());
}
