use advent::headtail::{parse_instructions, signum, Coord, Direction, HTState, Instruction};

const SAMPLE: &str = "R 4\nU 4\nL 3\nD 1\nR 4\nD 1\nL 5\nR 2\n";

#[test]
fn parse_instructions_reads_direction_and_digit() {
    assert_eq!(
        parse_instructions("R 4\nU 0\nL 9\nD 1").unwrap(),
        vec![
            Instruction(Direction::Right, 4),
            Instruction(Direction::Up, 0),
            Instruction(Direction::Left, 9),
            Instruction(Direction::Down, 1)
        ]
    );
    assert_eq!(parse_instructions("R 12\n").unwrap(), vec![Instruction(Direction::Right, 1)]);
    assert_eq!(parse_instructions("").unwrap(), vec![]);
}

#[test]
fn parse_instructions_refuses_other_lines() {
    assert!(parse_instructions("X 4\n").is_none());
    assert!(parse_instructions("R x\n").is_none());
    assert!(parse_instructions("R\n").is_none());
    assert!(parse_instructions("R 4\n\nU 1\n").is_none());
}

#[test]
fn directions_as_bytes_and_steps() {
    for d in [Direction::Up, Direction::Down, Direction::Left, Direction::Right] {
        assert_eq!(Direction::from_byte(d.to_byte()), Some(d));
    }
    assert_eq!(Direction::from_byte(b'x'), None);
    assert_eq!(Coord::from(Direction::Up), Coord(0, 1));
    assert_eq!(Coord::from(Direction::Down), Coord(0, -1));
    assert_eq!(Coord::from(Direction::Left), Coord(-1, 0));
    assert_eq!(Coord::from(Direction::Right), Coord(1, 0));
}

#[test]
fn coord_arithmetic() {
    assert_eq!(Coord(3, -4) + Coord(-1, 6), Coord(2, 2));
    assert_eq!(Coord(3, -4) - Coord(-1, 6), Coord(4, -10));
    assert_eq!(Coord(3, -4).signum(), Coord(1, -1));
    assert_eq!(Coord(0, 7).signum(), Coord(0, 1));
    assert_eq!(signum(-9), -1);
    assert_eq!(signum(0), 0);
    assert_eq!(Coord::default(), Coord(0, 0));
}

#[test]
fn tail_follows_the_head() {
    let mut state = HTState::default();
    assert!(state.adjacent());
    state.update(Instruction(Direction::Right, 1));
    assert_eq!((state.head, state.tail), (Coord(1, 0), Coord(0, 0)));
    assert!(state.adjacent());
    state.update(Instruction(Direction::Right, 1));
    assert_eq!((state.head, state.tail), (Coord(2, 0), Coord(1, 0)));
    state.update(Instruction(Direction::Up, 1));
    assert_eq!((state.head, state.tail), (Coord(2, 1), Coord(1, 0)));
    state.update(Instruction(Direction::Up, 1));
    assert_eq!((state.head, state.tail), (Coord(2, 2), Coord(2, 1)));
    state.update(Instruction(Direction::Left, 0));
    assert_eq!((state.head, state.tail), (Coord(2, 2), Coord(2, 1)));
    assert_eq!(state.visited, vec![Coord(0, 0), Coord(1, 0), Coord(2, 1)]);
}

#[test]
fn sample_tail_visits_13_places() {
    let mut state = HTState::default();
    for ins in parse_instructions(SAMPLE).unwrap() {
        state.update(ins);
    }
    assert_eq!(state.visited.len(), 13);
    assert_eq!(state.head, Coord(2, 2));
    assert_eq!(state.tail, Coord(1, 2));
    assert_eq!(state.grid_bounds(), (Coord(0, 0), Coord(4, 4)));
}

#[test]
fn bounds_take_in_head_and_tail() {
    let state = HTState { head: Coord(-3, 7), tail: Coord(-2, 6), visited: vec![Coord(0, 0), Coord(5, -1)] };
    assert_eq!(state.grid_bounds(), (Coord(-3, -1), Coord(5, 7)));
}

#[test]
fn render_marks_start_head_tail_and_visited_places() {
    let mut state = HTState::default();
    assert_eq!(state.render(), vec![b"s".to_vec()]);
    for ins in parse_instructions("R 4\nU 4\n").unwrap() {
        state.update(ins);
    }
    let rows: Vec<String> = state.render().into_iter().map(|r| String::from_utf8(r).unwrap()).collect();
    assert_eq!(rows, vec!["....H", "....T", "....#", "....#", "s###."]);
    let apart = HTState { head: Coord(1, 1), tail: Coord(0, 1), visited: vec![Coord(-1, 0)] };
    let rows: Vec<String> = apart.render().into_iter().map(|r| String::from_utf8(r).unwrap()).collect();
    assert_eq!(rows, vec![".TH", "#s."]);
}
