use advent::sand::{Cell, Grid, Point, Polyline, StepResult};

const SAMPLE: &str = "498,4 -> 498,6 -> 496,6\n503,4 -> 502,4 -> 502,9 -> 494,9\n";

fn p(x: i32, y: i32) -> Point {
    Point { x, y }
}

#[test]
fn point_parse_reads_two_numbers() {
    assert_eq!(Point::parse("498,4"), Some(p(498, 4)));
    assert_eq!(Point::parse("-3,+7"), Some(p(-3, 7)));
    assert_eq!(Point::parse("1,2,3"), Some(p(1, 2)));
    assert_eq!(Point::parse("1"), None);
    assert_eq!(Point::parse("1,"), None);
    assert_eq!(Point::parse(" 1,2"), None);
    assert_eq!(Point::parse("1,2147483648"), None);
    assert_eq!(Point::parse("-2147483648,2147483647"), Some(p(i32::MIN, i32::MAX)));
}

#[test]
fn point_arithmetic() {
    assert_eq!(p(1, 2) + p(10, -5), p(11, -3));
    assert_eq!(p(1, 2) - p(10, -5), p(-9, 7));
    assert_eq!(p(-4, 0).signum(), p(-1, 0));
    assert_eq!(Point::from((3, 4)), p(3, 4));
}

#[test]
fn polyline_parse_and_path() {
    let line = Polyline::parse("498,4 -> 498,6 -> 496,6").unwrap();
    assert_eq!(line.points, vec![p(498, 4), p(498, 6), p(496, 6)]);
    assert_eq!(
        line.path_points(),
        Some(vec![p(498, 4), p(498, 5), p(498, 6), p(497, 6), p(496, 6)])
    );
    assert_eq!(Polyline::parse("1,1").unwrap().path_points(), Some(vec![p(1, 1)]));
    assert!(Polyline::parse("1,1 ->2,2").is_none());
    assert!(Polyline::parse("").is_none());
}

#[test]
fn lines_that_are_not_straight_cover_nothing() {
    assert_eq!(Polyline { points: vec![p(0, 0), p(1, 1)] }.path_points(), None);
    assert_eq!(Polyline { points: vec![p(0, 0), p(0, 0)] }.path_points(), None);
    assert_eq!(Polyline { points: vec![] }.path_points(), Some(vec![]));
}

#[test]
fn parse_lays_out_the_cave() {
    let grid = Grid::parse(SAMPLE).unwrap();
    assert_eq!(grid.origin, p(200, 0));
    assert_eq!(grid.width, 601);
    assert_eq!(grid.height, 12);
    assert_eq!(grid.num_settled(), 0);
    assert_eq!(grid.current(), p(500, 0));
    assert_eq!(grid.current(), Grid::spawn_point());
    assert_eq!(grid.cell(p(498, 5)), Some(&Cell::Rock));
    assert_eq!(grid.cell(p(494, 9)), Some(&Cell::Rock));
    assert_eq!(grid.cell(p(500, 0)), Some(&Cell::Air));
    assert_eq!(grid.cell(p(200, 11)), Some(&Cell::Rock));
    assert_eq!(grid.cell(p(799, 11)), Some(&Cell::Rock));
    assert_eq!(grid.cell(p(800, 11)), Some(&Cell::Air));
    assert_eq!(grid.cell(p(500, 10)), Some(&Cell::Air));
    assert_eq!(grid.cell(p(801, 0)), None);
    assert_eq!(grid.cell(p(199, 0)), None);
    assert_eq!(grid.cell(p(500, 12)), None);
    assert_eq!(grid.cell(p(500, -1)), None);
    assert_eq!(grid.cell_index(p(200, 0)), Some(0));
    assert_eq!(grid.cell_index(p(201, 1)), Some(602));
}

#[test]
fn parse_refuses_what_cannot_be_laid_out() {
    assert!(Grid::parse("498,4 -> 499,5\n").is_none());
    assert!(Grid::parse("498,-1 -> 499,-1\n").is_none());
    assert!(Grid::parse("498,4 -> x\n").is_none());
    assert!(Grid::parse("0,2147483646 -> 1,2147483646\n").is_none());
    let empty = Grid::parse("").unwrap();
    assert_eq!((empty.width, empty.height), (601, 3));
}

#[test]
fn first_grain_of_the_sample() {
    let mut grid = Grid::parse(SAMPLE).unwrap();
    for y in 1..=8 {
        assert_eq!(grid.step(), StepResult::Moving(p(500, y)));
    }
    assert_eq!(grid.step(), StepResult::Settled(p(500, 8)));
    assert_eq!(grid.num_settled(), 1);
    assert_eq!(grid.current(), p(500, 0));
    assert_eq!(grid.cell(p(500, 8)), Some(&Cell::Sand));
    for y in 1..=7 {
        assert_eq!(grid.step(), StepResult::Moving(p(500, y)));
    }
    assert_eq!(grid.step(), StepResult::Moving(p(499, 8)));
    assert_eq!(grid.step(), StepResult::Settled(p(499, 8)));
}

#[test]
fn sample_fills_up_after_93_grains() {
    let mut grid = Grid::parse(SAMPLE).unwrap();
    loop {
        match grid.step() {
            StepResult::Settled(at) if at == Grid::spawn_point() => break,
            StepResult::Fell => panic!("no grain can leave a cave with a floor"),
            _ => {}
        }
    }
    assert_eq!(grid.num_settled(), 93);
    assert_eq!(grid.step(), StepResult::Settled(Grid::spawn_point()));
    assert_eq!(grid.num_settled(), 94);
}

#[test]
fn a_grain_at_the_rim_falls_out() {
    let mut grid = Grid::blank(p(499, 0), 3, 2).unwrap();
    assert!(grid.cell_set(p(500, 1), Cell::Rock));
    assert!(!grid.cell_set(p(502, 1), Cell::Rock));
    assert_eq!(grid.step(), StepResult::Moving(p(499, 1)));
    assert_eq!(grid.step(), StepResult::Fell);
    assert_eq!(grid.current(), p(499, 1));
    assert_eq!(grid.num_settled(), 0);
    assert!(grid.draw(&vec![p(499, 0), p(501, 0)]));
    assert!(!grid.draw(&vec![p(499, 0), p(502, 0)]));
    assert_eq!(grid.cell(p(501, 0)), Some(&Cell::Rock));
}

#[test]
fn render_shows_air_rock_and_sand() {
    let mut grid = Grid::blank(p(499, 0), 3, 3).unwrap();
    assert!(grid.draw(&vec![p(499, 2), p(500, 2), p(501, 2)]));
    assert_eq!(grid.step(), StepResult::Moving(p(500, 1)));
    assert_eq!(grid.step(), StepResult::Settled(p(500, 1)));
    assert_eq!(grid.render(), vec![b"...".to_vec(), b".o.".to_vec(), b"###".to_vec()]);
}
