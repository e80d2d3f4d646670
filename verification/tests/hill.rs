use advent::hill::grid::{is_adjacent, Cell, Coord, Grid, GridError};
use advent::hill::walker::{
    fewest_steps, fewest_steps_from_lowest, shortest_path, shortest_path_from_lowest, GraphWalker,
};

const SAMPLE: &str = "Sabqponm\nabcryxxl\naccszExk\nacctuvwj\nabdefghi\n";

fn sample() -> Grid {
    Grid::parse(SAMPLE).unwrap()
}

#[test]
fn parse_reads_width_height_and_cells() {
    let grid = sample();
    assert_eq!(grid.width, 8);
    assert_eq!(grid.height, 5);
    assert_eq!(grid.cell(&Coord::new(0, 0)), Some(&Cell::Start));
    assert_eq!(grid.cell(&Coord::new(5, 2)), Some(&Cell::End));
    assert_eq!(grid.cell(&Coord::new(3, 2)), Some(&Cell::Square(18)));
    assert_eq!(grid.cell(&Coord::new(8, 0)), None);
    assert_eq!(grid.cell(&Coord::new(0, 5)), None);
}

#[test]
fn parse_accepts_a_last_line_without_line_feed_and_carriage_returns() {
    let grid = Grid::parse("Sa\r\nbE").unwrap();
    assert_eq!(grid.width, 2);
    assert_eq!(grid.height, 2);
    assert_eq!(grid.cell(&Coord::new(1, 1)), Some(&Cell::End));
}

#[test]
fn parse_rejects_malformed_maps() {
    assert_eq!(Grid::parse("Sab\nabE\nab\n").err(), Some(GridError::MalformedInput));
    assert_eq!(Grid::parse("SaB\nabE\n").err(), Some(GridError::MalformedInput));
    assert_eq!(Grid::parse("Sa \nabE\n").err(), Some(GridError::MalformedInput));
    assert_eq!(Grid::parse("").err(), Some(GridError::MalformedInput));
}

#[test]
fn elevation_of_each_kind_of_cell() {
    assert_eq!(Cell::Start.elevation(), 0);
    assert_eq!(Cell::End.elevation(), 25);
    assert_eq!(Cell::Square(7).elevation(), 7);
    assert_eq!(Cell::from_byte(b'a'), Some(Cell::Square(0)));
    assert_eq!(Cell::from_byte(b'z'), Some(Cell::Square(25)));
    assert_eq!(Cell::from_byte(b'S'), Some(Cell::Start));
    assert_eq!(Cell::from_byte(b'E'), Some(Cell::End));
    assert_eq!(Cell::from_byte(b'A'), None);
    assert_eq!(Cell::Square(3).to_byte(), b'd');
}

#[test]
fn idx2coord_is_row_major() {
    let grid = sample();
    assert_eq!(grid.idx2coord(0), Coord::new(0, 0));
    assert_eq!(grid.idx2coord(7), Coord::new(7, 0));
    assert_eq!(grid.idx2coord(8), Coord::new(0, 1));
    assert_eq!(grid.idx2coord(21), Coord::new(5, 2));
    assert_eq!(grid.index(&Coord::new(5, 2)), 21);
}

#[test]
fn start_and_end_are_found() {
    let grid = sample();
    assert_eq!(grid.start(), Ok(Coord::new(0, 0)));
    assert_eq!(grid.end(), Ok(Coord::new(5, 2)));
}

#[test]
fn missing_markers_are_reported() {
    let grid = Grid::parse("abc\ndef\n").unwrap();
    assert_eq!(grid.start(), Err(GridError::MissingMarker));
    assert_eq!(grid.end(), Err(GridError::MissingMarker));
    let only_start = Grid::parse("S").unwrap();
    assert_eq!(only_start.start(), Ok(Coord::new(0, 0)));
    assert_eq!(only_start.end(), Err(GridError::MissingMarker));
}

#[test]
fn first_marker_in_scan_order_wins() {
    let grid = Grid::parse("aSa\nSaE\nEaa\n").unwrap();
    assert_eq!(grid.start(), Ok(Coord::new(1, 0)));
    assert_eq!(grid.end(), Ok(Coord::new(2, 1)));
}

#[test]
fn neighbors_stay_on_the_grid_and_obey_the_climb_rule() {
    let grid = sample();
    for y in 0..grid.height {
        for x in 0..grid.width {
            let c = Coord::new(x, y);
            let here = grid.cell(&c).unwrap().elevation();
            let ns = grid.walkable_neighbors(&c);
            assert!(ns.len() <= 4);
            for d in &ns {
                assert!(grid.in_bounds(d));
                assert!(is_adjacent(&c, d));
                assert!(grid.cell(d).unwrap().elevation() <= here + 1);
            }
        }
    }
}

#[test]
fn neighbors_are_listed_left_right_up_down() {
    let grid = Grid::parse("aaa\naaa\naaa\n").unwrap();
    assert_eq!(
        grid.walkable_neighbors(&Coord::new(1, 1)),
        vec![Coord::new(0, 1), Coord::new(2, 1), Coord::new(1, 0), Coord::new(1, 2)]
    );
    assert_eq!(
        grid.walkable_neighbors(&Coord::new(0, 0)),
        vec![Coord::new(1, 0), Coord::new(0, 1)]
    );
}

#[test]
fn climbing_is_directed() {
    let grid = Grid::parse("ac\n").unwrap();
    assert_eq!(grid.walkable_neighbors(&Coord::new(0, 0)), vec![]);
    assert_eq!(grid.walkable_neighbors(&Coord::new(1, 0)), vec![Coord::new(0, 0)]);
    assert_eq!(grid.links(true, &Coord::new(0, 0)), vec![Coord::new(1, 0)]);
    assert_eq!(grid.links(true, &Coord::new(1, 0)), vec![]);
}

fn assert_is_walk(grid: &Grid, path: &[Coord]) {
    assert!(!path.is_empty());
    for pair in path.windows(2) {
        assert!(grid.walkable_neighbors(&pair[0]).contains(&pair[1]));
    }
}

#[test]
fn sample_shortest_path_has_31_steps() {
    let grid = sample();
    let mut walker = GraphWalker::new(&grid, grid.start().unwrap(), grid.end().unwrap());
    walker.search();
    let path = walker.path().unwrap();
    assert_eq!(path.len() - 1, 31);
    assert_eq!(path[0], Coord::new(0, 0));
    assert_eq!(path[path.len() - 1], Coord::new(5, 2));
    assert_is_walk(&grid, &path);
    assert_eq!(fewest_steps(&grid, Coord::new(0, 0), Coord::new(5, 2)), Some(31));
}

#[test]
fn search_is_repeatable() {
    let grid = sample();
    let first = shortest_path(&grid, Coord::new(0, 0), Coord::new(5, 2)).unwrap();
    let second = shortest_path(&grid, Coord::new(0, 0), Coord::new(5, 2)).unwrap();
    assert_eq!(first.len(), second.len());
    assert_eq!(first.len(), 32);
}

#[test]
fn tentative_distances_never_undercut_the_shortest_walk() {
    let grid = sample();
    let start = Coord::new(0, 0);
    let end = Coord::new(5, 2);
    let mut walker = GraphWalker::new(&grid, start, end);
    let at = grid.index(&end);
    assert_eq!(walker.distances[at], None);
    assert_eq!(walker.distances[grid.index(&start)], Some(0));
    while !walker.found && walker.remaining > 0 {
        walker.step();
        if let Some(d) = walker.distances[at] {
            assert!(d >= 31);
        }
    }
    assert!(walker.found);
    assert_eq!(walker.distances[at], Some(31));
}

#[test]
fn unreachable_end_yields_no_path() {
    let grid = Grid::parse("SabzzE\n").unwrap();
    let mut walker = GraphWalker::new(&grid, grid.start().unwrap(), grid.end().unwrap());
    walker.search();
    assert_eq!(walker.path(), None);
    assert_eq!(fewest_steps(&grid, Coord::new(0, 0), Coord::new(5, 0)), None);
    let walled = Grid::parse("Saaaa\naazzz\naazEz\naazzz\n").unwrap();
    assert_eq!(shortest_path(&walled, Coord::new(0, 0), Coord::new(3, 2)), None);
}

#[test]
fn sample_from_lowest_has_29_steps() {
    let grid = sample();
    let end = grid.end().unwrap();
    assert_eq!(fewest_steps_from_lowest(&grid, end), Some(29));
    let path = shortest_path_from_lowest(&grid, end).unwrap();
    assert_eq!(path.len() - 1, 29);
    assert_eq!(grid.cell(&path[0]).unwrap().elevation(), 0);
    assert_eq!(path[path.len() - 1], end);
    assert_is_walk(&grid, &path);
    let mut walker = GraphWalker::from_lowest(&grid, end);
    walker.search();
    assert!(walker.found);
    assert_eq!(walker.path().map(|p| p.len() - 1), Some(29));
}

#[test]
fn from_lowest_equals_best_of_all_single_searches() {
    let grid = sample();
    let end = grid.end().unwrap();
    let mut best: Option<usize> = None;
    for i in 0..grid.width * grid.height {
        let c = grid.idx2coord(i);
        if grid.cell(&c).unwrap().elevation() == 0 {
            if let Some(n) = fewest_steps(&grid, c, end) {
                best = Some(best.map_or(n, |b| b.min(n)));
            }
        }
    }
    assert_eq!(best, Some(29));
    assert_eq!(fewest_steps_from_lowest(&grid, end), best);
}

#[test]
fn from_lowest_without_any_route() {
    let grid = Grid::parse("aczE\n").unwrap();
    assert_eq!(fewest_steps_from_lowest(&grid, Coord::new(3, 0)), None);
    assert_eq!(shortest_path_from_lowest(&grid, Coord::new(3, 0)), None);
}

#[test]
fn start_next_to_end_is_one_step() {
    let grid = Grid::parse("yE\n").unwrap();
    let path = shortest_path(&grid, Coord::new(0, 0), Coord::new(1, 0)).unwrap();
    assert_eq!(path, vec![Coord::new(0, 0), Coord::new(1, 0)]);
    assert_eq!(path.len() - 1, 1);
}

#[test]
fn single_cell_grid_has_a_path_of_one_square() {
    let grid = Grid::parse("S").unwrap();
    let start = grid.start().unwrap();
    let mut walker = GraphWalker::new(&grid, start, start);
    walker.search();
    let path = walker.path().unwrap();
    assert_eq!(path.len(), 1);
    assert_eq!(path, vec![Coord::new(0, 0)]);
}

#[test]
fn path_before_search_knows_only_the_start() {
    let grid = sample();
    let walker = GraphWalker::new(&grid, Coord::new(0, 0), Coord::new(5, 2));
    assert_eq!(walker.path(), None);
    let at_start = GraphWalker::new(&grid, Coord::new(0, 0), Coord::new(0, 0));
    assert_eq!(at_start.path(), Some(vec![Coord::new(0, 0)]));
}

#[test]
fn coordinates_off_the_grid_have_no_path() {
    let grid = sample();
    assert_eq!(shortest_path(&grid, Coord::new(9, 9), Coord::new(5, 2)), None);
    assert_eq!(shortest_path(&grid, Coord::new(0, 0), Coord::new(5, 20)), None);
}

#[test]
fn render_gives_the_map_back() {
    let grid = sample();
    let rows: Vec<String> = grid.render().into_iter().map(|r| String::from_utf8(r).unwrap()).collect();
    let want: Vec<String> = SAMPLE.lines().map(String::from).collect();
    assert_eq!(rows, want);
    assert_eq!(Coord::from((3, 2)), Coord::new(3, 2));
}

#[test]
fn steps_settle_the_nearest_square_first() {
    let grid = Grid::parse("Sab\nabc\n").unwrap();
    let mut walker = GraphWalker::new(&grid, Coord::new(0, 0), Coord::new(2, 1));
    assert_eq!(walker.nearest_open(), Some(0));
    assert!(walker.step());
    assert_eq!(walker.unvisited, vec![false, true, true, true, true, true]);
    assert_eq!(walker.distances, vec![Some(0), Some(1), None, Some(1), None, None]);
    assert_eq!(walker.previous[1], Some(Coord::new(0, 0)));
    assert_eq!(walker.previous[3], Some(Coord::new(0, 0)));
    assert_eq!(walker.remaining, 5);
    assert_eq!(walker.nearest_open(), Some(1));
    assert!(walker.step());
    assert_eq!(walker.distances, vec![Some(0), Some(1), Some(2), Some(1), Some(2), None]);
    assert_eq!(walker.previous[4], Some(Coord::new(1, 0)));
    assert_eq!(walker.nearest_open(), Some(3));
    assert!(walker.step());
    assert!(walker.step());
    assert!(walker.step());
    assert!(!walker.found);
    assert_eq!(walker.distances[5], Some(3));
    assert!(!walker.step());
    assert!(walker.found);
    assert_eq!(walker.remaining, 0);
    assert_eq!(walker.nearest_open(), None);
    assert_eq!(walker.path().map(|p| p.len()), Some(4));
}
