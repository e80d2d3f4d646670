use advent::trees::{Coord, Grid, TreeSet};

const SAMPLE: &str = "30373\n25512\n65332\n33549\n35390\n";

fn sorted(mut v: Vec<Coord>) -> Vec<(usize, usize)> {
    v.sort_by_key(|c| (c.x, c.y));
    v.into_iter().map(|c| (c.x, c.y)).collect()
}

#[test]
fn sample_has_21_visible_trees() {
    let grid = Grid::parse(SAMPLE).unwrap();
    assert_eq!(grid.visible_count(), Some(21));
    let set = grid.visibile_trees().unwrap();
    assert_eq!(set.0.len(), 21);
    let inner: Vec<(usize, usize)> =
        sorted(set.0).into_iter().filter(|&(x, y)| x > 0 && x < 4 && y > 0 && y < 4).collect();
    assert_eq!(inner, vec![(1, 1), (1, 2), (2, 1), (2, 3), (3, 2)]);
}

#[test]
fn sweeps_of_the_sample() {
    let grid = Grid::parse(SAMPLE).unwrap();
    assert_eq!(sorted(grid.row_visible(false)), vec![(1, 0), (1, 1), (2, 0), (3, 0), (3, 2)]);
    assert_eq!(sorted(grid.row_visible(true)), vec![(1, 2), (1, 4), (2, 1), (2, 3), (2, 4), (3, 4)]);
    assert_eq!(sorted(grid.col_visible(false)), vec![(0, 1), (0, 2), (0, 3), (1, 1), (1, 2)]);
    assert_eq!(sorted(grid.col_visible(true)), vec![(3, 2), (4, 1), (4, 2), (4, 3)]);
    assert_eq!(sorted(grid.line_visible(true, true)), sorted(grid.col_visible(true)));
}

#[test]
fn scenic_scores_of_the_sample() {
    let grid = Grid::parse(SAMPLE).unwrap();
    assert_eq!(grid.scenic_score(1, 2), Some(4));
    assert_eq!(grid.scenic_score(3, 2), Some(8));
    assert_eq!(grid.scenic_score(0, 0), Some(0));
    assert_eq!(grid.scenic_score(5, 0), None);
    assert_eq!(grid.scenic_score(0, 5), None);
    assert_eq!(grid.max_scenic_score(), Some(((3, 2), 8)));
    assert_eq!(grid.gaze(3, 2, 0), 2);
    assert_eq!(grid.gaze(3, 2, 1), 1);
    assert_eq!(grid.gaze(3, 2, 2), 2);
    assert_eq!(grid.gaze(3, 2, 3), 2);
}

#[test]
fn the_last_of_equal_scores_wins() {
    let grid = Grid::parse("111\n111\n111\n").unwrap();
    assert_eq!(grid.max_scenic_score(), Some(((1, 1), 1)));
    let flat = Grid::parse("11\n11\n").unwrap();
    assert_eq!(flat.max_scenic_score(), Some(((1, 1), 0)));
}

#[test]
fn edges_are_listed_by_the_number_of_rows() {
    let wide = Grid::parse("123\n456\n").unwrap();
    assert_eq!(sorted(wide.external_trees()), vec![(0, 0), (0, 1), (0, 2), (1, 0), (1, 0), (1, 1), (1, 1), (1, 2)]);
    assert_eq!(wide.visible_count(), Some(6));
    let tall = Grid::parse("12\n34\n56\n").unwrap();
    assert_eq!(
        sorted(tall.visibile_trees().unwrap().0),
        vec![(0, 0), (0, 1), (1, 0), (1, 1), (1, 2), (2, 0), (2, 1), (2, 2)]
    );
    assert_eq!(tall.visible_count(), Some(8));
}

#[test]
fn parse_fills_the_matrix_row_by_row() {
    assert!(Grid::parse("").is_none());
    assert!(Grid::parse("12\n3x\n").is_none());
    assert!(Grid::parse("123\n45\n").is_none());
    let ragged = Grid::parse("12\n345\n6\n").unwrap();
    assert_eq!(ragged.gaze(0, 0, 3), 1);
    assert_eq!(ragged.scenic_score(2, 1), Some(0));
    assert_eq!(ragged.max_scenic_score(), Some(((2, 1), 0)));
    assert_eq!(ragged.scenic_score(1, 0), Some(0));
    let single = Grid::parse("7").unwrap();
    assert_eq!(single.visible_count(), Some(1));
    assert_eq!(single.max_scenic_score(), Some(((0, 0), 0)));
    let empty_rows = Grid::parse("\n\n").unwrap();
    assert_eq!(empty_rows.visible_count(), None);
    assert_eq!(empty_rows.max_scenic_score(), None);
}

#[test]
fn tree_set_keeps_each_tree_once() {
    let mut set = TreeSet(vec![]);
    assert_eq!(set.shape(), None);
    assert_eq!(set.hit_map(), None);
    set.insert(Coord::new(1, 2));
    set.insert(Coord::new(0, 0));
    set.insert(Coord::new(1, 2));
    set.insert_all(&vec![Coord::new(0, 0), Coord::new(2, 1)]);
    assert_eq!(set.0, vec![Coord::new(1, 2), Coord::new(0, 0), Coord::new(2, 1)]);
    assert_eq!(set.rows(), Some(3));
    assert_eq!(set.columns(), Some(3));
    assert_eq!(set.shape(), Some((3, 3)));
    assert_eq!(
        set.hit_map(),
        Some(vec![vec![true, false, false], vec![false, false, true], vec![false, true, false]])
    );
}

#[test]
fn render_marks_the_kept_trees() {
    let set = TreeSet(vec![Coord::new(0, 0), Coord::new(1, 2)]);
    assert_eq!(set.render(), Some(vec![b"x..".to_vec(), b"..x".to_vec()]));
    assert_eq!(TreeSet(vec![]).render(), None);
    let grid = Grid::parse(SAMPLE).unwrap();
    let rows: Vec<String> = grid
        .visibile_trees()
        .unwrap()
        .render()
        .unwrap()
        .into_iter()
        .map(|r| String::from_utf8(r).unwrap())
        .collect();
    assert_eq!(rows, vec!["xxxxx", "xxx.x", "xx.xx", "x.x.x", "xxxxx"]);
}
