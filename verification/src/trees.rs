//! A patch of trees as a matrix of heights: which trees can be seen, and
//! how far one sees from a tree.

use nalgebra::base::DMatrix;
use vstd::prelude::*;
use vstd::string::StringSliceAdditionalSpecFns;
use crate::text::{lines, spec_lines, views};

verus! {

/// A tree by its row `x` and its column `y`.
#[derive(Clone, Copy, Debug, PartialEq, Eq, Hash, Structural)]
pub struct Coord {
    pub x: usize,
    pub y: usize,
}

impl Coord {
    /// The tree in row `x`, column `y`.
    pub fn new(x: usize, y: usize) -> (c: Self)
        ensures
            c.x == x,
            c.y == y,
    {
        Coord { x, y }
    }
}

/// The heights of the trees, held in a matrix of nalgebra. The matrix type
/// is generic over a storage that is bound by a trait of nalgebra, which
/// Verus cannot be told of; so the whole grid is opaque to Verus, and what
/// it holds is known by name only, through the three methods below that
/// call nalgebra.
#[verifier::external_body]
pub struct Grid(DMatrix<i32>);

/// The heights that the matrix of a grid holds, row by row.
pub uninterp spec fn matrix_rows(g: Grid) -> Seq<Seq<i32>>;

/// The number of columns of the matrix of a grid.
pub uninterp spec fn matrix_width(g: Grid) -> nat;

impl Grid {
    /// `DMatrix::from_row_iterator` of nalgebra: by its source the matrix
    /// has `nrows` rows and `ncols` columns, and the value that the
    /// iterator yields at place `k` stands in row `k / ncols`, column
    /// `k % ncols`; values beyond `nrows * ncols` are not taken. It panics
    /// where the iterator yields fewer, which `requires` leaves out.
    #[verifier::external_body]
    fn from_rows(nrows: usize, ncols: usize, values: Vec<i32>) -> (g: Grid)
        requires
            nrows * ncols <= values@.len(),
        ensures
            matrix_rows(g).len() == nrows,
            matrix_width(g) == ncols,
            forall|r: int| 0 <= r < nrows ==> (#[trigger] matrix_rows(g)[r]).len() == ncols,
            forall|r: int, c: int|
                0 <= r < nrows && 0 <= c < ncols ==> #[trigger] matrix_rows(g)[r][c]
                    == values@[r * ncols + c],
    {
        Grid(DMatrix::from_row_iterator(nrows, ncols, values))
    }

    /// `shape` of nalgebra: the number of rows and the number of columns
    /// of the matrix; every row has that many columns.
    #[verifier::external_body]
    fn shape(&self) -> (r: (usize, usize))
        ensures
            r.0 == matrix_rows(*self).len(),
            r.1 == matrix_width(*self),
            forall|i: int| 0 <= i < r.0 ==> (#[trigger] matrix_rows(*self)[i]).len() == r.1,
    {
        self.0.shape()
    }

    /// Indexing of nalgebra by row and column: the value that stands
    /// there. It panics outside the matrix, which `requires` leaves out.
    #[verifier::external_body]
    fn get(&self, row: usize, col: usize) -> (v: i32)
        requires
            row < matrix_rows(*self).len(),
            col < matrix_width(*self),
        ensures
            v == matrix_rows(*self)[row as int][col as int],
    {
        self.0[(row, col)]
    }
}

/// The trees that can be seen, each kept once.
#[derive(Debug)]
pub struct TreeSet(pub Vec<Coord>);

/// Whether `c` is among `v`.
pub fn has_tree(v: &Vec<Coord>, c: Coord) -> (r: bool)
    ensures
        r == v@.contains(c),
{
    let mut i: usize = 0;
    while i < v.len()
        invariant
            i <= v@.len(),
            forall|k: int| 0 <= k < i ==> v@[k] != c,
        decreases v@.len() - i,
    {
        if v[i] == c {
            return true;
        }
        i += 1;
    }
    false
}

impl TreeSet {
    /// No tree is kept twice.
    pub open spec fn wf(&self) -> bool {
        self.0@.no_duplicates()
    }

    /// Keeps `c` unless it is kept already.
    pub fn insert(&mut self, c: Coord)
        requires
            old(self).wf(),
        ensures
            final(self).wf(),
            forall|d: Coord| #[trigger]
                final(self).0@.contains(d) <==> (old(self).0@.contains(d) || d == c),
    {
        if !has_tree(&self.0, c) {
            let ghost before = self.0@;
            self.0.push(c);
            proof {
                let now = self.0@;
                assert forall|d: Coord| #[trigger] now.contains(d) <==> (before.contains(d) || d
                    == c) by {
                    if now.contains(d) {
                        let k = choose|k: int| 0 <= k < now.len() && now[k] == d;
                        if k < before.len() {
                            assert(before[k] == d);
                        }
                    }
                    if before.contains(d) {
                        let k = choose|k: int| 0 <= k < before.len() && before[k] == d;
                        assert(now[k] == d);
                    }
                    if d == c {
                        assert(now[before.len() as int] == c);
                    }
                }
            }
        }
    }

    /// Keeps all of `more` too.
    pub fn insert_all(&mut self, more: &Vec<Coord>)
        requires
            old(self).wf(),
        ensures
            final(self).wf(),
            forall|d: Coord| #[trigger]
                final(self).0@.contains(d) <==> (old(self).0@.contains(d) || more@.contains(d)),
    {
        let mut i: usize = 0;
        while i < more.len()
            invariant
                i <= more@.len(),
                self.wf(),
                forall|d: Coord| #[trigger]
                    self.0@.contains(d) <==> (old(self).0@.contains(d) || more@.take(
                        i as int,
                    ).contains(d)),
            decreases more@.len() - i,
        {
            let ghost seen = more@.take(i as int);
            let ghost before = self.0@;
            self.insert(more[i]);
            proof {
                let now = more@.take(i + 1);
                assert forall|d: Coord| #[trigger]
                    self.0@.contains(d) <==> (old(self).0@.contains(d) || now.contains(d)) by {
                    assert(before.contains(d) <==> (old(self).0@.contains(d) || seen.contains(d)));
                    if seen.contains(d) {
                        let k = choose|k: int| 0 <= k < seen.len() && seen[k] == d;
                        assert(now[k] == d);
                    }
                    if now.contains(d) {
                        let k = choose|k: int| 0 <= k < now.len() && now[k] == d;
                        if k < seen.len() {
                            assert(seen[k] == d);
                        }
                    }
                    if d == more@[i as int] {
                        assert(now[i as int] == d);
                    }
                }
            }
            i += 1;
        }
        assert(more@.take(i as int) =~= more@);
    }

    /// `n` is one more than the greatest row of a tree that is kept.
    pub open spec fn is_rows(&self, n: int) -> bool {
        &&& exists|i: int| 0 <= i < self.0@.len() && (#[trigger] self.0@[i]).x + 1 == n
        &&& forall|i: int| 0 <= i < self.0@.len() ==> (#[trigger] self.0@[i]).x < n
    }

    /// `n` is one more than the greatest column of a tree that is kept.
    pub open spec fn is_columns(&self, n: int) -> bool {
        &&& exists|i: int| 0 <= i < self.0@.len() && (#[trigger] self.0@[i]).y + 1 == n
        &&& forall|i: int| 0 <= i < self.0@.len() ==> (#[trigger] self.0@[i]).y < n
    }

    /// One more than the greatest row of a tree that is kept.
    pub fn rows(&self) -> (r: Option<usize>)
        ensures
            match r {
                Some(n) => self.is_rows(n as int),
                None => self.0@.len() == 0 || exists|i: int|
                    0 <= i < self.0@.len() && (#[trigger] self.0@[i]).x == usize::MAX,
            },
    {
        if self.0.len() == 0 {
            return None;
        }
        let mut best: usize = self.0[0].x;
        let mut i: usize = 1;
        while i < self.0.len()
            invariant
                1 <= i <= self.0@.len(),
                exists|k: int| 0 <= k < i && (#[trigger] self.0@[k]).x == best,
                forall|k: int| 0 <= k < i ==> (#[trigger] self.0@[k]).x <= best,
            decreases self.0@.len() - i,
        {
            if self.0[i].x > best {
                best = self.0[i].x;
            }
            i += 1;
        }
        if best == usize::MAX {
            None
        } else {
            Some(best + 1)
        }
    }

    /// One more than the greatest column of a tree that is kept.
    pub fn columns(&self) -> (r: Option<usize>)
        ensures
            match r {
                Some(n) => self.is_columns(n as int),
                None => self.0@.len() == 0 || exists|i: int|
                    0 <= i < self.0@.len() && (#[trigger] self.0@[i]).y == usize::MAX,
            },
    {
        if self.0.len() == 0 {
            return None;
        }
        let mut best: usize = self.0[0].y;
        let mut i: usize = 1;
        while i < self.0.len()
            invariant
                1 <= i <= self.0@.len(),
                exists|k: int| 0 <= k < i && (#[trigger] self.0@[k]).y == best,
                forall|k: int| 0 <= k < i ==> (#[trigger] self.0@[k]).y <= best,
            decreases self.0@.len() - i,
        {
            if self.0[i].y > best {
                best = self.0[i].y;
            }
            i += 1;
        }
        if best == usize::MAX {
            None
        } else {
            Some(best + 1)
        }
    }

    /// The numbers of rows and columns that hold the trees that are kept.
    pub fn shape(&self) -> (r: Option<(usize, usize)>)
        ensures
            match r {
                Some((rows, cols)) => self.is_rows(rows as int) && self.is_columns(cols as int),
                None => self.0@.len() == 0 || exists|i: int|
                    0 <= i < self.0@.len() && ((#[trigger] self.0@[i]).x == usize::MAX
                        || self.0@[i].y == usize::MAX),
            },
    {
        match (self.rows(), self.columns()) {
            (Some(rows), Some(cols)) => Some((rows, cols)),
            _ => None,
        }
    }

    /// A map of the patch: one row of marks per row of trees, set where a
    /// tree is kept.
    pub fn hit_map(&self) -> (r: Option<Vec<Vec<bool>>>)
        ensures
            match r {
                Some(map) => {
                    &&& self.is_rows(map@.len() as int)
                    &&& forall|x: int|
                        0 <= x < map@.len() ==> self.is_columns((#[trigger] map@[x])@.len() as int)
                    &&& forall|x: int, y: int|
                        0 <= x < map@.len() && 0 <= y < map@[x]@.len() ==> (#[trigger] map@[x]@[y])
                            == self.0@.contains(Coord { x: x as usize, y: y as usize })
                },
                None => self.0@.len() == 0 || exists|i: int|
                    0 <= i < self.0@.len() && ((#[trigger] self.0@[i]).x == usize::MAX
                        || self.0@[i].y == usize::MAX),
            },
    {
        let (rows, cols) = match self.shape() {
            Some(s) => s,
            None => {
                return None;
            },
        };
        let mut base: Vec<Vec<bool>> = Vec::new();
        let mut x: usize = 0;
        while x < rows
            invariant
                x <= rows,
                base@.len() == x,
                forall|i: int| 0 <= i < x ==> (#[trigger] base@[i])@.len() == cols,
                forall|i: int, j: int| 0 <= i < x && 0 <= j < cols ==> !(#[trigger] base@[i]@[j]),
            decreases rows - x,
        {
            let mut row: Vec<bool> = Vec::new();
            let mut y: usize = 0;
            while y < cols
                invariant
                    y <= cols,
                    row@.len() == y,
                    forall|j: int| 0 <= j < y ==> !row@[j],
                decreases cols - y,
            {
                row.push(false);
                y += 1;
            }
            base.push(row);
            x += 1;
        }
        let mut i: usize = 0;
        while i < self.0.len()
            invariant
                i <= self.0@.len(),
                base@.len() == rows,
                self.is_rows(rows as int),
                self.is_columns(cols as int),
                forall|a: int| 0 <= a < rows ==> (#[trigger] base@[a])@.len() == cols,
                forall|a: int, b: int|
                    0 <= a < rows && 0 <= b < cols ==> (#[trigger] base@[a]@[b])
                        == self.0@.take(i as int).contains(Coord { x: a as usize, y: b as usize }),
            decreases self.0@.len() - i,
        {
            let c = self.0[i];
            let ghost seen = self.0@.take(i as int);
            let ghost before = base@;
            base[c.x].set(c.y, true);
            proof {
                let now = self.0@.take(i + 1);
                assert forall|a: int, b: int| 0 <= a < rows && 0 <= b < cols implies (
                #[trigger] base@[a]@[b]) == now.contains(Coord { x: a as usize, y: b as usize }) by {
                    let d = Coord { x: a as usize, y: b as usize };
                    assert(before[a]@[b] == seen.contains(d));
                    if seen.contains(d) {
                        let k = choose|k: int| 0 <= k < seen.len() && seen[k] == d;
                        assert(now[k] == d);
                    }
                    if now.contains(d) {
                        let k = choose|k: int| 0 <= k < now.len() && now[k] == d;
                        if k < seen.len() {
                            assert(seen[k] == d);
                        }
                    }
                    if d == c {
                        assert(now[i as int] == d);
                    }
                }
            }
            i += 1;
        }
        assert(self.0@.take(i as int) =~= self.0@);
        Some(base)
    }
}

impl TreeSet {
    /// A picture of the patch: one row of bytes per row of trees, `x`
    /// where a tree is kept and `.` elsewhere.
    pub fn render(&self) -> (r: Option<Vec<Vec<u8>>>)
        ensures
            match r {
                Some(rows) => {
                    &&& self.is_rows(rows@.len() as int)
                    &&& forall|x: int|
                        0 <= x < rows@.len() ==> self.is_columns((#[trigger] rows@[x])@.len() as int)
                    &&& forall|x: int, y: int|
                        0 <= x < rows@.len() && 0 <= y < rows@[x]@.len() ==> (
                        #[trigger] rows@[x]@[y]) == if self.0@.contains(
                            Coord { x: x as usize, y: y as usize },
                        ) {
                            120u8
                        } else {
                            46u8
                        }
                },
                None => self.0@.len() == 0 || exists|i: int|
                    0 <= i < self.0@.len() && ((#[trigger] self.0@[i]).x == usize::MAX
                        || self.0@[i].y == usize::MAX),
            },
    {
        let map = match self.hit_map() {
            Some(m) => m,
            None => {
                return None;
            },
        };
        let mut out: Vec<Vec<u8>> = Vec::new();
        let mut x: usize = 0;
        while x < map.len()
            invariant
                x <= map@.len(),
                out@.len() == x,
                forall|a: int| 0 <= a < x ==> (#[trigger] out@[a])@.len() == map@[a]@.len(),
                forall|a: int, b: int|
                    0 <= a < x && 0 <= b < map@[a]@.len() ==> (#[trigger] out@[a]@[b]) == if map@[a]@[b] {
                        120u8
                    } else {
                        46u8
                    },
            decreases map@.len() - x,
        {
            let mut row: Vec<u8> = Vec::new();
            let mut y: usize = 0;
            while y < map[x].len()
                invariant
                    x < map@.len(),
                    y <= map@[x as int]@.len(),
                    row@.len() == y,
                    forall|b: int|
                        0 <= b < y ==> (#[trigger] row@[b]) == if map@[x as int]@[b] {
                            120u8
                        } else {
                            46u8
                        },
                decreases map@[x as int]@.len() - y,
            {
                if map[x][y] {
                    row.push(120);
                } else {
                    row.push(46);
                }
                y += 1;
            }
            out.push(row);
            x += 1;
        }
        Some(out)
    }
}

/// The height that a digit stands for.
pub open spec fn digit_height(b: u8) -> Option<i32> {
    if 48 <= b <= 57 {
        Some((b - 48) as i32)
    } else {
        None
    }
}

/// The heights that the lines of a text tell of, all lines one after the
/// other. Nothing where a byte is no digit.
pub open spec fn spec_heights(rows: Seq<Seq<u8>>) -> Option<Seq<i32>>
    decreases rows.len(),
{
    if rows.len() == 0 {
        Some(Seq::empty())
    } else {
        match spec_heights(rows.drop_last()) {
            Some(before) => if forall|k: int|
                0 <= k < rows.last().len() ==> digit_height(#[trigger] rows.last()[k]) is Some {
                Some(
                    before + Seq::new(
                        rows.last().len(),
                        |k: int| digit_height(rows.last()[k])->0,
                    ),
                )
            } else {
                None
            },
            None => None,
        }
    }
}

/// Where the first lines tell of no heights, neither do all.
pub proof fn lemma_heights_prefix(rows: Seq<Seq<u8>>, n: int)
    requires
        0 <= n <= rows.len(),
        spec_heights(rows.take(n)) is None,
    ensures
        spec_heights(rows) is None,
    decreases rows.len() - n,
{
    if n == rows.len() {
        assert(rows.take(n) =~= rows);
    } else {
        assert(rows.take(n + 1).drop_last() =~= rows.take(n));
        lemma_heights_prefix(rows, n + 1);
    }
}

/// Reads the digits of all lines, one after the other, as heights.
pub fn heights(rows: &Vec<Vec<u8>>) -> (r: Option<Vec<i32>>)
    ensures
        match spec_heights(views(rows@)) {
            Some(h) => r is Some && r->0@ == h,
            None => r is None,
        },
{
    let ghost all = views(rows@);
    let mut out: Vec<i32> = Vec::new();
    let mut i: usize = 0;
    assert(all.take(0) =~= Seq::<Seq<u8>>::empty());
    while i < rows.len()
        invariant
            i <= rows@.len(),
            all == views(rows@),
            spec_heights(all.take(i as int)) == Some(out@),
        decreases rows@.len() - i,
    {
        let row = &rows[i];
        let ghost before = out@;
        proof {
            assert(all.take(i + 1).drop_last() =~= all.take(i as int));
            assert(all.take(i + 1).last() == row@);
        }
        let mut k: usize = 0;
        while k < row.len()
            invariant
                k <= row@.len(),
                0 <= i < all.len(),
                all == views(rows@),
                all[i as int] == row@,
                spec_heights(all.take(i as int)) == Some(before),
                forall|j: int| 0 <= j < k ==> digit_height(#[trigger] row@[j]) is Some,
                out@ == before + Seq::new(k as nat, |j: int| digit_height(row@[j])->0),
            decreases row@.len() - k,
        {
            let b = row[k];
            if b < 48 || b > 57 {
                proof {
                    assert(digit_height(row@[k as int]) is None);
                    assert(all.take(i + 1).drop_last() =~= all.take(i as int));
                    assert(all.take(i + 1).last() == row@);
                    lemma_heights_prefix(all, i + 1);
                }
                return None;
            }
            out.push((b - 48) as i32);
            assert(out@ =~= before + Seq::new((k + 1) as nat, |j: int| digit_height(row@[j])->0));
            k += 1;
        }
        i += 1;
    }
    assert(all.take(i as int) =~= all);
    Some(out)
}

impl Grid {
    /// The number of rows.
    pub open spec fn nrows(&self) -> int {
        matrix_rows(*self).len() as int
    }

    /// The number of columns.
    pub open spec fn ncols(&self) -> int {
        matrix_width(*self) as int
    }

    /// The height of the tree in row `r`, column `c`.
    pub open spec fn height(&self, r: int, c: int) -> int {
        matrix_rows(*self)[r][c] as int
    }

    /// Reads a patch of trees from a text: as many rows as the text has
    /// lines and as many columns as the first line has digits; the digits
    /// of all lines fill it row by row. Nothing where the text has no line,
    /// a byte is no digit, or there are not enough digits.
    pub fn parse(i: &str) -> (r: Option<Self>)
        ensures
            ({
                let rows = spec_lines(i.spec_bytes());
                match r {
                    Some(g) => {
                        &&& rows.len() > 0
                        &&& spec_heights(rows) is Some
                        &&& g.nrows() == rows.len()
                        &&& g.ncols() == rows[0].len()
                        &&& rows.len() * rows[0].len() <= spec_heights(rows)->0.len()
                        &&& forall|r: int, c: int|
                            0 <= r < g.nrows() && 0 <= c < g.ncols() ==> #[trigger] g.height(r, c)
                                == spec_heights(rows)->0[r * g.ncols() + c]
                    },
                    None => rows.len() == 0 || spec_heights(rows) is None || rows.len()
                        * rows[0].len() > spec_heights(rows)->0.len(),
                }
            }),
    {
        let rows = lines(i.as_bytes());
        let nrows: usize = rows.len();
        if nrows == 0 {
            return None;
        }
        let ncols: usize = rows[0].len();
        assert(views(rows@)[0] == rows@[0]@);
        let values = match heights(&rows) {
            Some(v) => v,
            None => {
                return None;
            },
        };
        match nrows.checked_mul(ncols) {
            Some(n) => {
                if n > values.len() {
                    return None;
                }
            },
            None => {
                assert(values.len() == values@.len());
                return None;
            },
        }
        Some(Grid::from_rows(nrows, ncols, values))
    }

    /// The tree in row `c.x`, column `c.y` is listed as standing at the
    /// edge: those of the first and the last row, those of the first
    /// column below the first row, and those below the first row whose
    /// column has the number of the last row.
    pub open spec fn at_edge(&self, c: Coord) -> bool {
        ||| c.x == 0 && c.y < self.ncols()
        ||| c.x == self.nrows() - 1 && c.y < self.ncols()
        ||| c.y == 0 && 1 <= c.x < self.nrows()
        ||| c.y == self.nrows() - 1 && 1 <= c.x < self.nrows()
    }

    /// The trees that are listed as standing at the edge.
    pub fn external_trees(&self) -> (r: Vec<Coord>)
        requires
            self.nrows() >= 1,
        ensures
            forall|c: Coord| #[trigger] r@.contains(c) <==> self.at_edge(c),
    {
        let (nrows, ncols) = self.shape();
        let mut out: Vec<Coord> = Vec::new();
        let mut c: usize = 0;
        while c < ncols
            invariant
                c <= ncols,
                forall|d: Coord| #[trigger] out@.contains(d) <==> d.x == 0 && d.y < c,
            decreases ncols - c,
        {
            let ghost before = out@;
            out.push(Coord::new(0, c));
            proof {
                lemma_pushed(before, Coord { x: 0, y: c });
            }
            c += 1;
        }
        let ghost top = out@;
        c = 0;
        while c < ncols
            invariant
                c <= ncols,
                nrows >= 1,
                forall|d: Coord| #[trigger]
                    out@.contains(d) <==> top.contains(d) || (d.x == nrows - 1 && d.y < c),
            decreases ncols - c,
        {
            let ghost before = out@;
            out.push(Coord::new(nrows - 1, c));
            proof {
                lemma_pushed(before, Coord { x: (nrows - 1) as usize, y: c });
            }
            c += 1;
        }
        let ghost rows = out@;
        let mut r: usize = 1;
        while r < nrows
            invariant
                1 <= r <= nrows,
                forall|d: Coord| #[trigger]
                    out@.contains(d) <==> rows.contains(d) || (d.y == 0 && 1 <= d.x < r),
            decreases nrows - r,
        {
            let ghost before = out@;
            out.push(Coord::new(r, 0));
            proof {
                lemma_pushed(before, Coord { x: r, y: 0 });
            }
            r += 1;
        }
        let ghost left = out@;
        r = 1;
        while r < nrows
            invariant
                1 <= r <= nrows,
                forall|d: Coord| #[trigger]
                    out@.contains(d) <==> left.contains(d) || (d.y == nrows - 1 && 1 <= d.x < r),
            decreases nrows - r,
        {
            let ghost before = out@;
            out.push(Coord::new(r, nrows - 1));
            proof {
                lemma_pushed(before, Coord { x: r, y: (nrows - 1) as usize });
            }
            r += 1;
        }
        out
    }
}

/// What a sequence holds after a push: what it held, and the new value.
pub proof fn lemma_pushed(s: Seq<Coord>, c: Coord)
    ensures
        forall|d: Coord| #[trigger] s.push(c).contains(d) <==> (s.contains(d) || d == c),
{
    let t = s.push(c);
    assert forall|d: Coord| #[trigger] t.contains(d) <==> (s.contains(d) || d == c) by {
        if t.contains(d) {
            let k = choose|k: int| 0 <= k < t.len() && t[k] == d;
            if k < s.len() {
                assert(s[k] == d);
            }
        }
        if s.contains(d) {
            let k = choose|k: int| 0 <= k < s.len() && s[k] == d;
            assert(t[k] == d);
        }
        if d == c {
            assert(t[s.len() as int] == c);
        }
    }
}

impl Grid {
    /// The number of lines that a sweep goes along: rows, or columns where
    /// it goes by column.
    pub open spec fn major_n(&self, by_col: bool) -> int {
        if by_col {
            self.ncols()
        } else {
            self.nrows()
        }
    }

    /// The number of trees in a line of a sweep.
    pub open spec fn minor_n(&self, by_col: bool) -> int {
        if by_col {
            self.nrows()
        } else {
            self.ncols()
        }
    }

    /// The height of the tree at place `b` of line `a` of a sweep.
    pub open spec fn cell(&self, by_col: bool, a: int, b: int) -> int {
        if by_col {
            self.height(b, a)
        } else {
            self.height(a, b)
        }
    }

    /// The tree at place `b` of line `a` of a sweep stands out: the line is
    /// neither the first nor the last, the place is not the last towards
    /// which the sweep goes, and the tree is higher than all trees that
    /// the sweep has passed on the line.
    pub open spec fn seen(&self, by_col: bool, reverse: bool, a: int, b: int) -> bool {
        &&& 1 <= a < self.major_n(by_col) - 1
        &&& if reverse {
            1 <= b < self.minor_n(by_col)
        } else {
            0 <= b < self.minor_n(by_col) - 1
        }
        &&& self.cell(by_col, a, b) > -1
        &&& forall|k: int|
            (if reverse {
                b < k < self.minor_n(by_col)
            } else {
                0 <= k < b
            }) ==> #[trigger] self.cell(by_col, a, k) < self.cell(by_col, a, b)
    }

    /// The tree `c` stands out in a sweep.
    pub open spec fn seen_at(&self, by_col: bool, reverse: bool, c: Coord) -> bool {
        if by_col {
            self.seen(by_col, reverse, c.y as int, c.x as int)
        } else {
            self.seen(by_col, reverse, c.x as int, c.y as int)
        }
    }

    /// The height of the tree at place `b` of line `a` of a sweep.
    fn at(&self, by_col: bool, a: usize, b: usize) -> (v: i32)
        requires
            a < self.major_n(by_col),
            b < self.minor_n(by_col),
        ensures
            v == self.cell(by_col, a as int, b as int),
    {
        if by_col {
            self.get(b, a)
        } else {
            self.get(a, b)
        }
    }

    /// The trees that stand out in a sweep along the rows, or along the
    /// columns where it goes by column; from the far end where it is
    /// reversed.
    pub fn line_visible(&self, by_col: bool, reverse: bool) -> (r: Vec<Coord>)
        ensures
            forall|c: Coord| #[trigger] r@.contains(c) <==> self.seen_at(by_col, reverse, c),
    {
        let (nrows, ncols) = self.shape();
        let (major_n, minor_n) = if by_col {
            (ncols, nrows)
        } else {
            (nrows, ncols)
        };
        let mut out: Vec<Coord> = Vec::new();
        if major_n < 3 || minor_n < 2 {
            return out;
        }
        let mut a: usize = 1;
        while a < major_n - 1
            invariant
                1 <= a <= major_n - 1,
                minor_n >= 2,
                major_n == self.major_n(by_col),
                minor_n == self.minor_n(by_col),
                forall|c: Coord| #[trigger]
                    out@.contains(c) <==> self.seen_at(by_col, reverse, c) && (if by_col {
                        c.y
                    } else {
                        c.x
                    }) < a,
            decreases major_n - a,
        {
            let mut max_val: i32 = -1;
            let ghost done = out@;
            let mut n: usize = 0;
            while n < minor_n - 1
                invariant
                    1 <= a < major_n - 1,
                    minor_n >= 2,
                    n <= minor_n - 1,
                    major_n == self.major_n(by_col),
                    minor_n == self.minor_n(by_col),
                    max_val >= -1,
                    forall|k: int|
                        (if reverse {
                            minor_n - n <= k < minor_n
                        } else {
                            0 <= k < n
                        }) ==> #[trigger] self.cell(by_col, a as int, k) <= max_val,
                    max_val == -1 || exists|k: int|
                        (if reverse {
                            minor_n - n <= k < minor_n
                        } else {
                            0 <= k < n
                        }) && #[trigger] self.cell(by_col, a as int, k) == max_val,
                    forall|c: Coord| #[trigger]
                        out@.contains(c) <==> done.contains(c) || (self.seen_at(
                            by_col,
                            reverse,
                            c,
                        ) && (if by_col {
                            c.y
                        } else {
                            c.x
                        }) == a && (if reverse {
                            minor_n - n <= (if by_col {
                                c.x
                            } else {
                                c.y
                            })
                        } else {
                            (if by_col {
                                c.x
                            } else {
                                c.y
                            }) < n
                        })),
                decreases minor_n - n,
            {
                let b: usize = if reverse {
                    minor_n - 1 - n
                } else {
                    n
                };
                let v = self.at(by_col, a, b);
                let here = if by_col {
                    Coord::new(b, a)
                } else {
                    Coord::new(a, b)
                };
                let ghost before = out@;
                let ghost old_max = max_val;
                proof {
                    if v > old_max {
                        assert(self.seen(by_col, reverse, a as int, b as int));
                    } else {
                        if old_max != -1 {
                            let k = choose|k: int|
                                (if reverse {
                                    minor_n - n <= k < minor_n
                                } else {
                                    0 <= k < n
                                }) && #[trigger] self.cell(by_col, a as int, k) == old_max;
                            assert(!(self.cell(by_col, a as int, k) < v));
                        }
                        assert(!self.seen(by_col, reverse, a as int, b as int));
                    }
                    lemma_pushed(before, here);
                }
                if v > max_val {
                    max_val = v;
                    out.push(here);
                }
                proof {
                    assert(self.cell(by_col, a as int, b as int) == v);
                }
                n += 1;
            }
            a += 1;
        }
        out
    }

    /// The trees that stand out in a sweep along the rows: from the left,
    /// or from the right where it is reversed.
    pub fn row_visible(&self, reverse: bool) -> (r: Vec<Coord>)
        ensures
            forall|c: Coord| #[trigger] r@.contains(c) <==> self.seen_at(false, reverse, c),
    {
        self.line_visible(false, reverse)
    }

    /// The trees that stand out in a sweep along the columns: from the
    /// top, or from the bottom where it is reversed.
    pub fn col_visible(&self, reverse: bool) -> (r: Vec<Coord>)
        ensures
            forall|c: Coord| #[trigger] r@.contains(c) <==> self.seen_at(true, reverse, c),
    {
        self.line_visible(true, reverse)
    }

    /// The tree `c` counts as visible: it is listed as standing at the
    /// edge, or it stands out in one of the four sweeps.
    pub open spec fn visible(&self, c: Coord) -> bool {
        ||| self.at_edge(c)
        ||| self.seen_at(false, false, c)
        ||| self.seen_at(false, true, c)
        ||| self.seen_at(true, false, c)
        ||| self.seen_at(true, true, c)
    }

    /// The trees that count as visible. Nothing where the patch has no row
    /// or no column.
    pub fn visibile_trees(&self) -> (r: Option<TreeSet>)
        ensures
            match r {
                Some(set) => {
                    &&& set.wf()
                    &&& forall|c: Coord| #[trigger] set.0@.contains(c) <==> self.visible(c)
                },
                None => self.nrows() == 0 || self.ncols() == 0,
            },
    {
        let (nrows, ncols) = self.shape();
        if nrows == 0 || ncols == 0 {
            return None;
        }
        let mut set = TreeSet(Vec::new());
        set.insert_all(&self.external_trees());
        set.insert_all(&self.row_visible(false));
        set.insert_all(&self.row_visible(true));
        set.insert_all(&self.col_visible(false));
        set.insert_all(&self.col_visible(true));
        Some(set)
    }

    /// The number of trees that count as visible.
    pub fn visible_count(&self) -> (r: Option<usize>)
        ensures
            match r {
                Some(n) => exists|set: Seq<Coord>|
                    #![trigger set.len()]
                    set.no_duplicates() && set.len() == n && forall|c: Coord| #[trigger]
                        set.contains(c) <==> self.visible(c),
                None => self.nrows() == 0 || self.ncols() == 0,
            },
    {
        match self.visibile_trees() {
            Some(set) => {
                assert(set.0@.len() == set.0.len());
                Some(set.0.len())
            },
            None => None,
        }
    }
}

/// How many trees one sees along a line of sight from a tree of height
/// `value`: all up to the first that is at least as high, that one
/// included.
pub open spec fn view_distance(sight: Seq<int>, value: int) -> nat
    decreases sight.len(),
{
    if sight.len() == 0 {
        0
    } else if sight[0] >= value {
        1
    } else {
        1 + view_distance(sight.drop_first(), value)
    }
}

impl Grid {
    /// The heights along the line of sight from the tree in row `row`,
    /// column `col`, nearest first: upwards for direction 0, downwards for
    /// 1, to the left for 2, to the right for 3.
    pub open spec fn sight(&self, row: int, col: int, dir: int) -> Seq<int> {
        if dir == 0 {
            Seq::new(row as nat, |i: int| self.height(row - 1 - i, col))
        } else if dir == 1 {
            Seq::new((self.nrows() - row - 1) as nat, |i: int| self.height(row + 1 + i, col))
        } else if dir == 2 {
            Seq::new(col as nat, |i: int| self.height(row, col - 1 - i))
        } else {
            Seq::new((self.ncols() - col - 1) as nat, |i: int| self.height(row, col + 1 + i))
        }
    }

    /// How many trees one sees from a tree in one direction.
    pub fn gaze(&self, row: usize, col: usize, dir: u8) -> (r: usize)
        requires
            row < self.nrows(),
            col < self.ncols(),
            dir < 4,
        ensures
            r == view_distance(
                self.sight(row as int, col as int, dir as int),
                self.height(row as int, col as int),
            ),
            r <= self.nrows() + self.ncols(),
    {
        let (nrows, ncols) = self.shape();
        let value = self.get(row, col);
        let ghost sight = self.sight(row as int, col as int, dir as int);
        let n: usize = if dir == 0 {
            row
        } else if dir == 1 {
            nrows - row - 1
        } else if dir == 2 {
            col
        } else {
            ncols - col - 1
        };
        let mut i: usize = 0;
        assert(sight.skip(0) =~= sight);
        while i < n
            invariant
                i <= n,
                n == sight.len(),
                dir < 4,
                row < self.nrows(),
                col < self.ncols(),
                nrows == self.nrows(),
                ncols == self.ncols(),
                n <= nrows + ncols,
                sight == self.sight(row as int, col as int, dir as int),
                value == self.height(row as int, col as int),
                view_distance(sight, value as int) == i + view_distance(
                    sight.skip(i as int),
                    value as int,
                ),
            decreases n - i,
        {
            let h = if dir == 0 {
                self.get(row - 1 - i, col)
            } else if dir == 1 {
                self.get(row + 1 + i, col)
            } else if dir == 2 {
                self.get(row, col - 1 - i)
            } else {
                self.get(row, col + 1 + i)
            };
            proof {
                assert(sight.skip(i as int)[0] == sight[i as int]);
                assert(sight[i as int] == h);
                assert(sight.skip(i as int).drop_first() =~= sight.skip(i + 1));
            }
            if h >= value {
                return i + 1;
            }
            i += 1;
        }
        i
    }

    /// The scenic score of a tree: the product of the numbers of trees
    /// that one sees from it upwards, downwards, to the left and to the
    /// right.
    pub open spec fn spec_scenic_score(&self, row: int, col: int) -> nat {
        view_distance(self.sight(row, col, 0), self.height(row, col)) * view_distance(
            self.sight(row, col, 1),
            self.height(row, col),
        ) * view_distance(self.sight(row, col, 2), self.height(row, col)) * view_distance(
            self.sight(row, col, 3),
            self.height(row, col),
        )
    }

    /// The scenic score of the tree in row `row`, column `col`. Nothing
    /// where there is no such tree or the score is too large for the
    /// machine.
    pub fn scenic_score(&self, row: usize, col: usize) -> (r: Option<usize>)
        ensures
            match r {
                Some(s) => row < self.nrows() && col < self.ncols() && s
                    == self.spec_scenic_score(row as int, col as int),
                None => row >= self.nrows() || col >= self.ncols() || self.spec_scenic_score(
                    row as int,
                    col as int,
                ) > usize::MAX,
            },
    {
        let (nrows, ncols) = self.shape();
        if row >= nrows || col >= ncols {
            return None;
        }
        let up = self.gaze(row, col, 0);
        let down = self.gaze(row, col, 1);
        let left = self.gaze(row, col, 2);
        let right = self.gaze(row, col, 3);
        proof {
            assert(up * down * left <= up * down * left * right || right == 0) by (nonlinear_arith)
                requires
                    up >= 0,
                    down >= 0,
                    left >= 0,
                    right >= 0,
            ;
            assert(up * down <= up * down * left || left == 0) by (nonlinear_arith)
                requires
                    up >= 0,
                    down >= 0,
                    left >= 0,
            ;
            assert(right == 0 ==> up * down * left * right == 0) by (nonlinear_arith);
            assert(left == 0 ==> up * down * left * right == 0) by (nonlinear_arith);
        }
        if left == 0 || right == 0 {
            return Some(0);
        }
        match up.checked_mul(down) {
            Some(a) => match a.checked_mul(left) {
                Some(b) => b.checked_mul(right),
                None => None,
            },
            None => None,
        }
    }

    /// The tree with the greatest scenic score, the last such row by row,
    /// and its score. Nothing where there is no tree or a score is too
    /// large for the machine.
    pub fn max_scenic_score(&self) -> (r: Option<((usize, usize), usize)>)
        ensures
            match r {
                Some(((row, col), best)) => {
                    &&& row < self.nrows()
                    &&& col < self.ncols()
                    &&& best == self.spec_scenic_score(row as int, col as int)
                    &&& forall|i: int, j: int|
                        0 <= i < self.nrows() && 0 <= j < self.ncols() ==> #[trigger] self.spec_scenic_score(
                            i,
                            j,
                        ) <= best
                    &&& forall|i: int, j: int|
                        0 <= i < self.nrows() && 0 <= j < self.ncols() && (i > row || (i == row
                            && j > col)) ==> #[trigger] self.spec_scenic_score(i, j) < best
                },
                None => self.nrows() == 0 || self.ncols() == 0 || exists|i: int, j: int|
                    0 <= i < self.nrows() && 0 <= j < self.ncols() && #[trigger] self.spec_scenic_score(
                        i,
                        j,
                    ) > usize::MAX,
            },
    {
        let (nrows, ncols) = self.shape();
        if nrows == 0 || ncols == 0 {
            return None;
        }
        let mut best: usize = match self.scenic_score(0, 0) {
            Some(s) => s,
            None => {
                return None;
            },
        };
        let mut at: (usize, usize) = (0, 0);
        let mut row: usize = 0;
        while row < nrows
            invariant
                row <= nrows,
                nrows == self.nrows(),
                ncols == self.ncols(),
                ncols > 0,
                at.0 < nrows,
                at.1 < ncols,
                row == 0 ==> at == (0usize, 0usize),
                row > 0 ==> at.0 < row,
                best == self.spec_scenic_score(at.0 as int, at.1 as int),
                forall|i: int, j: int|
                    0 <= i < row && 0 <= j < ncols ==> #[trigger] self.spec_scenic_score(i, j)
                        <= best,
                forall|i: int, j: int|
                    0 <= i < row && 0 <= j < ncols && (i > at.0 || (i == at.0 && j > at.1))
                        ==> #[trigger] self.spec_scenic_score(i, j) < best,
            decreases nrows - row,
        {
            let mut col: usize = 0;
            while col < ncols
                invariant
                    row < nrows,
                    col <= ncols,
                    nrows == self.nrows(),
                    ncols == self.ncols(),
                    at.0 < nrows,
                    at.1 < ncols,
                    (row == 0 && col == 0) ==> at == (0usize, 0usize),
                    !(row == 0 && col == 0) ==> (at.0 < row || (at.0 == row && at.1 < col)),
                    best == self.spec_scenic_score(at.0 as int, at.1 as int),
                    forall|i: int, j: int|
                        0 <= i < nrows && 0 <= j < ncols && (i < row || (i == row && j < col))
                            ==> #[trigger] self.spec_scenic_score(i, j) <= best,
                    forall|i: int, j: int|
                        0 <= i < nrows && 0 <= j < ncols && (i < row || (i == row && j < col)) && (i
                            > at.0 || (i == at.0 && j > at.1)) ==> #[trigger] self.spec_scenic_score(
                            i,
                            j,
                        ) < best,
                decreases ncols - col,
            {
                let score = match self.scenic_score(row, col) {
                    Some(s) => s,
                    None => {
                        return None;
                    },
                };
                if score >= best {
                    best = score;
                    at = (row, col);
                }
                col += 1;
            }
            row += 1;
        }
        Some((at, best))
    }
}

} // verus!
