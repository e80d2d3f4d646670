//! The terrain grid: squares with an elevation, stored row by row, and the
//! rule that says which neighbouring square a climber may step onto.

use vstd::prelude::*;
use vstd::std_specs::convert::FromSpecImpl;
use vstd::string::StringSliceAdditionalSpecFns;
use crate::text::{lines, spec_lines, views};

verus! {

/// The highest elevation a square can have.
pub const TOP: usize = 25;

/// One square of the terrain.
#[derive(Copy, Clone, Debug, PartialEq, Eq, Structural)]
pub enum Cell {
    Start,
    End,
    Square(usize),
}

impl Cell {
    /// The elevation of a square: the start lies lowest, the end highest.
    pub open spec fn spec_elevation(&self) -> int {
        match self {
            Cell::Start => 0,
            Cell::End => TOP as int,
            Cell::Square(n) => *n as int,
        }
    }

    /// A square is valid when its elevation is at most `TOP`.
    pub open spec fn wf(&self) -> bool {
        0 <= self.spec_elevation() <= TOP
    }

    /// The elevation of the square.
    pub fn elevation(&self) -> (e: usize)
        ensures
            e == self.spec_elevation(),
    {
        match self {
            Cell::Start => 0,
            Cell::End => TOP,
            Cell::Square(n) => *n,
        }
    }

    /// The square that a byte of the map stands for.
    pub open spec fn spec_from_byte(b: u8) -> Option<Cell> {
        if b == 'S' as u8 {
            Some(Cell::Start)
        } else if b == 'E' as u8 {
            Some(Cell::End)
        } else if 'a' as u8 <= b <= 'z' as u8 {
            Some(Cell::Square((b - 'a' as u8) as usize))
        } else {
            None
        }
    }

    /// Reads one byte of the map: `S`, `E`, or a lower-case letter, whose
    /// place in the alphabet is the elevation. Any other byte is no square.
    pub fn from_byte(b: u8) -> (r: Option<Cell>)
        ensures
            r == Cell::spec_from_byte(b),
            r is Some ==> r->0.wf(),
    {
        if b == 83 {
            Some(Cell::Start)
        } else if b == 69 {
            Some(Cell::End)
        } else if 97 <= b && b <= 122 {
            Some(Cell::Square((b - 97) as usize))
        } else {
            None
        }
    }

    /// The byte that stands for a square in the map.
    pub fn to_byte(&self) -> (b: u8)
        requires
            self.wf(),
        ensures
            Cell::spec_from_byte(b) == Some(*self),
    {
        match self {
            Cell::Start => 83,
            Cell::End => 69,
            Cell::Square(n) => 97 + (*n as u8),
        }
    }
}

/// A position on the grid: column `x`, row `y`.
#[derive(Copy, Clone, Debug, PartialEq, Eq, Hash, Structural)]
pub struct Coord {
    pub x: usize,
    pub y: usize,
}

impl Coord {
    /// The position in column `x`, row `y`.
    pub fn new(x: usize, y: usize) -> (c: Coord)
        ensures
            c.x == x,
            c.y == y,
    {
        Coord { x, y }
    }
}

impl std::convert::From<(usize, usize)> for Coord {
    fn from(value: (usize, usize)) -> (c: Coord) {
        Coord { x: value.0, y: value.1 }
    }
}

impl FromSpecImpl<(usize, usize)> for Coord {
    open spec fn obeys_from_spec() -> bool {
        true
    }

    open spec fn from_spec(value: (usize, usize)) -> Coord {
        Coord { x: value.0, y: value.1 }
    }
}

/// Two positions are adjacent when they differ by one in exactly one of
/// column and row.
pub open spec fn adjacent(a: Coord, b: Coord) -> bool {
    ||| (a.y == b.y && (a.x + 1 == b.x || b.x + 1 == a.x))
    ||| (a.x == b.x && (a.y + 1 == b.y || b.y + 1 == a.y))
}

/// The position `(dx, dy)` away from `c`, unless a coordinate of it would be
/// negative or too large to store.
pub open spec fn moved(c: Coord, dx: int, dy: int) -> Option<Coord> {
    if 0 <= c.x + dx <= usize::MAX && 0 <= c.y + dy <= usize::MAX {
        Some(Coord { x: (c.x + dx) as usize, y: (c.y + dy) as usize })
    } else {
        None
    }
}

/// Why a map could not be read or searched.
#[derive(Copy, Clone, Debug, PartialEq, Eq, Structural)]
pub enum GridError {
    /// A byte that stands for no square, rows of different lengths, or no
    /// row at all.
    MalformedInput,
    /// The square that was asked for is not on the map.
    MissingMarker,
}

/// A terrain of `width` by `height` squares, stored row by row.
pub struct Grid {
    pub height: usize,
    pub width: usize,
    pub cells: Vec<Cell>,
}

/// The squares of a map given as rows of bytes, row by row; `None` where a
/// byte stands for no square.
pub open spec fn spec_cells(rows: Seq<Seq<u8>>) -> Option<Seq<Cell>>
    decreases rows.len(),
{
    if rows.len() == 0 {
        Some(Seq::empty())
    } else {
        match (spec_cells(rows.drop_last()), spec_row(rows.last())) {
            (Some(above), Some(row)) => Some(above + row),
            _ => None,
        }
    }
}

/// The squares of one row of bytes; `None` where a byte stands for no square.
pub open spec fn spec_row(row: Seq<u8>) -> Option<Seq<Cell>> {
    if forall|i: int| 0 <= i < row.len() ==> Cell::spec_from_byte(#[trigger] row[i]) is Some {
        Some(Seq::new(row.len(), |i: int| Cell::spec_from_byte(row[i])->0))
    } else {
        None
    }
}

/// All rows are as long as the first.
pub open spec fn rectangular(rows: Seq<Seq<u8>>) -> bool {
    forall|i: int| 0 <= i < rows.len() ==> (#[trigger] rows[i]).len() == rows[0].len()
}

/// The width, the height and the squares of the map that a text holds: one
/// row per line, at least one, all of one length, every byte a square.
pub open spec fn spec_parse(text: Seq<u8>) -> Option<(nat, nat, Seq<Cell>)> {
    let rows = spec_lines(text);
    if rows.len() > 0 && rectangular(rows) {
        match spec_cells(rows) {
            Some(cells) => Some((rows[0].len(), rows.len(), cells)),
            None => None,
        }
    } else {
        None
    }
}

/// Rows that begin with rows that hold a byte that is no square hold one too.
pub proof fn lemma_cells_prefix(rows: Seq<Seq<u8>>, n: int)
    requires
        0 <= n <= rows.len(),
        spec_cells(rows.take(n)) is None,
    ensures
        spec_cells(rows) is None,
    decreases rows.len(),
{
    if n == rows.len() {
        assert(rows.take(n) =~= rows);
    } else {
        assert(rows.drop_last().take(n) =~= rows.take(n));
        lemma_cells_prefix(rows.drop_last(), n);
    }
}

impl Grid {
    /// The grid holds `width * height` valid squares.
    pub open spec fn wf(&self) -> bool {
        &&& self.cells@.len() == self.width * self.height
        &&& forall|i: int| 0 <= i < self.cells@.len() ==> (#[trigger] self.cells@[i]).wf()
    }

    /// `c` lies on the grid.
    pub open spec fn contains(&self, c: Coord) -> bool {
        c.x < self.width && c.y < self.height
    }

    /// The place of `c` in the row-by-row storage.
    #[verifier::opaque]
    pub open spec fn index_of(&self, c: Coord) -> int {
        c.y * self.width + c.x
    }

    /// The position stored at `index`.
    pub open spec fn coord_at(&self, index: int) -> Coord {
        Coord { x: (index % self.width as int) as usize, y: (index / self.width as int) as usize }
    }

    /// The square at `c`.
    pub open spec fn at(&self, c: Coord) -> Cell {
        self.cells@[self.index_of(c)]
    }

    /// The elevation at `c`.
    pub open spec fn level(&self, c: Coord) -> int {
        self.at(c).spec_elevation()
    }

    /// The climbing rule: from `a` one may step onto the adjacent `b` when
    /// `b` lies at most one level higher.
    pub open spec fn can_step(&self, a: Coord, b: Coord) -> bool {
        &&& self.contains(a)
        &&& self.contains(b)
        &&& adjacent(a, b)
        &&& self.level(b) <= self.level(a) + 1
    }

    /// An edge of the terrain graph from `a` to `b`: looking forward, the
    /// step from `a` to `b` is allowed; looking backward, the step from `b`
    /// to `a` is.
    pub open spec fn link(&self, backward: bool, a: Coord, b: Coord) -> bool {
        if backward {
            self.can_step(b, a)
        } else {
            self.can_step(a, b)
        }
    }

    /// The position `(dx, dy)` away from `c`, if there is one, kept when an
    /// edge leads from `c` to it.
    pub open spec fn link_toward(&self, backward: bool, c: Coord, dx: int, dy: int) -> Seq<Coord> {
        match moved(c, dx, dy) {
            Some(d) => if self.link(backward, c, d) {
                seq![d]
            } else {
                Seq::empty()
            },
            None => Seq::empty(),
        }
    }

    /// The ends of the edges that leave `c`: left, right, up, down.
    pub open spec fn spec_links(&self, backward: bool, c: Coord) -> Seq<Coord> {
        self.link_toward(backward, c, -1, 0) + self.link_toward(backward, c, 1, 0)
            + self.link_toward(backward, c, 0, -1) + self.link_toward(backward, c, 0, 1)
    }

    /// The squares one may step onto from `c`: left, right, up, down.
    pub open spec fn spec_neighbors(&self, c: Coord) -> Seq<Coord> {
        self.spec_links(false, c)
    }

    /// The first place in the storage that holds `cell`, if any.
    pub open spec fn first_index(&self, cell: Cell) -> Option<int> {
        if exists|i: int| 0 <= i < self.cells@.len() && self.cells@[i] == cell {
            Some(
                choose|i: int|
                    0 <= i < self.cells@.len() && self.cells@[i] == cell && forall|j: int|
                        0 <= j < i ==> self.cells@[j] != cell,
            )
        } else {
            None
        }
    }

    /// A position on the grid has a place of its own in the storage.
    pub proof fn lemma_index_in_range(&self, c: Coord)
        requires
            self.contains(c),
        ensures
            0 <= self.index_of(c) < self.width * self.height,
            self.coord_at(self.index_of(c)) == c,
    {
        reveal(Grid::index_of);
        let w = self.width as int;
        let h = self.height as int;
        let x = c.x as int;
        let y = c.y as int;
        assert(y * w + x < w * h) by (nonlinear_arith)
            requires
                0 <= x < w,
                0 <= y < h,
        ;
        assert(0 <= y * w) by (nonlinear_arith)
            requires
                0 <= y,
                0 <= w,
        ;
        vstd::arithmetic::div_mod::lemma_fundamental_div_mod_converse(y * w + x, w, y, x);
    }

    /// Every place in the storage stands for a position on the grid.
    pub proof fn lemma_coord_in_range(&self, index: int)
        requires
            0 <= index < self.width * self.height,
        ensures
            self.contains(self.coord_at(index)),
            self.index_of(self.coord_at(index)) == index,
    {
        reveal(Grid::index_of);
        let w = self.width as int;
        let h = self.height as int;
        assert(w > 0) by (nonlinear_arith)
            requires
                0 <= index < w * h,
                0 <= w,
        ;
        vstd::arithmetic::div_mod::lemma_fundamental_div_mod(index, w);
        vstd::arithmetic::div_mod::lemma_mod_bound(index, w);
        let q = index / w;
        let r = index % w;
        assert(0 <= q < h) by (nonlinear_arith)
            requires
                index == w * q + r,
                0 <= r < w,
                0 <= index < w * h,
        ;
        assert(q * w == w * q) by (nonlinear_arith);
    }

    /// Reads a map from the bytes of a text.
    pub fn from_bytes(text: &[u8]) -> (r: Result<Grid, GridError>)
        ensures
            match spec_parse(text@) {
                Some((width, height, cells)) => {
                    &&& r is Ok
                    &&& r->Ok_0.wf()
                    &&& r->Ok_0.width == width
                    &&& r->Ok_0.height == height
                    &&& r->Ok_0.cells@ == cells
                },
                None => r == Err::<Grid, GridError>(GridError::MalformedInput),
            },
    {
        let rows = lines(text);
        let ghost all = views(rows@);
        let height: usize = rows.len();
        if height == 0 {
            return Err(GridError::MalformedInput);
        }
        let width: usize = rows[0].len();
        let mut cells: Vec<Cell> = Vec::new();
        let mut i: usize = 0;
        assert(all.take(0) =~= Seq::<Seq<u8>>::empty());
        while i < height
            invariant
                all == views(rows@),
                all == spec_lines(text@),
                height == rows@.len(),
                height > 0,
                width == rows@[0]@.len(),
                i <= height,
                spec_cells(all.take(i as int)) == Some(cells@),
                forall|k: int| 0 <= k < i ==> (#[trigger] all[k]).len() == width,
                cells@.len() == i * width,
                forall|k: int| 0 <= k < cells@.len() ==> (#[trigger] cells@[k]).wf(),
            decreases height - i,
        {
            let row = &rows[i];
            let ghost bytes = all[i as int];
            let ghost above = cells@;
            if row.len() != width {
                assert(all[i as int].len() != all[0].len());
                return Err(GridError::MalformedInput);
            }
            let mut j: usize = 0;
            while j < width
                invariant
                    j <= width == row@.len(),
                    bytes == row@,
                    cells@ == above + Seq::new(j as nat, |k: int| Cell::spec_from_byte(bytes[k])->0),
                    forall|k: int| 0 <= k < j ==> Cell::spec_from_byte(#[trigger] bytes[k]) is Some,
                    forall|k: int| 0 <= k < cells@.len() ==> (#[trigger] cells@[k]).wf(),
                    all == spec_lines(text@),
                    0 <= i < all.len(),
                    bytes == all[i as int],
                    spec_cells(all.take(i as int)) == Some(above),
                decreases width - j,
            {
                match Cell::from_byte(row[j]) {
                    Some(c) => {
                        cells.push(c);
                        assert(cells@ =~= above + Seq::new(
                            (j + 1) as nat,
                            |k: int| Cell::spec_from_byte(bytes[k])->0,
                        ));
                    },
                    None => {
                        proof {
                            assert(spec_row(bytes) is None);
                            assert(all.take(i + 1).drop_last() =~= all.take(i as int));
                            assert(all.take(i + 1).last() == bytes);
                            lemma_cells_prefix(all, i + 1);
                        }
                        return Err(GridError::MalformedInput);
                    },
                }
                j += 1;
            }
            proof {
                assert(all.take(i + 1).drop_last() =~= all.take(i as int));
                assert(all.take(i + 1).last() == bytes);
                assert(spec_row(bytes) == Some(
                    Seq::new(bytes.len(), |k: int| Cell::spec_from_byte(bytes[k])->0),
                ));
                assert((i + 1) * width == i * width + width) by (nonlinear_arith);
            }
            i += 1;
        }
        proof {
            assert(all.take(height as int) =~= all);
            assert(all[0] == rows@[0]@);
            assert(rectangular(all));
            assert(height * width == width * height) by (nonlinear_arith);
        }
        Ok(Grid { height, width, cells })
    }

    /// Reads a map: one row per line, each byte a square (`S`, `E`, or a
    /// lower-case letter for the elevation). Rows of different lengths, a
    /// byte that is no square, and a text without lines are malformed.
    pub fn parse(input: &str) -> (r: Result<Grid, GridError>)
        ensures
            match spec_parse(input.spec_bytes()) {
                Some((width, height, cells)) => {
                    &&& r is Ok
                    &&& r->Ok_0.wf()
                    &&& r->Ok_0.width == width
                    &&& r->Ok_0.height == height
                    &&& r->Ok_0.cells@ == cells
                },
                None => r == Err::<Grid, GridError>(GridError::MalformedInput),
            },
    {
        Grid::from_bytes(input.as_bytes())
    }

    /// The position that `index` stands for: column `index % width`, row
    /// `index / width`.
    pub fn idx2coord(&self, index: usize) -> (c: Coord)
        requires
            self.width > 0,
        ensures
            c == self.coord_at(index as int),
            c.x == index % self.width,
            c.y == index / self.width,
    {
        let x: usize = index % self.width;
        proof {
            vstd::arithmetic::div_mod::lemma_mod_decreases(index as nat, self.width as nat);
        }
        let y: usize = (index - x) / self.width;
        proof {
            let w = self.width as int;
            let i = index as int;
            vstd::arithmetic::div_mod::lemma_fundamental_div_mod(i, w);
            vstd::arithmetic::div_mod::lemma_div_multiples_vanish(i / w, w);
            assert(i - i % w == w * (i / w));
            assert(w * (i / w) == (i / w) * w) by (nonlinear_arith);
        }
        Coord { x, y }
    }

    /// The place of `coord`, a square of the grid, in the storage.
    pub fn index(&self, coord: &Coord) -> (i: usize)
        requires
            self.wf(),
            self.contains(*coord),
        ensures
            i == self.index_of(*coord),
            i < self.cells@.len(),
    {
        proof {
            self.lemma_index_in_range(*coord);
            reveal(Grid::index_of);
            assert(self.cells.len() == self.cells@.len());
            let w = self.width as int;
            let y = coord.y as int;
            assert(0 <= y * w) by (nonlinear_arith)
                requires
                    0 <= y,
                    0 <= w,
            ;
        }
        coord.y * self.width + coord.x
    }

    /// Whether `coord` lies on the grid.
    pub fn in_bounds(&self, coord: &Coord) -> (b: bool)
        ensures
            b == self.contains(*coord),
    {
        (coord.x < self.width) && (coord.y < self.height)
    }

    /// The square at `coord`, or nothing where `coord` lies off the grid.
    pub fn cell(&self, coord: &Coord) -> (r: Option<&Cell>)
        requires
            self.wf(),
        ensures
            r is Some <==> self.contains(*coord),
            r is Some ==> *r->0 == self.at(*coord),
    {
        if self.in_bounds(coord) {
            let idx: usize = self.index(coord);
            Some(&self.cells[idx])
        } else {
            None
        }
    }
    /// The position of the first square, row by row, that equals `cell`.
    pub open spec fn spec_locate(&self, cell: Cell) -> Result<Coord, GridError> {
        match self.first_index(cell) {
            Some(i) => Ok(self.coord_at(i)),
            None => Err(GridError::MissingMarker),
        }
    }

    /// Scans the squares row by row for the first that equals `cell`.
    pub fn locate(&self, cell: Cell) -> (r: Result<Coord, GridError>)
        requires
            self.wf(),
        ensures
            r == self.spec_locate(cell),
            r is Ok ==> self.contains(r->Ok_0) && self.at(r->Ok_0) == cell,
            r is Err <==> forall|i: int| 0 <= i < self.cells@.len() ==> self.cells@[i] != cell,
    {
        let mut i: usize = 0;
        while i < self.cells.len()
            invariant
                self.wf(),
                i <= self.cells@.len(),
                forall|j: int| 0 <= j < i ==> self.cells@[j] != cell,
            decreases self.cells@.len() - i,
        {
            if self.cells[i] == cell {
                proof {
                    let w = self.width as int;
                    let h = self.height as int;
                    assert(w > 0) by (nonlinear_arith)
                        requires
                            0 <= i < w * h,
                            0 <= w,
                    ;
                    self.lemma_coord_in_range(i as int);
                    let k = self.first_index(cell)->0;
                    assert(k == i);
                }
                return Ok(self.idx2coord(i));
            }
            i += 1;
        }
        Err(GridError::MissingMarker)
    }

    /// Where the climb starts: the first `Start` square, row by row.
    pub fn start(&self) -> (r: Result<Coord, GridError>)
        requires
            self.wf(),
        ensures
            r == self.spec_locate(Cell::Start),
            r is Ok ==> self.contains(r->Ok_0) && self.at(r->Ok_0) == Cell::Start,
            r is Err <==> forall|i: int|
                0 <= i < self.cells@.len() ==> self.cells@[i] != Cell::Start,
    {
        self.locate(Cell::Start)
    }

    /// Where the climb ends: the first `End` square, row by row.
    pub fn end(&self) -> (r: Result<Coord, GridError>)
        requires
            self.wf(),
        ensures
            r == self.spec_locate(Cell::End),
            r is Ok ==> self.contains(r->Ok_0) && self.at(r->Ok_0) == Cell::End,
            r is Err <==> forall|i: int| 0 <= i < self.cells@.len() ==> self.cells@[i] != Cell::End,
    {
        self.locate(Cell::End)
    }

    /// The map as text: one row of bytes per row of squares.
    pub fn render(&self) -> (r: Vec<Vec<u8>>)
        requires
            self.wf(),
        ensures
            r@.len() == self.height,
            forall|y: int| 0 <= y < self.height ==> (#[trigger] r@[y])@.len() == self.width,
            forall|x: int, y: int|
                0 <= x < self.width && 0 <= y < self.height ==> Cell::spec_from_byte(
                    #[trigger] r@[y]@[x],
                ) == Some(self.at(Coord { x: x as usize, y: y as usize })),
    {
        let mut out: Vec<Vec<u8>> = Vec::new();
        let mut y: usize = 0;
        while y < self.height
            invariant
                self.wf(),
                y <= self.height,
                out@.len() == y,
                forall|j: int| 0 <= j < y ==> (#[trigger] out@[j])@.len() == self.width,
                forall|i: int, j: int|
                    0 <= i < self.width && 0 <= j < y ==> Cell::spec_from_byte(
                        #[trigger] out@[j]@[i],
                    ) == Some(self.at(Coord { x: i as usize, y: j as usize })),
            decreases self.height - y,
        {
            let mut row: Vec<u8> = Vec::new();
            let mut x: usize = 0;
            while x < self.width
                invariant
                    self.wf(),
                    y < self.height,
                    x <= self.width,
                    row@.len() == x,
                    forall|i: int|
                        0 <= i < x ==> Cell::spec_from_byte(#[trigger] row@[i]) == Some(
                            self.at(Coord { x: i as usize, y: y }),
                        ),
                decreases self.width - x,
            {
                let c = Coord { x, y };
                let at = self.index(&c);
                row.push(self.cells[at].to_byte());
                x += 1;
            }
            out.push(row);
            y += 1;
        }
        out
    }

    /// The edges that leave `c` are exactly those that `spec_links` lists,
    /// each once.
    pub proof fn lemma_links_exact(&self, backward: bool, c: Coord)
        ensures
            forall|d: Coord| #[trigger]
                self.spec_links(backward, c).contains(d) <==> self.link(backward, c, d),
            self.spec_links(backward, c).no_duplicates(),
            self.spec_links(backward, c).len() <= 4,
    {
        let l = self.link_toward(backward, c, -1, 0);
        let r = self.link_toward(backward, c, 1, 0);
        let u = self.link_toward(backward, c, 0, -1);
        let d = self.link_toward(backward, c, 0, 1);
        let all = self.spec_links(backward, c);
        assert(all == l + r + u + d);
        assert forall|e: Coord| #[trigger] all.contains(e) <==> self.link(backward, c, e) by {
            if all.contains(e) {
                let i = choose|i: int| 0 <= i < all.len() && all[i] == e;
                assert(self.link(backward, c, e));
            }
            if self.link(backward, c, e) {
                assert(adjacent(c, e));
                if e.y == c.y && e.x + 1 == c.x {
                    assert(moved(c, -1, 0) == Some(e));
                    assert(l[0] == e);
                    assert(all[0] == e);
                } else if e.y == c.y && c.x + 1 == e.x {
                    assert(moved(c, 1, 0) == Some(e));
                    assert(r[0] == e);
                    assert(all[l.len() as int] == e);
                } else if e.x == c.x && e.y + 1 == c.y {
                    assert(moved(c, 0, -1) == Some(e));
                    assert(u[0] == e);
                    assert(all[(l.len() + r.len()) as int] == e);
                } else {
                    assert(moved(c, 0, 1) == Some(e));
                    assert(d[0] == e);
                    assert(all[(l.len() + r.len() + u.len()) as int] == e);
                }
            }
        }
    }

    /// Adds to `out` the position `(dx, dy)` away from `from` when an edge
    /// leads there.
    fn push_link(&self, backward: bool, from: &Coord, dx: isize, dy: isize, out: &mut Vec<Coord>)
        requires
            self.wf(),
            self.contains(*from),
        ensures
            final(out)@ == old(out)@ + self.link_toward(backward, *from, dx as int, dy as int),
    {
        let ghost before = out@;
        let x = from.x.checked_add_signed(dx);
        let y = from.y.checked_add_signed(dy);
        if let (Some(x), Some(y)) = (x, y) {
            let to = Coord { x, y };
            assert(moved(*from, dx as int, dy as int) == Some(to));
            if let Some(there) = self.cell(&to) {
                let here = self.cell(from).unwrap();
                let (low, high) = if backward {
                    (there, here)
                } else {
                    (here, there)
                };
                assert(low.wf() && high.wf()) by {
                    self.lemma_index_in_range(*from);
                    self.lemma_index_in_range(to);
                }
                assert(adjacent(*from, to) <==> adjacent(to, *from));
                if high.elevation() <= low.elevation() + 1 {
                    if is_adjacent(from, &to) {
                        out.push(to);
                        assert(out@ =~= before + seq![to]);
                        return ;
                    }
                }
            }
        }
        assert(out@ =~= before + Seq::<Coord>::empty());
    }

    /// The ends of the edges that leave `coord`, forward or backward.
    pub fn links(&self, backward: bool, coord: &Coord) -> (r: Vec<Coord>)
        requires
            self.wf(),
            self.contains(*coord),
        ensures
            r@ == self.spec_links(backward, *coord),
            forall|d: Coord| #[trigger] r@.contains(d) <==> self.link(backward, *coord, d),
            r@.no_duplicates(),
            r@.len() <= 4,
    {
        let mut out: Vec<Coord> = Vec::new();
        self.push_link(backward, coord, -1, 0, &mut out);
        self.push_link(backward, coord, 1, 0, &mut out);
        self.push_link(backward, coord, 0, -1, &mut out);
        self.push_link(backward, coord, 0, 1, &mut out);
        proof {
            assert(out@ =~= self.spec_links(backward, *coord));
            self.lemma_links_exact(backward, *coord);
        }
        out
    }

    /// The squares that one may step onto from `coord`: those beside it,
    /// without diagonals, that lie on the grid and at most one level higher.
    pub fn walkable_neighbors(&self, coord: &Coord) -> (r: Vec<Coord>)
        requires
            self.wf(),
            self.contains(*coord),
        ensures
            r@ == self.spec_neighbors(*coord),
            forall|d: Coord| #[trigger] r@.contains(d) <==> self.can_step(*coord, d),
            forall|i: int| 0 <= i < r@.len() ==> self.contains(#[trigger] r@[i]),
            forall|i: int|
                0 <= i < r@.len() ==> self.level(#[trigger] r@[i]) <= self.level(*coord) + 1,
            r@.no_duplicates(),
            r@.len() <= 4,
    {
        let r = self.links(false, coord);
        proof {
            assert forall|i: int| 0 <= i < r@.len() implies self.can_step(
                *coord,
                #[trigger] r@[i],
            ) by {
                assert(r@.contains(r@[i]));
            }
        }
        r
    }
}

/// Whether two positions are adjacent.
pub fn is_adjacent(a: &Coord, b: &Coord) -> (r: bool)
    ensures
        r == adjacent(*a, *b),
{
    if a.y == b.y {
        (a.x < usize::MAX && a.x + 1 == b.x) || (b.x < usize::MAX && b.x + 1 == a.x)
    } else if a.x == b.x {
        (a.y < usize::MAX && a.y + 1 == b.y) || (b.y < usize::MAX && b.y + 1 == a.y)
    } else {
        false
    }
}

} // verus!
