//! Sand that falls through a cave of rock: the lines of rock, the cave as a
//! grid, and the fall of a grain step by step.

use vstd::prelude::*;
use vstd::std_specs::convert::FromSpecImpl;
use vstd::std_specs::ops::{AddSpecImpl, SubSpecImpl};
use vstd::string::StringSliceAdditionalSpecFns;
use crate::headtail::spec_signum;
use crate::text::{
    lines, parse_signed, spec_each, spec_lines, spec_signed, spec_split, split, views,
};

verus! {

#[derive(Debug, PartialEq, Eq, Copy, Clone, Structural)]
pub struct Point {
    pub x: i32,
    pub y: i32,
}

impl std::ops::Add for Point {
    type Output = Self;

    fn add(self, other: Self) -> (r: Self) {
        Point { x: self.x + other.x, y: self.y + other.y }
    }
}

impl AddSpecImpl for Point {
    open spec fn obeys_add_spec() -> bool {
        true
    }

    open spec fn add_req(self, other: Point) -> bool {
        &&& i32::MIN <= self.x + other.x <= i32::MAX
        &&& i32::MIN <= self.y + other.y <= i32::MAX
    }

    open spec fn add_spec(self, other: Point) -> Point {
        Point { x: (self.x + other.x) as i32, y: (self.y + other.y) as i32 }
    }
}

impl std::ops::Sub for Point {
    type Output = Self;

    fn sub(self, other: Self) -> (r: Self) {
        Point { x: self.x - other.x, y: self.y - other.y }
    }
}

impl SubSpecImpl for Point {
    open spec fn obeys_sub_spec() -> bool {
        true
    }

    open spec fn sub_req(self, other: Point) -> bool {
        &&& i32::MIN <= self.x - other.x <= i32::MAX
        &&& i32::MIN <= self.y - other.y <= i32::MAX
    }

    open spec fn sub_spec(self, other: Point) -> Point {
        Point { x: (self.x - other.x) as i32, y: (self.y - other.y) as i32 }
    }
}

impl std::convert::From<(i32, i32)> for Point {
    fn from(value: (i32, i32)) -> (p: Self) {
        Point { x: value.0, y: value.1 }
    }
}

impl FromSpecImpl<(i32, i32)> for Point {
    open spec fn obeys_from_spec() -> bool {
        true
    }

    open spec fn from_spec(value: (i32, i32)) -> Point {
        Point { x: value.0, y: value.1 }
    }
}

/// The sign of a number: -1, 0 or 1.
pub fn sign(x: i64) -> (r: i32)
    ensures
        r == spec_signum(x as int),
{
    if x > 0 {
        1
    } else if x < 0 {
        -1
    } else {
        0
    }
}

/// The whole number that the whole of `s` writes, if it fits 32 bits.
pub open spec fn spec_i32(s: Seq<u8>) -> Option<int> {
    spec_signed(s, i32::MIN as int, i32::MAX as int)
}

impl Point {
    /// The point that `s` writes: two whole numbers with a comma between
    /// them. What follows a second comma is not read.
    pub open spec fn spec_parse(s: Seq<u8>) -> Option<Point> {
        let parts = spec_split(s, seq![44u8], 0);
        if parts.len() < 2 {
            None
        } else {
            match (spec_i32(parts[0]), spec_i32(parts[1])) {
                (Some(x), Some(y)) => Some(Point { x: x as i32, y: y as i32 }),
                _ => None,
            }
        }
    }

    /// Reads a point from bytes.
    pub fn from_bytes(b: &[u8]) -> (r: Option<Point>)
        ensures
            r == Point::spec_parse(b@),
    {
        let comma: [u8; 1] = [44];
        assert(comma@ =~= seq![44u8]);
        let parts = split(b, comma.as_slice());
        if parts.len() < 2 {
            return None;
        }
        assert(views(parts@)[0] == parts@[0]@);
        assert(views(parts@)[1] == parts@[1]@);
        let x = match parse_signed(parts[0].as_slice(), i32::MIN as i64, i32::MAX as i64) {
            Some(v) => v as i32,
            None => {
                return None;
            },
        };
        let y = match parse_signed(parts[1].as_slice(), i32::MIN as i64, i32::MAX as i64) {
            Some(v) => v as i32,
            None => {
                return None;
            },
        };
        Some(Point { x, y })
    }

    /// Reads a point such as `498,4`.
    pub fn parse(input: &str) -> (r: Option<Point>)
        ensures
            r == Point::spec_parse(input.spec_bytes()),
    {
        Point::from_bytes(input.as_bytes())
    }

    /// The signs of the two coordinates.
    pub fn signum(&self) -> (r: Self)
        ensures
            r.x == spec_signum(self.x as int),
            r.y == spec_signum(self.y as int),
    {
        Point { x: sign(self.x as i64), y: sign(self.y as i64) }
    }
}

/// A line of rock through the given points, each joined to the next.
#[derive(Debug)]
pub struct Polyline {
    pub points: Vec<Point>,
}

/// Two points lie on one horizontal or vertical line and differ.
pub open spec fn aligned(a: Point, b: Point) -> bool {
    (a.x == b.x) != (a.y == b.y)
}

/// How far two aligned points lie apart.
pub open spec fn span(a: Point, b: Point) -> nat {
    let dx = b.x - a.x;
    let dy = b.y - a.y;
    ((if dx < 0 {
        -dx
    } else {
        dx
    }) + (if dy < 0 {
        -dy
    } else {
        dy
    })) as nat
}

/// The point that lies `i` steps from `a` towards `b`.
pub open spec fn toward(a: Point, b: Point, i: int) -> Point {
    Point {
        x: (a.x + i * spec_signum(b.x - a.x)) as i32,
        y: (a.y + i * spec_signum(b.y - a.y)) as i32,
    }
}

/// The points after `a` up to `b`, one step apart.
pub open spec fn segment(a: Point, b: Point) -> Seq<Point> {
    Seq::new(span(a, b), |i: int| toward(a, b, i + 1))
}

/// The points that a line of rock covers, from its first point to its
/// last, one step apart; nothing where two points that follow each other
/// are the same or do not lie on one horizontal or vertical line.
pub open spec fn spec_path(points: Seq<Point>) -> Option<Seq<Point>>
    decreases points.len(),
{
    if points.len() == 0 {
        Some(Seq::empty())
    } else if points.len() == 1 {
        Some(seq![points[0]])
    } else {
        let a = points[points.len() - 2];
        let b = points.last();
        match spec_path(points.drop_last()) {
            Some(before) => if aligned(a, b) {
                Some(before + segment(a, b))
            } else {
                None
            },
            None => None,
        }
    }
}

/// Where the first points of a line cover nothing, neither does the line.
pub proof fn lemma_path_prefix(points: Seq<Point>, n: int)
    requires
        0 <= n <= points.len(),
        spec_path(points.take(n)) is None,
    ensures
        spec_path(points) is None,
    decreases points.len() - n,
{
    if n == points.len() {
        assert(points.take(n) =~= points);
    } else {
        assert(points.take(n + 1).drop_last() =~= points.take(n));
        lemma_path_prefix(points, n + 1);
    }
}

impl Polyline {
    /// The line that `s` writes: points with ` -> ` between them.
    pub open spec fn spec_parse(s: Seq<u8>) -> Option<Seq<Point>> {
        let parts = spec_split(s, seq![32u8, 45u8, 62u8, 32u8], 0);
        if forall|i: int| 0 <= i < parts.len() ==> Point::spec_parse(#[trigger] parts[i]) is Some {
            Some(Seq::new(parts.len(), |i: int| Point::spec_parse(parts[i])->0))
        } else {
            None
        }
    }

    /// Reads a line of rock from bytes.
    pub fn from_bytes(b: &[u8]) -> (r: Option<Polyline>)
        ensures
            match Polyline::spec_parse(b@) {
                Some(points) => r is Some && r->0.points@ == points,
                None => r is None,
            },
    {
        let arrow: [u8; 4] = [32, 45, 62, 32];
        assert(arrow@ =~= seq![32u8, 45u8, 62u8, 32u8]);
        let parts = split(b, arrow.as_slice());
        let ghost all = views(parts@);
        let mut points: Vec<Point> = Vec::new();
        let mut i: usize = 0;
        while i < parts.len()
            invariant
                i <= parts@.len(),
                all == views(parts@),
                all == spec_split(b@, seq![32u8, 45u8, 62u8, 32u8], 0),
                points@.len() == i,
                forall|k: int|
                    0 <= k < i ==> Point::spec_parse(all[k]) == Some(#[trigger] points@[k]),
            decreases parts@.len() - i,
        {
            assert(all[i as int] == parts@[i as int]@);
            match Point::from_bytes(parts[i].as_slice()) {
                Some(p) => {
                    points.push(p);
                },
                None => {
                    return None;
                },
            }
            i += 1;
        }
        proof {
            assert forall|k: int| 0 <= k < all.len() implies Point::spec_parse(
                #[trigger] all[k],
            ) is Some by {
                assert(Point::spec_parse(all[k]) == Some(points@[k]));
            }
            assert(points@ =~= Seq::new(all.len(), |k: int| Point::spec_parse(all[k])->0));
        }
        Some(Polyline { points })
    }

    /// Reads a line of rock such as `498,4 -> 498,6 -> 496,6`.
    pub fn parse(input: &str) -> (r: Option<Polyline>)
        ensures
            match Polyline::spec_parse(input.spec_bytes()) {
                Some(points) => r is Some && r->0.points@ == points,
                None => r is None,
            },
    {
        Polyline::from_bytes(input.as_bytes())
    }

    /// The points that the line covers, from its first point to its last,
    /// one step apart. Nothing where two points that follow each other are
    /// the same or do not lie on one horizontal or vertical line.
    pub fn path_points(&self) -> (r: Option<Vec<Point>>)
        ensures
            match spec_path(self.points@) {
                Some(path) => r is Some && r->0@ == path,
                None => r is None,
            },
    {
        let mut out: Vec<Point> = Vec::new();
        if self.points.len() == 0 {
            return Some(out);
        }
        let mut a = self.points[0];
        out.push(a);
        let mut j: usize = 1;
        assert(self.points@.take(1) =~= seq![self.points@[0]]);
        while j < self.points.len()
            invariant
                1 <= j <= self.points@.len(),
                a == self.points@[j - 1],
                spec_path(self.points@.take(j as int)) == Some(out@),
            decreases self.points@.len() - j,
        {
            let b = self.points[j];
            let ghost before = out@;
            let ghost first = a;
            proof {
                let next = self.points@.take(j + 1);
                assert(next.drop_last() =~= self.points@.take(j as int));
                assert(next.last() == b);
                assert(next[next.len() - 2] == a);
            }
            if (a.x == b.x) == (a.y == b.y) {
                proof {
                    lemma_path_prefix(self.points@, j + 1);
                }
                return None;
            }
            let dx: i32 = sign(b.x as i64 - a.x as i64);
            let dy: i32 = sign(b.y as i64 - a.y as i64);
            let mut i: usize = 0;
            loop
                invariant
                    aligned(first, b),
                    dx == spec_signum(b.x - first.x),
                    dy == spec_signum(b.y - first.y),
                    i <= span(first, b),
                    a == toward(first, b, i as int),
                    out@ == before + segment(first, b).take(i as int),
                    (a == b) == (i == span(first, b)),
                ensures
                    a == b,
                    out@ == before + segment(first, b),
                decreases span(first, b) - i,
            {
                if a == b {
                    assert(segment(first, b).take(i as int) =~= segment(first, b));
                    break ;
                }
                proof {
                    assert((i + 1) * dx == i * dx + dx) by (nonlinear_arith);
                    assert((i + 1) * dy == i * dy + dy) by (nonlinear_arith);
                    assert(i * dx == if dx == 0 {
                        0
                    } else if dx == 1 {
                        i as int
                    } else {
                        -(i as int)
                    }) by (nonlinear_arith)
                        requires
                            -1 <= dx <= 1,
                    ;
                    assert(i * dy == if dy == 0 {
                        0
                    } else if dy == 1 {
                        i as int
                    } else {
                        -(i as int)
                    }) by (nonlinear_arith)
                        requires
                            -1 <= dy <= 1,
                    ;
                }
                a = Point { x: a.x + dx, y: a.y + dy };
                out.push(a);
                i += 1;
                proof {
                    assert(segment(first, b).take(i as int) =~= segment(first, b).take(i - 1).push(
                        a,
                    ));
                    assert(out@ =~= before + segment(first, b).take(i as int));
                }
            }
            j += 1;
        }
        assert(self.points@.take(j as int) =~= self.points@);
        Some(out)
    }
}

/// What fills a place of the cave.
#[derive(Clone, Copy, Debug, PartialEq, Eq, Structural)]
pub enum Cell {
    Air,
    Sand,
    Rock,
}

/// What a grain of sand did in one step.
#[derive(Clone, Copy, PartialEq, Eq, Debug, Structural)]
pub enum StepResult {
    /// It left the cave.
    Fell,
    /// It came to rest at the point.
    Settled(Point),
    /// It moved to the point.
    Moving(Point),
}

/// What a grain of sand finds at a place beside or below it.
pub enum Probe {
    /// The place lies outside the cave.
    Off,
    /// The place holds air.
    Free(Point),
    /// The place holds rock or sand.
    Blocked,
}

/// The cave: `width` by `height` places from `origin` on, row by row, the
/// number of grains that have come to rest and the place of the grain that
/// is falling.
pub struct Grid {
    pub origin: Point,
    pub width: usize,
    pub height: usize,
    pub cells: Vec<Cell>,
    pub settled: usize,
    pub current: Point,
}

/// The place of the point `(x, y)` in the row-by-row storage of a cave of
/// `width` by `height` places from `origin` on, if the point lies in it.
#[verifier::opaque]
pub open spec fn place(origin: Point, width: int, height: int, x: int, y: int) -> Option<int> {
    let dx = x - origin.x;
    let dy = y - origin.y;
    if 0 <= dx < width && 0 <= dy < height {
        Some(dy * width + dx)
    } else {
        None
    }
}

/// Where the sand pours in.
pub open spec fn spawn() -> Point {
    Point { x: 500, y: 0 }
}

impl Grid {
    /// Where the sand pours in.
    pub fn spawn_point() -> (p: Point)
        ensures
            p == spawn(),
    {
        Point { x: 500, y: 0 }
    }

    /// The place of the point `(x, y)` in the storage, if it lies in the
    /// cave.
    pub open spec fn index_at(&self, x: int, y: int) -> Option<int> {
        place(self.origin, self.width as int, self.height as int, x, y)
    }

    /// `(x, y)` lies in the cave.
    pub open spec fn holds(&self, x: int, y: int) -> bool {
        &&& self.origin.x <= x < self.origin.x + self.width
        &&& self.origin.y <= y < self.origin.y + self.height
    }

    /// The place of a point in the storage, if it lies in the cave.
    pub open spec fn spec_cell_index(&self, p: Point) -> Option<int> {
        self.index_at(p.x as int, p.y as int)
    }

    /// Points in the cave have places of their own in the storage.
    pub proof fn lemma_index(&self, x: int, y: int)
        ensures
            self.index_at(x, y) is Some <==> self.holds(x, y),
            self.index_at(x, y) is Some ==> 0 <= self.index_at(x, y)->0 < self.width * self.height,
            forall|x2: int, y2: int|
                self.index_at(x, y) is Some && #[trigger] self.index_at(x2, y2) == self.index_at(
                    x,
                    y,
                ) ==> x2 == x && y2 == y,
    {
        reveal(place);
        let w = self.width as int;
        let h = self.height as int;
        let dx = x - self.origin.x;
        let dy = y - self.origin.y;
        if 0 <= dx < w && 0 <= dy < h {
            assert(0 <= dy * w + dx < w * h) by (nonlinear_arith)
                requires
                    0 <= dx < w,
                    0 <= dy < h,
            ;
            assert forall|x2: int, y2: int| #[trigger]
                self.index_at(x2, y2) == self.index_at(x, y) implies x2 == x && y2 == y by {
                let ex = x2 - self.origin.x;
                let ey = y2 - self.origin.y;
                assert(ey == dy && ex == dx) by (nonlinear_arith)
                    requires
                        0 <= dx < w,
                        0 <= ex < w,
                        ey * w + ex == dy * w + dx,
                ;
            }
        }
    }

    /// The storage covers the cave, and the place where the sand pours in
    /// and the falling grain lie in the cave.
    pub open spec fn wf(&self) -> bool {
        &&& self.cells@.len() == self.width * self.height
        &&& self.origin.x + self.width <= i32::MAX + 1
        &&& self.origin.y + self.height <= i32::MAX + 1
        &&& self.spec_cell_index(spawn()) is Some
        &&& self.spec_cell_index(self.current) is Some
    }

    /// The place of the point `(x, y)` in the storage, if it lies in the
    /// cave.
    fn locate(&self, x: i64, y: i64) -> (r: Option<usize>)
        requires
            self.cells@.len() == self.width * self.height,
            -0x1_0000_0000 <= x <= 0x1_0000_0000,
            -0x1_0000_0000 <= y <= 0x1_0000_0000,
        ensures
            match (self.index_at(x as int, y as int), r) {
                (Some(i), Some(j)) => i == j && j < self.cells@.len(),
                (None, None) => true,
                _ => false,
            },
    {
        proof {
            reveal(place);
            self.lemma_index(x as int, y as int);
            assert(self.cells.len() == self.cells@.len());
        }
        let dx: i64 = x - self.origin.x as i64;
        let dy: i64 = y - self.origin.y as i64;
        if dx < 0 || dy < 0 {
            return None;
        }
        if dx as u64 >= self.width as u64 || dy as u64 >= self.height as u64 {
            return None;
        }
        let col: usize = dx as usize;
        let row: usize = dy as usize;
        assert(0 <= row * self.width <= row * self.width + col) by (nonlinear_arith)
            requires
                0 <= row,
                0 <= col,
                0 <= self.width,
        ;
        Some(row * self.width + col)
    }

    /// The place of a point in the storage, if it lies in the cave.
    pub fn cell_index(&self, point: Point) -> (r: Option<usize>)
        requires
            self.cells@.len() == self.width * self.height,
        ensures
            match (self.spec_cell_index(point), r) {
                (Some(i), Some(j)) => i == j && j < self.cells@.len(),
                (None, None) => true,
                _ => false,
            },
    {
        self.locate(point.x as i64, point.y as i64)
    }

    /// What fills the place at a point, if it lies in the cave.
    pub fn cell(&self, point: Point) -> (r: Option<&Cell>)
        requires
            self.cells@.len() == self.width * self.height,
        ensures
            match (self.spec_cell_index(point), r) {
                (Some(i), Some(c)) => *c == self.cells@[i],
                (None, None) => true,
                _ => false,
            },
    {
        match self.cell_index(point) {
            Some(i) => Some(&self.cells[i]),
            None => None,
        }
    }

    /// Fills the place at a point with `cell`. Says whether the point lies
    /// in the cave; nothing changes where it does not.
    pub fn cell_set(&mut self, point: Point, cell: Cell) -> (r: bool)
        requires
            old(self).cells@.len() == old(self).width * old(self).height,
        ensures
            final(self).origin == old(self).origin,
            final(self).width == old(self).width,
            final(self).height == old(self).height,
            final(self).settled == old(self).settled,
            final(self).current == old(self).current,
            match old(self).spec_cell_index(point) {
                Some(i) => r && final(self).cells@ == old(self).cells@.update(i, cell),
                None => !r && final(self).cells@ == old(self).cells@,
            },
    {
        match self.cell_index(point) {
            Some(i) => {
                self.cells.set(i, cell);
                true
            },
            None => false,
        }
    }

    /// How many grains have come to rest.
    pub fn num_settled(&self) -> (n: usize)
        ensures
            n == self.settled,
    {
        self.settled
    }

    /// Where the falling grain is.
    pub fn current(&self) -> (p: Point)
        ensures
            p == self.current,
    {
        self.current
    }

    /// What the falling grain finds one row down, `dx` columns aside.
    pub open spec fn probe(&self, dx: int) -> Probe {
        let x = self.current.x + dx;
        let y = self.current.y + 1;
        match self.index_at(x, y) {
            None => Probe::Off,
            Some(i) => if self.cells@[i] == Cell::Air {
                Probe::Free(Point { x: x as i32, y: y as i32 })
            } else {
                Probe::Blocked
            },
        }
    }

    /// What decides the step: the first of the places straight down, down
    /// to the left and down to the right that is not blocked.
    pub open spec fn decisive(&self) -> Probe {
        match self.probe(0) {
            Probe::Blocked => match self.probe(-1) {
                Probe::Blocked => self.probe(1),
                other => other,
            },
            other => other,
        }
    }

    /// Looks one row down, `dx` columns aside.
    fn look(&self, dx: i64) -> (r: Probe)
        requires
            self.cells@.len() == self.width * self.height,
            -1 <= dx <= 1,
        ensures
            r == self.probe(dx as int),
    {
        let x: i64 = self.current.x as i64 + dx;
        let y: i64 = self.current.y as i64 + 1;
        proof {
            self.lemma_index(x as int, y as int);
        }
        match self.locate(x, y) {
            None => Probe::Off,
            Some(i) => {
                if self.cells[i] == Cell::Air {
                    Probe::Free(Point { x: x as i32, y: y as i32 })
                } else {
                    Probe::Blocked
                }
            },
        }
    }

    /// One step of the falling grain. It looks straight down, then down to
    /// the left, then down to the right: where the place lies outside the
    /// cave it falls out and nothing changes; where the place holds air it
    /// moves there. Where all three are blocked it comes to rest, and the
    /// next grain stands where the sand pours in.
    pub fn step(&mut self) -> (r: StepResult)
        requires
            old(self).wf(),
            old(self).settled < usize::MAX,
        ensures
            final(self).wf(),
            final(self).origin == old(self).origin,
            final(self).width == old(self).width,
            final(self).height == old(self).height,
            match old(self).decisive() {
                Probe::Off => {
                    &&& r == StepResult::Fell
                    &&& final(self).cells@ == old(self).cells@
                    &&& final(self).settled == old(self).settled
                    &&& final(self).current == old(self).current
                },
                Probe::Free(p) => {
                    &&& r == StepResult::Moving(p)
                    &&& final(self).cells@ == old(self).cells@
                    &&& final(self).settled == old(self).settled
                    &&& final(self).current == p
                },
                Probe::Blocked => {
                    &&& r == StepResult::Settled(old(self).current)
                    &&& final(self).cells@ == old(self).cells@.update(
                        old(self).spec_cell_index(old(self).current)->0,
                        Cell::Sand,
                    )
                    &&& final(self).settled == old(self).settled + 1
                    &&& final(self).current == spawn()
                },
            },
    {
        let ghost first = *self;
        let mut k: usize = 0;
        while k < 3
            invariant
                k <= 3,
                *self == first,
                first == *old(self),
                first.wf(),
                k >= 1 ==> first.probe(0) is Blocked,
                k >= 2 ==> first.probe(-1) is Blocked,
                k >= 3 ==> first.probe(1) is Blocked,
            decreases 3 - k,
        {
            let dx: i64 = if k == 0 {
                0
            } else if k == 1 {
                -1
            } else {
                1
            };
            match self.look(dx) {
                Probe::Off => {
                    return StepResult::Fell;
                },
                Probe::Free(pos) => {
                    proof {
                        let x = first.current.x + dx;
                        let y = first.current.y + 1;
                        first.lemma_bounds(x, y);
                        reveal(place);
                    }
                    self.current = pos;
                    return StepResult::Moving(pos);
                },
                Probe::Blocked => {},
            }
            k += 1;
        }
        let settle_pos = self.current;
        let _ = self.cell_set(settle_pos, Cell::Sand);
        self.settled += 1;
        self.current = Grid::spawn_point();
        proof {
            first.lemma_index(first.current.x as int, first.current.y as int);
            reveal(place);
        }
        StepResult::Settled(settle_pos)
    }

    /// A place in a cave that is in order can be written as a point.
    pub proof fn lemma_bounds(&self, x: int, y: int)
        requires
            self.wf(),
            self.index_at(x, y) is Some,
        ensures
            i32::MIN <= x <= i32::MAX,
            i32::MIN <= y <= i32::MAX,
    {
        self.lemma_index(x, y);
    }
}

/// A rectangle by its least and greatest coordinates.
pub struct Bounds {
    pub min_x: int,
    pub min_y: int,
    pub max_x: int,
    pub max_y: int,
}

impl Bounds {
    /// The rectangle made just large enough to hold `p` too.
    pub open spec fn widen(self, p: Point) -> Bounds {
        Bounds {
            min_x: if p.x < self.min_x {
                p.x as int
            } else {
                self.min_x
            },
            min_y: if p.y < self.min_y {
                p.y as int
            } else {
                self.min_y
            },
            max_x: if p.x > self.max_x {
                p.x as int
            } else {
                self.max_x
            },
            max_y: if p.y > self.max_y {
                p.y as int
            } else {
                self.max_y
            },
        }
    }

    /// `p` lies in the rectangle.
    pub open spec fn holds(self, p: Point) -> bool {
        self.min_x <= p.x <= self.max_x && self.min_y <= p.y <= self.max_y
    }

    /// The rectangle lies in `other`.
    pub open spec fn within(self, other: Bounds) -> bool {
        &&& other.min_x <= self.min_x
        &&& other.min_y <= self.min_y
        &&& self.max_x <= other.max_x
        &&& self.max_y <= other.max_y
    }

    /// The rectangle made just large enough to hold `points` too.
    pub open spec fn widen_all(self, points: Seq<Point>) -> Bounds
        decreases points.len(),
    {
        if points.len() == 0 {
            self
        } else {
            self.widen_all(points.drop_last()).widen(points.last())
        }
    }
}

/// The smallest rectangle that holds the columns 200 to 800 of row 0, and
/// with them the place where the sand pours in, and the points of all
/// lines of rock.
pub open spec fn bounds_of(rows: Seq<Seq<Point>>) -> Bounds
    decreases rows.len(),
{
    if rows.len() == 0 {
        Bounds { min_x: 200, min_y: 0, max_x: 800, max_y: 0 }
    } else {
        bounds_of(rows.drop_last()).widen_all(rows.last())
    }
}

/// The lines of rock that a text tells of, one per line.
pub open spec fn spec_polylines(text: Seq<u8>) -> Option<Seq<Seq<Point>>> {
    spec_each(spec_lines(text), |l: Seq<u8>| Polyline::spec_parse(l))
}

/// `p` is the `j`-th point that the `i`-th line of rock covers.
pub open spec fn rock_point(rows: Seq<Seq<Point>>, i: int, j: int, p: Point) -> bool {
    &&& 0 <= i < rows.len()
    &&& spec_path(rows[i]) is Some
    &&& 0 <= j < spec_path(rows[i])->0.len()
    &&& spec_path(rows[i])->0[j] == p
}

/// A line of rock covers `p`.
pub open spec fn on_rock_line(rows: Seq<Seq<Point>>, p: Point) -> bool {
    exists|i: int, j: int| rock_point(rows, i, j, p)
}

/// `p` lies on the floor: two rows below the lowest rock, from the least
/// column up to but not including the greatest.
pub open spec fn on_floor(b: Bounds, p: Point) -> bool {
    p.y == b.max_y + 2 && b.min_x <= p.x < b.max_x
}

/// The cave can be laid out: every line of rock runs along rows and
/// columns, no point lies above row 0, and the cave, which reaches two rows
/// below the lowest point, is not too large for the machine.
pub open spec fn cave_fits(rows: Seq<Seq<Point>>) -> bool {
    let b = bounds_of(rows);
    &&& forall|i: int| 0 <= i < rows.len() ==> spec_path(#[trigger] rows[i]) is Some
    &&& b.min_y == 0
    &&& b.max_y + 2 <= i32::MAX
    &&& b.max_x - b.min_x + 1 <= i32::MAX
    &&& (b.max_x - b.min_x + 1) * (b.max_y + 3) <= usize::MAX
}

/// Widening keeps what the rectangle held and holds the new points.
pub proof fn lemma_widen_all(b: Bounds, points: Seq<Point>)
    ensures
        b.within(b.widen_all(points)),
        forall|k: int| 0 <= k < points.len() ==> b.widen_all(points).holds(#[trigger] points[k]),
        i32::MIN <= b.min_x && b.max_x <= i32::MAX ==> i32::MIN <= b.widen_all(points).min_x
            && b.widen_all(points).max_x <= i32::MAX,
        i32::MIN <= b.min_y && b.max_y <= i32::MAX ==> i32::MIN <= b.widen_all(points).min_y
            && b.widen_all(points).max_y <= i32::MAX,
    decreases points.len(),
{
    if points.len() > 0 {
        lemma_widen_all(b, points.drop_last());
        let before = b.widen_all(points.drop_last());
        assert forall|k: int| 0 <= k < points.len() implies b.widen_all(points).holds(
            #[trigger] points[k],
        ) by {
            if k < points.len() - 1 {
                assert(before.holds(points.drop_last()[k]));
            }
        }
    }
}

/// The rectangle of all lines holds every point of every line.
pub proof fn lemma_bounds_of(rows: Seq<Seq<Point>>)
    ensures
        forall|i: int, k: int|
            0 <= i < rows.len() && 0 <= k < rows[i].len() ==> bounds_of(rows).holds(
                #[trigger] rows[i][k],
            ),
        bounds_of(rows).min_x <= 200,
        bounds_of(rows).max_x >= 800,
        bounds_of(rows).min_y <= 0 <= bounds_of(rows).max_y,
        i32::MIN <= bounds_of(rows).min_x,
        i32::MIN <= bounds_of(rows).min_y,
        bounds_of(rows).max_x <= i32::MAX,
        bounds_of(rows).max_y <= i32::MAX,
    decreases rows.len(),
{
    if rows.len() > 0 {
        let before = bounds_of(rows.drop_last());
        lemma_bounds_of(rows.drop_last());
        lemma_widen_all(before, rows.last());
        assert forall|i: int, k: int|
            0 <= i < rows.len() && 0 <= k < rows[i].len() implies bounds_of(rows).holds(
            #[trigger] rows[i][k],
        ) by {
            if i < rows.len() - 1 {
                assert(before.holds(rows.drop_last()[i][k]));
            }
        }
    }
}

/// A line of rock whose points lie in a rectangle covers points of the
/// rectangle only.
pub proof fn lemma_path_within(points: Seq<Point>, b: Bounds)
    requires
        forall|k: int| 0 <= k < points.len() ==> b.holds(#[trigger] points[k]),
        spec_path(points) is Some,
    ensures
        forall|j: int|
            0 <= j < spec_path(points)->0.len() ==> b.holds(#[trigger] spec_path(points)->0[j]),
    decreases points.len(),
{
    if points.len() >= 2 {
        let a = points[points.len() - 2];
        let z = points.last();
        let before = spec_path(points.drop_last())->0;
        assert forall|k: int| 0 <= k < points.drop_last().len() implies b.holds(
            #[trigger] points.drop_last()[k],
        ) by {
            assert(b.holds(points[k]));
        }
        lemma_path_within(points.drop_last(), b);
        let path = spec_path(points)->0;
        assert(b.holds(a) && b.holds(z));
        assert forall|j: int| 0 <= j < path.len() implies b.holds(#[trigger] path[j]) by {
            if j < before.len() {
                assert(path[j] == before[j]);
            } else {
                let i = j - before.len();
                assert(path[j] == toward(a, z, i + 1));
                let sx = spec_signum(z.x - a.x);
                let sy = spec_signum(z.y - a.y);
                assert((i + 1) * sx == if sx == 0 {
                    0
                } else if sx == 1 {
                    i + 1
                } else {
                    -(i + 1)
                }) by (nonlinear_arith)
                    requires
                        -1 <= sx <= 1,
                ;
                assert((i + 1) * sy == if sy == 0 {
                    0
                } else if sy == 1 {
                    i + 1
                } else {
                    -(i + 1)
                }) by (nonlinear_arith)
                    requires
                        -1 <= sy <= 1,
                ;
            }
        }
    } else if points.len() == 1 {
        assert(b.holds(points[0]));
    }
}

impl Cell {
    /// The byte that stands for what fills a place: `.` for air, `#` for
    /// rock, `o` for sand.
    pub open spec fn glyph(&self) -> u8 {
        match self {
            Cell::Air => 46,
            Cell::Rock => 35,
            Cell::Sand => 111,
        }
    }
}

impl Grid {
    /// A picture of the cave: one row of bytes per row of places.
    pub fn render(&self) -> (r: Vec<Vec<u8>>)
        requires
            self.cells@.len() == self.width * self.height,
        ensures
            r@.len() == self.height,
            forall|y: int| 0 <= y < self.height ==> (#[trigger] r@[y])@.len() == self.width,
            forall|x: int, y: int|
                0 <= x < self.width && 0 <= y < self.height ==> (#[trigger] r@[y]@[x])
                    == self.cells@[y * self.width + x].glyph(),
    {
        let mut out: Vec<Vec<u8>> = Vec::new();
        let mut y: usize = 0;
        while y < self.height
            invariant
                self.cells@.len() == self.width * self.height,
                y <= self.height,
                out@.len() == y,
                forall|j: int| 0 <= j < y ==> (#[trigger] out@[j])@.len() == self.width,
                forall|i: int, j: int|
                    0 <= i < self.width && 0 <= j < y ==> (#[trigger] out@[j]@[i])
                        == self.cells@[j * self.width + i].glyph(),
            decreases self.height - y,
        {
            let mut row: Vec<u8> = Vec::new();
            let mut x: usize = 0;
            while x < self.width
                invariant
                    self.cells@.len() == self.width * self.height,
                    y < self.height,
                    x <= self.width,
                    row@.len() == x,
                    forall|i: int|
                        0 <= i < x ==> (#[trigger] row@[i]) == self.cells@[y * self.width + i].glyph(),
                decreases self.width - x,
            {
                proof {
                    let w = self.width as int;
                    let h = self.height as int;
                    assert(0 <= y * w && y * w + x < w * h) by (nonlinear_arith)
                        requires
                            0 <= x < w,
                            0 <= y < h,
                    ;
                    assert(self.cells.len() == self.cells@.len());
                }
                let g: u8 = match self.cells[y * self.width + x] {
                    Cell::Air => 46,
                    Cell::Rock => 35,
                    Cell::Sand => 111,
                };
                row.push(g);
                x += 1;
            }
            out.push(row);
            y += 1;
        }
        out
    }
}

/// The points of each line of rock.
pub open spec fn rows_of(lines: Seq<Polyline>) -> Seq<Seq<Point>> {
    Seq::new(lines.len(), |i: int| lines[i].points@)
}

/// Reads the lines of rock of a text, one per line.
pub fn parse_polylines(b: &[u8]) -> (r: Option<Vec<Polyline>>)
    ensures
        match spec_polylines(b@) {
            Some(rows) => r is Some && rows_of(r->0@) == rows,
            None => r is None,
        },
{
    let texts = lines(b);
    let ghost all = views(texts@);
    let ghost f = |l: Seq<u8>| Polyline::spec_parse(l);
    let mut out: Vec<Polyline> = Vec::new();
    let mut i: usize = 0;
    while i < texts.len()
        invariant
            i <= texts@.len(),
            all == views(texts@),
            all == spec_lines(b@),
            f == |l: Seq<u8>| Polyline::spec_parse(l),
            out@.len() == i,
            forall|k: int| 0 <= k < i ==> f(all[k]) == Some((#[trigger] out@[k]).points@),
        decreases texts@.len() - i,
    {
        assert(all[i as int] == texts@[i as int]@);
        match Polyline::from_bytes(texts[i].as_slice()) {
            Some(line) => {
                out.push(line);
            },
            None => {
                assert(f(all[i as int]) is None);
                return None;
            },
        }
        i += 1;
    }
    proof {
        assert forall|k: int| 0 <= k < all.len() implies (#[trigger] f(all[k])) is Some by {
            assert(f(all[k]) == Some(out@[k].points@));
        }
        assert(rows_of(out@) =~= Seq::new(all.len(), |k: int| f(all[k])->0));
    }
    Some(out)
}

/// The smallest rectangle that holds the columns 200 to 800 of row 0 and
/// the points of all lines: its least column and row, then its greatest.
pub fn measure(lines: &Vec<Polyline>) -> (r: (i32, i32, i32, i32))
    ensures
        ({
            let (min_x, min_y, max_x, max_y) = r;
            let b = bounds_of(rows_of(lines@));
            min_x == b.min_x && min_y == b.min_y && max_x == b.max_x && max_y == b.max_y
        }),
{
    let mut min_x: i32 = 200;
    let mut min_y: i32 = 0;
    let mut max_x: i32 = 800;
    let mut max_y: i32 = 0;
    let ghost rows = rows_of(lines@);
    let mut i: usize = 0;
    assert(rows.take(0) =~= Seq::<Seq<Point>>::empty());
    while i < lines.len()
        invariant
            i <= lines@.len(),
            rows == rows_of(lines@),
            bounds_of(rows.take(i as int)) == (Bounds {
                min_x: min_x as int,
                min_y: min_y as int,
                max_x: max_x as int,
                max_y: max_y as int,
            }),
        decreases lines@.len() - i,
    {
        let points = &lines[i].points;
        let ghost before = bounds_of(rows.take(i as int));
        let mut k: usize = 0;
        assert(points@.take(0) =~= Seq::<Point>::empty());
        assert(rows.take(i + 1).drop_last() =~= rows.take(i as int));
        assert(rows.take(i + 1).last() == points@);
        while k < points.len()
            invariant
                k <= points@.len(),
                before.widen_all(points@.take(k as int)) == (Bounds {
                    min_x: min_x as int,
                    min_y: min_y as int,
                    max_x: max_x as int,
                    max_y: max_y as int,
                }),
            decreases points@.len() - k,
        {
            let p = points[k];
            assert(points@.take(k + 1).drop_last() =~= points@.take(k as int));
            assert(points@.take(k + 1).last() == p);
            if p.x < min_x {
                min_x = p.x;
            }
            if p.y < min_y {
                min_y = p.y;
            }
            if p.x > max_x {
                max_x = p.x;
            }
            if p.y > max_y {
                max_y = p.y;
            }
            k += 1;
        }
        assert(points@.take(k as int) =~= points@);
        i += 1;
    }
    assert(rows.take(i as int) =~= rows);
    (min_x, min_y, max_x, max_y)
}

impl Grid {
    /// What fills the place at `p`, a point of the cave.
    pub open spec fn cell_at(&self, p: Point) -> Cell {
        self.cells@[self.spec_cell_index(p)->0]
    }

    /// A cave of air of the given size, with no grain at rest and the
    /// falling grain where the sand pours in. Nothing where the cave is too
    /// large for the machine.
    pub fn blank(origin: Point, width: usize, height: usize) -> (r: Option<Grid>)
        ensures
            match r {
                Some(g) => {
                    &&& width * height <= usize::MAX
                    &&& g.origin == origin
                    &&& g.width == width
                    &&& g.height == height
                    &&& g.settled == 0
                    &&& g.current == spawn()
                    &&& g.cells@.len() == width * height
                    &&& forall|i: int| 0 <= i < g.cells@.len() ==> g.cells@[i] == Cell::Air
                },
                None => width * height > usize::MAX,
            },
    {
        let n: usize = match width.checked_mul(height) {
            Some(n) => n,
            None => {
                return None;
            },
        };
        let mut cells: Vec<Cell> = Vec::new();
        let mut i: usize = 0;
        while i < n
            invariant
                i <= n,
                cells@.len() == i,
                forall|k: int| 0 <= k < i ==> cells@[k] == Cell::Air,
            decreases n - i,
        {
            cells.push(Cell::Air);
            i += 1;
        }
        Some(Grid { origin, width, height, cells, settled: 0, current: Grid::spawn_point() })
    }

    /// Fills with rock the places of the cave at the points of `path`.
    /// Says whether all of them lie in the cave.
    pub fn draw(&mut self, path: &Vec<Point>) -> (r: bool)
        requires
            old(self).cells@.len() == old(self).width * old(self).height,
        ensures
            final(self).origin == old(self).origin,
            final(self).width == old(self).width,
            final(self).height == old(self).height,
            final(self).settled == old(self).settled,
            final(self).current == old(self).current,
            final(self).cells@.len() == old(self).cells@.len(),
            r == forall|j: int|
                0 <= j < path@.len() ==> old(self).spec_cell_index(#[trigger] path@[j]) is Some,
            forall|p: Point| #[trigger]
                old(self).spec_cell_index(p) is Some ==> final(self).cell_at(p) == if path@.contains(
                    p,
                ) {
                    Cell::Rock
                } else {
                    old(self).cell_at(p)
                },
    {
        let ghost first = *self;
        let mut all_in = true;
        let mut j: usize = 0;
        while j < path.len()
            invariant
                j <= path@.len(),
                first == *old(self),
                self.origin == first.origin,
                self.width == first.width,
                self.height == first.height,
                self.settled == first.settled,
                self.current == first.current,
                self.cells@.len() == first.cells@.len(),
                first.cells@.len() == first.width * first.height,
                all_in == forall|k: int|
                    0 <= k < j ==> first.spec_cell_index(#[trigger] path@[k]) is Some,
                forall|p: Point| #[trigger]
                    first.spec_cell_index(p) is Some ==> self.cell_at(p) == if path@.take(
                        j as int,
                    ).contains(p) {
                        Cell::Rock
                    } else {
                        first.cell_at(p)
                    },
            decreases path@.len() - j,
        {
            let q = path[j];
            let ghost before = *self;
            let ghost seen = path@.take(j as int);
            let hit = self.cell_set(q, Cell::Rock);
            if !hit {
                all_in = false;
            }
            proof {
                let now = path@.take(j + 1);
                assert(now.drop_last() =~= seen);
                assert(now.last() == q);
                first.lemma_index(q.x as int, q.y as int);
                assert forall|p: Point| #[trigger]
                    first.spec_cell_index(p) is Some implies self.cell_at(p) == if now.contains(
                    p,
                ) {
                    Cell::Rock
                } else {
                    first.cell_at(p)
                } by {
                    first.lemma_index(p.x as int, p.y as int);
                    assert(before.cell_at(p) == if seen.contains(p) {
                        Cell::Rock
                    } else {
                        first.cell_at(p)
                    });
                    if seen.contains(p) {
                        let k = choose|k: int| 0 <= k < seen.len() && seen[k] == p;
                        assert(now[k] == p);
                    }
                    if now.contains(p) && p != q {
                        let k = choose|k: int| 0 <= k < now.len() && now[k] == p;
                        assert(seen[k] == p);
                    }
                    if p == q {
                        assert(now[j as int] == p);
                    }
                }
            }
            j += 1;
        }
        assert(path@.take(j as int) =~= path@);
        all_in
    }

    /// The cave that a text tells of, one line of rock per line: it reaches
    /// from the least column and row 0 to the greatest column and two rows
    /// below the lowest point, holds rock where a line of rock runs and on
    /// the floor, and air elsewhere. Nothing where a line cannot be read
    /// or the cave cannot be laid out.
    pub fn parse(input: &str) -> (r: Option<Grid>)
        ensures
            match spec_polylines(input.spec_bytes()) {
                Some(rows) => if cave_fits(rows) {
                    let b = bounds_of(rows);
                    &&& r is Some
                    &&& r->0.wf()
                    &&& r->0.origin == (Point { x: b.min_x as i32, y: 0 })
                    &&& r->0.width == b.max_x - b.min_x + 1
                    &&& r->0.height == b.max_y + 3
                    &&& r->0.settled == 0
                    &&& r->0.current == spawn()
                    &&& forall|p: Point| #[trigger]
                        r->0.spec_cell_index(p) is Some ==> r->0.cell_at(p) == if on_rock_line(
                            rows,
                            p,
                        ) || on_floor(b, p) {
                            Cell::Rock
                        } else {
                            Cell::Air
                        }
                } else {
                    r is None
                },
                None => r is None,
            },
    {
        let polylines = match parse_polylines(input.as_bytes()) {
            Some(v) => v,
            None => {
                return None;
            },
        };
        let ghost rows = rows_of(polylines@);
        let ghost b = bounds_of(rows);
        proof {
            lemma_bounds_of(rows);
        }
        let (min_x, min_y, max_x, max_y) = measure(&polylines);
        if min_y != 0 || max_y > i32::MAX - 2 {
            return None;
        }
        let wide: i64 = max_x as i64 - min_x as i64 + 1;
        if wide > i32::MAX as i64 {
            return None;
        }
        let width: usize = wide as usize;
        let height: usize = (max_y as i64 + 3) as usize;
        let origin = Point { x: min_x, y: min_y };
        let mut grid = match Grid::blank(origin, width, height) {
            Some(g) => g,
            None => {
                return None;
            },
        };
        let ghost empty = grid;
        proof {
            assert forall|p: Point| #[trigger] grid.spec_cell_index(p) is Some implies grid.cell_at(
                p,
            ) == Cell::Air by {
                grid.lemma_index(p.x as int, p.y as int);
            }
        }
        let mut i: usize = 0;
        while i < polylines.len()
            invariant
                i <= polylines@.len(),
                rows == rows_of(polylines@),
                b == bounds_of(rows),
                spec_polylines(input.spec_bytes()) == Some(rows),
                b.max_y + 2 <= i32::MAX,
                b.max_x - b.min_x + 1 <= i32::MAX,
                (b.max_x - b.min_x + 1) * (b.max_y + 3) <= usize::MAX,
                grid.origin == empty.origin,
                grid.width == empty.width,
                grid.height == empty.height,
                grid.settled == 0,
                grid.current == spawn(),
                grid.cells@.len() == grid.width * grid.height,
                empty.origin == (Point { x: b.min_x as i32, y: 0 }),
                empty.width == b.max_x - b.min_x + 1,
                empty.height == b.max_y + 3,
                b.min_y == 0,
                forall|n: int, k: int|
                    0 <= n < rows.len() && 0 <= k < rows[n].len() ==> b.holds(#[trigger] rows[n][k]),
                forall|n: int| 0 <= n < i ==> spec_path(#[trigger] rows[n]) is Some,
                forall|p: Point| #[trigger]
                    empty.spec_cell_index(p) is Some ==> grid.cell_at(p) == if exists|
                        n: int,
                        j: int,
                    |
                        n < i && rock_point(rows, n, j, p) {
                        Cell::Rock
                    } else {
                        Cell::Air
                    },
            decreases polylines@.len() - i,
        {
            let ghost before = grid;
            assert(rows[i as int] == polylines@[i as int].points@);
            let path = match polylines[i].path_points() {
                Some(path) => path,
                None => {
                    return None;
                },
            };
            let all_in = grid.draw(&path);
            proof {
                assert forall|k: int| 0 <= k < rows[i as int].len() implies b.holds(
                    #[trigger] rows[i as int][k],
                ) by {}
                lemma_path_within(rows[i as int], b);
                assert forall|p: Point| #[trigger]
                    empty.spec_cell_index(p) is Some implies grid.cell_at(p) == if exists|
                    n: int,
                    j: int,
                |
                    n < i + 1 && rock_point(rows, n, j, p) {
                    Cell::Rock
                } else {
                    Cell::Air
                } by {
                    assert(before.spec_cell_index(p) is Some);
                    if path@.contains(p) {
                        let j = choose|j: int| 0 <= j < path@.len() && path@[j] == p;
                        assert(rock_point(rows, i as int, j, p));
                    }
                    if exists|n: int, j: int| n < i + 1 && rock_point(rows, n, j, p) {
                        let (n, j) = choose|n: int, j: int|
                            n < i + 1 && rock_point(rows, n, j, p);
                        if n == i {
                            assert(path@[j] == p);
                        } else {
                            assert(n < i && rock_point(rows, n, j, p));
                        }
                    }
                }
            }
            i += 1;
        }
        let floor: i32 = max_y + 2;
        let mut x: i32 = min_x;
        while x < max_x
            invariant
                min_x <= x <= max_x,
                floor == b.max_y + 2,
                min_x == b.min_x,
                max_x == b.max_x,
                b == bounds_of(rows),
                b.min_y == 0,
                forall|n: int| 0 <= n < rows.len() ==> spec_path(#[trigger] rows[n]) is Some,
                spec_polylines(input.spec_bytes()) == Some(rows),
                b.max_y + 2 <= i32::MAX,
                b.max_x - b.min_x + 1 <= i32::MAX,
                (b.max_x - b.min_x + 1) * (b.max_y + 3) <= usize::MAX,

                grid.origin == empty.origin,
                grid.width == empty.width,
                grid.height == empty.height,
                grid.settled == 0,
                grid.current == spawn(),
                grid.cells@.len() == grid.width * grid.height,
                empty.origin == (Point { x: b.min_x as i32, y: 0 }),
                empty.width == b.max_x - b.min_x + 1,
                empty.height == b.max_y + 3,
                forall|p: Point| #[trigger]
                    empty.spec_cell_index(p) is Some ==> grid.cell_at(p) == if on_rock_line(rows, p)
                        || (on_floor(b, p) && p.x < x) {
                        Cell::Rock
                    } else {
                        Cell::Air
                    },
            decreases max_x - x,
        {
            let q = Point { x, y: floor };
            let ghost before = grid;
            let _ = grid.cell_set(q, Cell::Rock);
            proof {
                empty.lemma_index(q.x as int, q.y as int);
                assert forall|p: Point| #[trigger]
                    empty.spec_cell_index(p) is Some implies grid.cell_at(p) == if on_rock_line(
                    rows,
                    p,
                ) || (on_floor(b, p) && p.x < x + 1) {
                    Cell::Rock
                } else {
                    Cell::Air
                } by {
                    empty.lemma_index(p.x as int, p.y as int);
                    assert(before.cell_at(p) == if on_rock_line(rows, p) || (on_floor(b, p) && p.x
                        < x) {
                        Cell::Rock
                    } else {
                        Cell::Air
                    });
                }
            }
            x += 1;
        }
        proof {
            grid.lemma_index(500, 0);
            assert(grid.wf());
            assert(cave_fits(rows));
            assert forall|p: Point| #[trigger] grid.spec_cell_index(p) is Some implies grid.cell_at(
                p,
            ) == if on_rock_line(rows, p) || on_floor(b, p) {
                Cell::Rock
            } else {
                Cell::Air
            } by {
                assert(empty.spec_cell_index(p) is Some);
            }
        }
        Some(grid)
    }
}

} // verus!
