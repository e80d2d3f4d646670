//! A rope on a plane: the head moves as instructed, the tail follows, and
//! the places where the tail has been are kept.

use vstd::prelude::*;
use vstd::std_specs::convert::FromSpecImpl;
use vstd::std_specs::ops::{AddSpecImpl, SubSpecImpl};
use vstd::string::StringSliceAdditionalSpecFns;
use crate::text::{lines, spec_each, spec_lines, views};

verus! {

#[derive(PartialEq, Eq, Copy, Clone, Debug, Structural)]
pub enum Direction {
    Up,
    Down,
    Left,
    Right,
}

impl Direction {
    /// The direction that a letter stands for.
    pub open spec fn spec_from_byte(b: u8) -> Option<Direction> {
        if b == 85 {
            Some(Direction::Up)
        } else if b == 68 {
            Some(Direction::Down)
        } else if b == 76 {
            Some(Direction::Left)
        } else if b == 82 {
            Some(Direction::Right)
        } else {
            None
        }
    }

    /// Reads a direction: `U`, `D`, `L` or `R`.
    pub fn from_byte(b: u8) -> (r: Option<Direction>)
        ensures
            r == Direction::spec_from_byte(b),
    {
        if b == 85 {
            Some(Direction::Up)
        } else if b == 68 {
            Some(Direction::Down)
        } else if b == 76 {
            Some(Direction::Left)
        } else if b == 82 {
            Some(Direction::Right)
        } else {
            None
        }
    }

    /// The letter that stands for the direction.
    pub fn to_byte(&self) -> (b: u8)
        ensures
            Direction::spec_from_byte(b) == Some(*self),
    {
        match self {
            Direction::Up => 85,
            Direction::Down => 68,
            Direction::Left => 76,
            Direction::Right => 82,
        }
    }

    /// One step in the direction.
    pub open spec fn offset(&self) -> (int, int) {
        match self {
            Direction::Up => (0, 1),
            Direction::Down => (0, -1),
            Direction::Left => (-1, 0),
            Direction::Right => (1, 0),
        }
    }
}

/// A move of the head: a direction and a number of steps.
#[derive(Copy, Clone, Debug, PartialEq, Eq, Structural)]
pub struct Instruction(pub Direction, pub usize);

/// The instruction that a line tells: its first byte is the direction and
/// its third byte, a digit, the number of steps.
pub open spec fn spec_instruction(line: Seq<u8>) -> Option<Instruction> {
    if line.len() < 3 || !(48 <= line[2] <= 57) {
        None
    } else {
        match Direction::spec_from_byte(line[0]) {
            Some(dir) => Some(Instruction(dir, (line[2] - 48) as usize)),
            None => None,
        }
    }
}

/// Reads the instructions of a text, one per line. A line that is too
/// short, begins with no direction or has no digit in third place makes
/// the text unreadable.
pub fn parse_instructions(input: &str) -> (r: Option<Vec<Instruction>>)
    ensures
        match spec_each(spec_lines(input.spec_bytes()), |l: Seq<u8>| spec_instruction(l)) {
            Some(list) => r is Some && r->0@ == list,
            None => r is None,
        },
{
    let rows = lines(input.as_bytes());
    let ghost all = views(rows@);
    let ghost f = |l: Seq<u8>| spec_instruction(l);
    let mut out: Vec<Instruction> = Vec::new();
    let mut i: usize = 0;
    while i < rows.len()
        invariant
            i <= rows@.len(),
            all == views(rows@),
            all == spec_lines(input.spec_bytes()),
            f == |l: Seq<u8>| spec_instruction(l),
            out@.len() == i,
            forall|k: int| 0 <= k < i ==> f(all[k]) == Some(#[trigger] out@[k]),
        decreases rows@.len() - i,
    {
        let line = &rows[i];
        assert(all[i as int] == line@);
        if line.len() < 3 || line[2] < 48 || line[2] > 57 {
            assert(f(all[i as int]) is None);
            return None;
        }
        match Direction::from_byte(line[0]) {
            Some(dir) => {
                out.push(Instruction(dir, (line[2] - 48) as usize));
            },
            None => {
                assert(f(all[i as int]) is None);
                return None;
            },
        }
        i += 1;
    }
    proof {
        assert forall|k: int| 0 <= k < all.len() implies (#[trigger] f(all[k])) is Some by {
            assert(f(all[k]) == Some(out@[k]));
        }
        assert(out@ =~= Seq::new(all.len(), |k: int| f(all[k])->0));
    }
    Some(out)
}

/// A place on the plane.
#[derive(PartialEq, Eq, Copy, Clone, Hash, Debug, Structural)]
pub struct Coord(pub isize, pub isize);

/// The sign of a number: -1, 0 or 1.
pub open spec fn spec_signum(x: int) -> int {
    if x > 0 {
        1
    } else if x < 0 {
        -1
    } else {
        0
    }
}

/// The sign of a number: -1, 0 or 1.
pub fn signum(x: isize) -> (r: isize)
    ensures
        r == spec_signum(x as int),
{
    if x > 0 {
        1
    } else if x < 0 {
        -1
    } else {
        0
    }
}

impl View for Coord {
    type V = (int, int);

    open spec fn view(&self) -> (int, int) {
        (self.0 as int, self.1 as int)
    }
}

impl Coord {
    /// The signs of the two coordinates.
    pub fn signum(&self) -> (r: Self)
        ensures
            r.0 == spec_signum(self.0 as int),
            r.1 == spec_signum(self.1 as int),
    {
        Coord(signum(self.0), signum(self.1))
    }
}

impl Default for Coord {
    fn default() -> (c: Self)
        ensures
            c == Coord(0, 0),
    {
        Coord(0, 0)
    }
}

impl std::ops::Sub for Coord {
    type Output = Self;

    fn sub(self, other: Self) -> (r: Self) {
        Self(self.0 - other.0, self.1 - other.1)
    }
}

impl SubSpecImpl for Coord {
    open spec fn obeys_sub_spec() -> bool {
        true
    }

    open spec fn sub_req(self, other: Coord) -> bool {
        &&& isize::MIN <= self.0 - other.0 <= isize::MAX
        &&& isize::MIN <= self.1 - other.1 <= isize::MAX
    }

    open spec fn sub_spec(self, other: Coord) -> Coord {
        Coord((self.0 - other.0) as isize, (self.1 - other.1) as isize)
    }
}

impl std::ops::Add for Coord {
    type Output = Self;

    fn add(self, other: Self) -> (r: Self) {
        Self(self.0 + other.0, self.1 + other.1)
    }
}

impl AddSpecImpl for Coord {
    open spec fn obeys_add_spec() -> bool {
        true
    }

    open spec fn add_req(self, other: Coord) -> bool {
        &&& isize::MIN <= self.0 + other.0 <= isize::MAX
        &&& isize::MIN <= self.1 + other.1 <= isize::MAX
    }

    open spec fn add_spec(self, other: Coord) -> Coord {
        Coord((self.0 + other.0) as isize, (self.1 + other.1) as isize)
    }
}

impl std::convert::From<Direction> for Coord {
    fn from(value: Direction) -> (c: Self) {
        match value {
            Direction::Up => Coord(0, 1),
            Direction::Down => Coord(0, -1),
            Direction::Left => Coord(-1, 0),
            Direction::Right => Coord(1, 0),
        }
    }
}

impl FromSpecImpl<Direction> for Coord {
    open spec fn obeys_from_spec() -> bool {
        true
    }

    open spec fn from_spec(value: Direction) -> Coord {
        Coord(value.offset().0 as isize, value.offset().1 as isize)
    }
}

/// Two places touch when they are the same or lie side by side, diagonals
/// included.
pub open spec fn touching(head: (int, int), tail: (int, int)) -> bool {
    -1 <= head.0 - tail.0 <= 1 && -1 <= head.1 - tail.1 <= 1
}

/// Where the tail goes when the head is at `head`: it stays while the two
/// touch, and else moves one step towards the head along each axis.
pub open spec fn follow(head: (int, int), tail: (int, int)) -> (int, int) {
    if touching(head, tail) {
        tail
    } else {
        (tail.0 + spec_signum(head.0 - tail.0), tail.1 + spec_signum(head.1 - tail.1))
    }
}

/// Where the head is after `k` steps by `dir`.
pub open spec fn head_after(head: (int, int), dir: (int, int), k: nat) -> (int, int) {
    (head.0 + k * dir.0, head.1 + k * dir.1)
}

/// Where the tail is after the head has made `k` steps by `dir`.
pub open spec fn tail_after(head: (int, int), tail: (int, int), dir: (int, int), k: nat) -> (
    int,
    int,
)
    decreases k,
{
    if k == 0 {
        tail
    } else {
        follow(head_after(head, dir, k), tail_after(head, tail, dir, (k - 1) as nat))
    }
}

/// The rope and the places that its tail has visited, each kept once.
pub struct HTState {
    pub head: Coord,
    pub tail: Coord,
    pub visited: Vec<Coord>,
}

impl Default for HTState {
    fn default() -> (s: Self)
        ensures
            s.wf(),
            s.head == Coord(0, 0),
            s.tail == Coord(0, 0),
            s.visited@ == seq![Coord(0, 0)],
    {
        let mut visited: Vec<Coord> = Vec::new();
        visited.push(Coord::default());
        assert(visited@[0] == Coord(0, 0));
        HTState { head: Coord::default(), tail: Coord::default(), visited }
    }
}

/// Whether `c` is among `v`.
pub fn has_coord(v: &Vec<Coord>, c: Coord) -> (r: bool)
    ensures
        r == v@.contains(c),
{
    let mut i: usize = 0;
    while i < v.len()
        invariant
            i <= v@.len(),
            forall|k: int| 0 <= k < i ==> v@[k] != c,
        decreases v@.len() - i,
    {
        if v[i] == c {
            return true;
        }
        i += 1;
    }
    false
}

impl HTState {
    /// Head and tail touch, and the tail's place is among the visited
    /// places, which are kept once each.
    pub open spec fn wf(&self) -> bool {
        &&& touching(self.head@, self.tail@)
        &&& self.visited@.no_duplicates()
        &&& self.visited@.contains(self.tail)
    }

    /// Whether head and tail touch.
    pub fn adjacent(&self) -> (r: bool)
        requires
            -2 <= self.head.0 - self.tail.0 <= 2,
            -2 <= self.head.1 - self.tail.1 <= 2,
        ensures
            r == touching(self.head@, self.tail@),
    {
        let diff = self.head - self.tail;
        (-1 <= diff.0 && diff.0 <= 1) && (-1 <= diff.1 && diff.1 <= 1)
    }

    /// Keeps `c` among the visited places.
    fn visit(&mut self, c: Coord)
        requires
            old(self).visited@.no_duplicates(),
        ensures
            final(self).head == old(self).head,
            final(self).tail == old(self).tail,
            final(self).visited@.no_duplicates(),
            forall|d: Coord|
                #[trigger] final(self).visited@.contains(d) <==> (old(self).visited@.contains(d) || d == c),
    {
        if !has_coord(&self.visited, c) {
            let ghost before = self.visited@;
            self.visited.push(c);
            proof {
                let now = self.visited@;
                assert forall|d: Coord| now.contains(d) <==> (before.contains(d) || d == c) by {
                    if now.contains(d) {
                        let k = choose|k: int| 0 <= k < now.len() && now[k] == d;
                        if k < before.len() {
                            assert(before[k] == d);
                        }
                    }
                    if before.contains(d) {
                        let k = choose|k: int| 0 <= k < before.len() && before[k] == d;
                        assert(now[k] == d);
                    }
                    if d == c {
                        assert(now[before.len() as int] == c);
                    }
                }
            }
        }
    }

    /// Moves the head as instructed, step by step; after each step the tail
    /// follows and its place is kept.
    pub fn update(&mut self, inst: Instruction)
        requires
            old(self).wf(),
            isize::MIN <= old(self).head.0 + inst.1 * inst.0.offset().0 <= isize::MAX,
            isize::MIN <= old(self).head.1 + inst.1 * inst.0.offset().1 <= isize::MAX,
        ensures
            final(self).wf(),
            final(self).head@ == head_after(old(self).head@, inst.0.offset(), inst.1 as nat),
            final(self).tail@ == tail_after(
                old(self).head@,
                old(self).tail@,
                inst.0.offset(),
                inst.1 as nat,
            ),
            forall|c: Coord|
                #[trigger] final(self).visited@.contains(c) <==> (old(self).visited@.contains(c) || exists|
                    k: nat,
                |
                    1 <= k <= inst.1 && c@ == #[trigger] tail_after(
                        old(self).head@,
                        old(self).tail@,
                        inst.0.offset(),
                        k,
                    )),
    {
        let ghost first = *self;
        let ghost d = inst.0.offset();
        let dir = Coord::from(inst.0);
        let n = inst.1;
        let mut i: usize = 0;
        while i < n
            invariant
                i <= n,
                n == inst.1,
                d == inst.0.offset(),
                dir@ == d,
                first.wf(),
                self.wf(),
                isize::MIN <= first.head.0 + n * d.0 <= isize::MAX,
                isize::MIN <= first.head.1 + n * d.1 <= isize::MAX,
                self.head@ == head_after(first.head@, d, i as nat),
                self.tail@ == tail_after(first.head@, first.tail@, d, i as nat),
                forall|c: Coord|
                    #[trigger] self.visited@.contains(c) <==> (first.visited@.contains(c) || exists|k: nat|
                        1 <= k <= i && c@ == #[trigger] tail_after(first.head@, first.tail@, d, k)),
            decreases n - i,
        {
            let ghost before = *self;
            proof {
                assert(-1 <= d.0 <= 1 && -1 <= d.1 <= 1);
                assert(isize::MIN <= first.head.0 + (i + 1) * d.0 <= isize::MAX) by (nonlinear_arith)
                    requires
                        isize::MIN <= first.head.0 + n * d.0 <= isize::MAX,
                        0 <= i < n,
                        -1 <= d.0 <= 1,
                        isize::MIN <= first.head.0 <= isize::MAX,
                ;
                assert(isize::MIN <= first.head.1 + (i + 1) * d.1 <= isize::MAX) by (nonlinear_arith)
                    requires
                        isize::MIN <= first.head.1 + n * d.1 <= isize::MAX,
                        0 <= i < n,
                        -1 <= d.1 <= 1,
                        isize::MIN <= first.head.1 <= isize::MAX,
                ;
                assert((i + 1) * d.0 == i * d.0 + d.0) by (nonlinear_arith);
                assert((i + 1) * d.1 == i * d.1 + d.1) by (nonlinear_arith);
            }
            self.head = self.head + dir;
            if !self.adjacent() {
                let diff = self.head - self.tail;
                self.tail = self.tail + diff.signum();
                let t = self.tail;
                self.visit(t);
            }
            proof {
                let t = tail_after(first.head@, first.tail@, d, (i + 1) as nat);
                assert(self.tail@ == t);
                assert forall|c: Coord|
                    #[trigger] self.visited@.contains(c) <==> (first.visited@.contains(c) || exists|k: nat|
                        1 <= k <= i + 1 && c@ == #[trigger] tail_after(
                            first.head@,
                            first.tail@,
                            d,
                            k,
                        )) by {
                    if self.visited@.contains(c) && !first.visited@.contains(c) {
                        if before.visited@.contains(c) {
                            let k = choose|k: nat|
                                1 <= k <= i && c@ == #[trigger] tail_after(
                                    first.head@,
                                    first.tail@,
                                    d,
                                    k,
                                );
                            assert(1 <= k <= i + 1);
                        } else {
                            assert(c == self.tail);
                            assert(c@ == tail_after(first.head@, first.tail@, d, (i + 1) as nat));
                        }
                    }
                    if exists|k: nat|
                        1 <= k <= i + 1 && c@ == #[trigger] tail_after(
                            first.head@,
                            first.tail@,
                            d,
                            k,
                        ) {
                        let k = choose|k: nat|
                            1 <= k <= i + 1 && c@ == #[trigger] tail_after(
                                first.head@,
                                first.tail@,
                                d,
                                k,
                            );
                        if k <= i {
                            assert(exists|j: nat|
                                1 <= j <= i && c@ == #[trigger] tail_after(
                                    first.head@,
                                    first.tail@,
                                    d,
                                    j,
                                ));
                            assert(before.visited@.contains(c));
                        } else {
                            assert(c@ == self.tail@);
                            assert(c == self.tail);
                        }
                    }
                }
            }
            i += 1;
        }
    }

    /// The corners of the smallest rectangle that holds head, tail and
    /// every visited place: the least coordinates, then the greatest.
    pub fn grid_bounds(&self) -> (r: (Coord, Coord))
        ensures
            self.is_bounds(r),
            r == self.spec_grid_bounds(),
    {
        let mut xmin = if self.head.0 < self.tail.0 {
            self.head.0
        } else {
            self.tail.0
        };
        let mut xmax = if self.head.0 > self.tail.0 {
            self.head.0
        } else {
            self.tail.0
        };
        let mut ymin = if self.head.1 < self.tail.1 {
            self.head.1
        } else {
            self.tail.1
        };
        let mut ymax = if self.head.1 > self.tail.1 {
            self.head.1
        } else {
            self.tail.1
        };
        let mut i: usize = 0;
        while i < self.visited.len()
            invariant
                i <= self.visited@.len(),
                self.inside((Coord(xmin, ymin), Coord(xmax, ymax)), self.head),
                self.inside((Coord(xmin, ymin), Coord(xmax, ymax)), self.tail),
                forall|k: int|
                    0 <= k < i ==> self.inside(
                        (Coord(xmin, ymin), Coord(xmax, ymax)),
                        #[trigger] self.visited@[k],
                    ),
                self.attains(xmin),
                self.attains(xmax),
                self.attains_y(ymin),
                self.attains_y(ymax),
            decreases self.visited@.len() - i,
        {
            let c = self.visited[i];
            if c.0 < xmin {
                xmin = c.0;
            }
            if c.0 > xmax {
                xmax = c.0;
            }
            if c.1 < ymin {
                ymin = c.1;
            }
            if c.1 > ymax {
                ymax = c.1;
            }
            i += 1;
        }
        proof {
            let r = (Coord(xmin, ymin), Coord(xmax, ymax));
            assert(self.is_bounds(r));
            self.lemma_bounds_unique(r, self.spec_grid_bounds());
        }
        (Coord(xmin, ymin), Coord(xmax, ymax))
    }

    /// `c` lies in the rectangle with the corners `r`.
    pub open spec fn inside(&self, r: (Coord, Coord), c: Coord) -> bool {
        let (low, high) = r;
        low.0 <= c.0 <= high.0 && low.1 <= c.1 <= high.1
    }

    /// Head, tail or a visited place has the first coordinate `x`.
    pub open spec fn attains(&self, x: isize) -> bool {
        self.head.0 == x || self.tail.0 == x || exists|i: int|
            0 <= i < self.visited@.len() && (#[trigger] self.visited@[i]).0 == x
    }

    /// Head, tail or a visited place has the second coordinate `y`.
    pub open spec fn attains_y(&self, y: isize) -> bool {
        self.head.1 == y || self.tail.1 == y || exists|i: int|
            0 <= i < self.visited@.len() && (#[trigger] self.visited@[i]).1 == y
    }
}

impl HTState {
    /// `r` holds the corners of the smallest rectangle that holds head,
    /// tail and every visited place.
    pub open spec fn is_bounds(&self, r: (Coord, Coord)) -> bool {
        &&& self.inside(r, self.head)
        &&& self.inside(r, self.tail)
        &&& forall|i: int| 0 <= i < self.visited@.len() ==> self.inside(r, #[trigger] self.visited@[i])
        &&& self.attains(r.0.0)
        &&& self.attains_y(r.0.1)
        &&& self.attains(r.1.0)
        &&& self.attains_y(r.1.1)
    }

    /// The corners of the smallest rectangle that holds head, tail and
    /// every visited place.
    pub open spec fn spec_grid_bounds(&self) -> (Coord, Coord) {
        choose|r: (Coord, Coord)| self.is_bounds(r)
    }

    /// There is one smallest rectangle.
    pub proof fn lemma_bounds_unique(&self, a: (Coord, Coord), b: (Coord, Coord))
        requires
            self.is_bounds(a),
            self.is_bounds(b),
        ensures
            a == b,
    {
        assert(a.0.0 == b.0.0);
        assert(a.0.1 == b.0.1);
        assert(a.1.0 == b.1.0);
        assert(a.1.1 == b.1.1);
    }

    /// The mark that stands for a place in a picture of the rope: `s` for
    /// the start, else `H` for the head, else `T` for the tail, else `#`
    /// for a place that the tail has visited, else `.`.
    pub open spec fn mark(&self, c: Coord) -> u8 {
        if c == Coord(0, 0) {
            115
        } else if c == self.head {
            72
        } else if c == self.tail {
            84
        } else if self.visited@.contains(c) {
            35
        } else {
            46
        }
    }

    /// A picture of the rope: the smallest rectangle that holds head, tail
    /// and all visited places, row by row from the greatest second
    /// coordinate down, one mark per place.
    pub fn render(&self) -> (r: Vec<Vec<u8>>)
        ensures
            ({
                let (low, high) = self.spec_grid_bounds();
                &&& r@.len() == high.1 - low.1 + 1
                &&& forall|i: int| 0 <= i < r@.len() ==> (#[trigger] r@[i])@.len() == high.0 - low.0 + 1
                &&& forall|i: int, j: int|
                    0 <= i < r@.len() && 0 <= j < high.0 - low.0 + 1 ==> (#[trigger] r@[i]@[j])
                        == self.mark(Coord((low.0 + j) as isize, (high.1 - i) as isize))
            }),
    {
        let (low, high) = self.grid_bounds();
        let mut out: Vec<Vec<u8>> = Vec::new();
        let mut y: isize = high.1;
        loop
            invariant_except_break
                out@.len() == high.1 - y,
            invariant
                low.1 <= y <= high.1,
                low.0 <= high.0,
                forall|i: int| 0 <= i < out@.len() ==> (#[trigger] out@[i])@.len() == high.0 - low.0 + 1,
                forall|i: int, j: int|
                    0 <= i < out@.len() && 0 <= j < high.0 - low.0 + 1 ==> (#[trigger] out@[i]@[j])
                        == self.mark(Coord((low.0 + j) as isize, (high.1 - i) as isize)),
            ensures
                out@.len() == high.1 - low.1 + 1,
            decreases y - low.1,
        {
            let mut row: Vec<u8> = Vec::new();
            let mut x: isize = low.0;
            loop
                invariant_except_break
                    row@.len() == x - low.0,
                invariant
                    low.0 <= x <= high.0,
                    forall|j: int|
                        0 <= j < row@.len() ==> (#[trigger] row@[j]) == self.mark(
                            Coord((low.0 + j) as isize, y),
                        ),
                ensures
                    row@.len() == high.0 - low.0 + 1,
                decreases high.0 - x,
            {
                let c = Coord(x, y);
                let m: u8 = if x == 0 && y == 0 {
                    115
                } else if c == self.head {
                    72
                } else if c == self.tail {
                    84
                } else if has_coord(&self.visited, c) {
                    35
                } else {
                    46
                };
                row.push(m);
                if x == high.0 {
                    break ;
                }
                x += 1;
            }
            out.push(row);
            if y == low.1 {
                break ;
            }
            y -= 1;
        }
        out
    }
}

} // verus!
