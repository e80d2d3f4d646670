//! The search for a shortest walk: tentative distances that are relaxed
//! square by square, nearest first.

use vstd::prelude::*;
use crate::hill::grid::{Coord, Grid};
use crate::hill::route::{
    is_lowest, is_trail, is_walk, joins, least_of, lemma_joins_reverse, lemma_least_of_exists, lemma_least_of_none,
    lemma_least_of_is, lemma_least_of_same, lemma_trail_drop_last, lemma_trail_on_grid,
    lemma_trail_push, lemma_trail_reverse, reachable_from_lowest_in, reachable_in, shortest,
    shortest_from_lowest,
};

verus! {

/// How many entries of `s` are set.
pub open spec fn count_open(s: Seq<bool>) -> nat
    decreases s.len(),
{
    if s.len() == 0 {
        0
    } else {
        count_open(s.drop_last()) + if s.last() {
            1nat
        } else {
            0nat
        }
    }
}

/// Clearing a set entry leaves one set entry less.
pub proof fn lemma_count_close(s: Seq<bool>, i: int)
    requires
        0 <= i < s.len(),
        s[i],
    ensures
        count_open(s.update(i, false)) + 1 == count_open(s),
    decreases s.len(),
{
    let t = s.update(i, false);
    if i == s.len() - 1 {
        assert(t.drop_last() =~= s.drop_last());
    } else {
        assert(t.drop_last() =~= s.drop_last().update(i, false));
        lemma_count_close(s.drop_last(), i);
    }
}

/// Where no entry is counted, none is set; and no more are counted than
/// there are.
pub proof fn lemma_count_bounds(s: Seq<bool>)
    ensures
        count_open(s) <= s.len(),
        count_open(s) == 0 ==> forall|i: int| 0 <= i < s.len() ==> !s[i],
    decreases s.len(),
{
    if s.len() > 0 {
        lemma_count_bounds(s.drop_last());
        if count_open(s) == 0 {
            assert forall|i: int| 0 <= i < s.len() implies !s[i] by {
                if i < s.len() - 1 {
                    assert(s[i] == s.drop_last()[i]);
                }
            }
        }
    }
}

/// Where no entry is set, none is counted.
pub proof fn lemma_count_none(s: Seq<bool>)
    requires
        forall|i: int| 0 <= i < s.len() ==> !s[i],
    ensures
        count_open(s) == 0,
    decreases s.len(),
{
    if s.len() > 0 {
        assert forall|i: int| 0 <= i < s.drop_last().len() implies !s.drop_last()[i] by {
            assert(s.drop_last()[i] == s[i]);
        }
        lemma_count_none(s.drop_last());
    }
}

/// The distance `a` is less than `b`, where no distance counts as greater
/// than any.
pub open spec fn nearer(a: Option<usize>, b: Option<usize>) -> bool {
    a is Some && (b is None || a->0 < b->0)
}

/// The distance `a` is at most `b`, where no distance counts as greater
/// than any.
pub open spec fn no_farther(a: Option<usize>, b: Option<usize>) -> bool {
    b is None || (a is Some && a->0 <= b->0)
}

/// One search over a grid: from `start` to `end` by the climbing rule, or,
/// looking backward from `end`, to the nearest square at the lowest
/// elevation, which then becomes `start`.
pub struct GraphWalker<'a> {
    pub grid: &'a Grid,
    pub start: Coord,
    pub end: Coord,
    /// Whether the search follows the steps backward, from `end`.
    pub backward: bool,
    /// The best known number of steps from the origin to each square, by
    /// storage index; `None` where no trail to it is known.
    pub distances: Vec<Option<usize>>,
    /// The square from which each square was reached, by storage index.
    pub previous: Vec<Option<Coord>>,
    /// The squares whose distance is not final yet, by storage index.
    pub unvisited: Vec<bool>,
    /// How many squares are not final yet.
    pub remaining: usize,
    /// Whether the square that was made final last is the goal.
    pub found: bool,
}

impl<'a> GraphWalker<'a> {
    /// The square from which distances are counted.
    pub open spec fn origin(&self) -> Coord {
        if self.backward {
            self.end
        } else {
            self.start
        }
    }

    /// The square at which the route is picked up from the predecessors:
    /// the far end of the search.
    pub open spec fn head(&self) -> Coord {
        if self.backward {
            self.start
        } else {
            self.end
        }
    }

    /// A square at which the search stops.
    pub open spec fn is_goal(&self, c: Coord) -> bool {
        if self.backward {
            is_lowest(self.grid, c)
        } else {
            c == self.end
        }
    }

    /// The tentative distance of `c`.
    pub open spec fn dist(&self, c: Coord) -> Option<usize> {
        self.distances@[self.grid.index_of(c)]
    }

    /// The predecessor of `c`.
    pub open spec fn prev(&self, c: Coord) -> Option<Coord> {
        self.previous@[self.grid.index_of(c)]
    }

    /// `c` is on the grid and its distance is final.
    pub open spec fn settled(&self, c: Coord) -> bool {
        self.grid.contains(c) && !self.unvisited@[self.grid.index_of(c)]
    }

    /// `c` is on the grid and still in the frontier.
    pub open spec fn pending(&self, c: Coord) -> bool {
        self.grid.contains(c) && self.unvisited@[self.grid.index_of(c)]
    }

    /// What the maps hold of `c` fits together: a square without a distance
    /// has no predecessor; distance 0 belongs to the origin only; any other
    /// distance is one more than that of the predecessor, a settled square
    /// from which an edge leads to `c`.
    #[verifier::opaque]
    pub open spec fn chained(&self, c: Coord) -> bool {
        match self.dist(c) {
            None => self.prev(c) is None,
            Some(d) => {
                &&& d + self.remaining <= self.grid.cells@.len()
                &&& if d == 0 {
                    c == self.origin()
                } else {
                    &&& self.prev(c) is Some
                    &&& self.settled(self.prev(c)->0)
                    &&& self.dist(self.prev(c)->0) == Some((d - 1) as usize)
                    &&& self.grid.link(self.backward, self.prev(c)->0, c)
                }
            },
        }
    }

    /// The maps cover the grid and fit together.
    pub open spec fn wf(&self) -> bool {
        &&& self.grid.wf()
        &&& self.distances@.len() == self.grid.cells@.len()
        &&& self.previous@.len() == self.grid.cells@.len()
        &&& self.unvisited@.len() == self.grid.cells@.len()
        &&& self.remaining == count_open(self.unvisited@)
        &&& self.grid.contains(self.origin()) ==> self.dist(self.origin()) == Some(0usize)
        &&& forall|c: Coord| #[trigger] self.grid.contains(c) ==> self.chained(c)
    }

    /// Some trail of `k` edges leads from the origin to a goal.
    pub open spec fn arrives_in(&self, k: nat) -> bool {
        exists|t: Coord|
            self.is_goal(t) && #[trigger] joins(self.grid, self.backward, self.origin(), t, k)
    }

    /// The least number of edges from the origin to a goal.
    pub open spec fn goal_gap(&self) -> Option<nat> {
        least_of(|k: nat| self.arrives_in(k))
    }

    /// The distance of the goal at which the search stopped.
    pub open spec fn answer(&self) -> Option<nat> {
        if self.found {
            match self.dist(self.head()) {
                Some(d) => Some(d as nat),
                None => None,
            }
        } else {
            None
        }
    }

    /// Every edge that leaves a settled square with a distance has been
    /// relaxed.
    #[verifier::opaque]
    pub open spec fn relaxed(&self) -> bool {
        forall|u: Coord, v: Coord|
            #[trigger] self.settled(u) && self.dist(u) is Some && #[trigger] self.grid.link(
                self.backward,
                u,
                v,
            ) ==> self.dist(v) is Some && self.dist(v)->0 <= self.dist(u)->0 + 1
    }

    /// No settled square lies farther than a pending one.
    #[verifier::opaque]
    pub open spec fn ordered(&self) -> bool {
        forall|u: Coord, v: Coord|
            #[trigger] self.settled(u) && #[trigger] self.pending(v) && self.dist(v) is Some
                ==> self.dist(u) is Some && self.dist(u)->0 <= self.dist(v)->0
    }

    /// No settled square is a goal.
    #[verifier::opaque]
    pub open spec fn no_goal_settled(&self) -> bool {
        forall|c: Coord| #[trigger] self.settled(c) ==> !self.is_goal(c)
    }

    /// What holds between any two steps of the search, and after it.
    pub open spec fn inv(&self) -> bool {
        &&& self.wf()
        &&& if self.found {
            &&& self.grid.contains(self.head())
            &&& self.is_goal(self.head())
            &&& self.answer() == self.goal_gap()
        } else {
            &&& self.relaxed()
            &&& self.ordered()
            &&& self.no_goal_settled()
            &&& self.backward ==> self.start == self.end
        }
    }

    /// The search has stopped: at a goal, or with an empty frontier.
    pub open spec fn finished(&self) -> bool {
        self.found || self.remaining == 0
    }

    /// A tentative distance is the length of a trail from the origin.
    pub proof fn lemma_chain(&self, c: Coord)
        requires
            self.wf(),
            self.grid.contains(c),
            self.dist(c) is Some,
        ensures
            joins(self.grid, self.backward, self.origin(), c, self.dist(c)->0 as nat),
        decreases self.dist(c)->0,
    {
        reveal(joins);
        reveal(GraphWalker::chained);
        reveal(GraphWalker::relaxed);
        reveal(GraphWalker::ordered);
        reveal(GraphWalker::relaxing);
        reveal(GraphWalker::no_goal_settled);
        let d = self.dist(c)->0;
        assert(self.chained(c));
        if d == 0 {
            let p = seq![c];
            assert(is_trail(self.grid, self.backward, p));
            assert(p.len() == 1 && p[0] == c && p.last() == c);
        } else {
            let u = self.prev(c)->0;
            self.lemma_chain(u);
            let q = choose|q: Seq<Coord>| #[trigger]
                is_trail(self.grid, self.backward, q) && q.len() == (d - 1) as nat + 1 && q[0]
                    == self.origin() && q.last() == u;
            lemma_trail_push(self.grid, self.backward, q, c);
            let p = q.push(c);
            assert(is_trail(self.grid, self.backward, p));
            assert(p.len() == d as nat + 1 && p[0] == self.origin() && p.last() == c);
        }
    }

    /// While the search runs, the end of a trail of `k` edges from the
    /// origin has a distance of at most `k`, or some pending square has.
    pub proof fn lemma_frontier_bound(&self, p: Seq<Coord>)
        requires
            self.wf(),
            self.relaxed(),
            is_trail(self.grid, self.backward, p),
            p[0] == self.origin(),
        ensures
            ({
                ||| self.dist(p.last()) is Some && self.dist(p.last())->0 <= p.len() - 1
                ||| exists|w: Coord| #[trigger]
                    self.pending(w) && self.dist(w) is Some && self.dist(w)->0 <= p.len() - 1
            }),
        decreases p.len(),
    {
        reveal(GraphWalker::chained);
        reveal(GraphWalker::relaxed);
        reveal(GraphWalker::ordered);
        reveal(GraphWalker::relaxing);
        reveal(GraphWalker::no_goal_settled);
        if p.len() > 1 {
            let q = p.drop_last();
            lemma_trail_drop_last(self.grid, self.backward, p);
            self.lemma_frontier_bound(q);
            let u = q.last();
            let t = p.last();
            lemma_trail_on_grid(self.grid, self.backward, p, p.len() - 2);
            if self.dist(u) is Some && self.dist(u)->0 <= q.len() - 1 {
                if self.pending(u) {
                } else {
                    assert(self.settled(u));
                    assert(self.grid.link(self.backward, u, t));
                }
            } else {
                let w = choose|w: Coord| #[trigger]
                    self.pending(w) && self.dist(w) is Some && self.dist(w)->0 <= q.len() - 1;
                assert(self.pending(w) && self.dist(w)->0 <= p.len() - 1);
            }
        }
    }

    /// No tentative distance undercuts the least number of edges from the
    /// origin: whatever distance a square has been given, a trail of that
    /// many edges leads to it, so the least number is no greater.
    pub proof fn lemma_distance_is_reached(&self, c: Coord)
        requires
            self.wf(),
            self.grid.contains(c),
            self.dist(c) is Some,
        ensures
            least_of(|k: nat| joins(self.grid, self.backward, self.origin(), c, k)) is Some,
            least_of(|k: nat| joins(self.grid, self.backward, self.origin(), c, k))->0
                <= self.dist(c)->0,
    {
        self.lemma_chain(c);
        let f = |k: nat| joins(self.grid, self.backward, self.origin(), c, k);
        assert(f(self.dist(c)->0 as nat));
        lemma_least_of_exists(f, self.dist(c)->0 as nat);
    }

    /// `u` lies no farther than any pending square.
    pub open spec fn nearest(&self, u: Coord) -> bool {
        forall|w: Coord| #[trigger]
            self.pending(w) && self.dist(w) is Some ==> self.dist(u) is Some && self.dist(u)->0
                <= self.dist(w)->0
    }

    /// A pending goal that lies no farther than any pending square lies
    /// nearest of all goals: its distance is the least number of edges from
    /// the origin to a goal, and where it has none, no goal can be reached.
    pub proof fn lemma_goal_is_nearest(&self, u: Coord)
        requires
            self.inv(),
            !self.found,
            self.pending(u),
            self.is_goal(u),
            self.nearest(u),
        ensures
            self.goal_gap() == match self.dist(u) {
                Some(d) => Some(d as nat),
                None => None,
            },
    {
        reveal(joins);
        reveal(GraphWalker::chained);
        reveal(GraphWalker::relaxed);
        reveal(GraphWalker::ordered);
        reveal(GraphWalker::relaxing);
        reveal(GraphWalker::no_goal_settled);
        let f = |k: nat| self.arrives_in(k);
        assert forall|k: nat| #[trigger] f(k) implies self.dist(u) is Some && self.dist(u)->0
            <= k by {
            let t = choose|t: Coord|
                self.is_goal(t) && #[trigger] joins(self.grid, self.backward, self.origin(), t, k);
            let p = choose|p: Seq<Coord>| #[trigger]
                is_trail(self.grid, self.backward, p) && p.len() == k + 1 && p[0] == self.origin()
                    && p.last() == t;
            self.lemma_frontier_bound(p);
            lemma_trail_on_grid(self.grid, self.backward, p, p.len() - 1);
            if self.dist(t) is Some && self.dist(t)->0 <= k {
                if self.settled(t) {
                } else {
                    assert(self.pending(t));
                }
            } else {
                let w = choose|w: Coord| #[trigger]
                    self.pending(w) && self.dist(w) is Some && self.dist(w)->0 <= p.len() - 1;
                assert(self.pending(w));
            }
        }
        match self.dist(u) {
            Some(d) => {
                self.lemma_chain(u);
                assert(joins(self.grid, self.backward, self.origin(), u, d as nat));
                assert(f(d as nat));
                lemma_least_of_is(f, d as nat);
            },
            None => {
                lemma_least_of_none(f);
            },
        }
    }

    /// Once every square is settled and none of them is a goal, no goal can
    /// be reached.
    pub proof fn lemma_no_goal_left(&self)
        requires
            self.inv(),
            !self.found,
            self.remaining == 0,
        ensures
            self.goal_gap() is None,
    {
        reveal(joins);
        reveal(GraphWalker::chained);
        reveal(GraphWalker::relaxed);
        reveal(GraphWalker::ordered);
        reveal(GraphWalker::relaxing);
        reveal(GraphWalker::no_goal_settled);
        let f = |k: nat| self.arrives_in(k);
        lemma_count_bounds(self.unvisited@);
        assert forall|w: Coord| !#[trigger] self.pending(w) by {
            if self.grid.contains(w) {
                self.grid.lemma_index_in_range(w);
            }
        }
        assert forall|k: nat| !#[trigger] f(k) by {
            if f(k) {
                let t = choose|t: Coord|
                    self.is_goal(t) && #[trigger] joins(
                        self.grid,
                        self.backward,
                        self.origin(),
                        t,
                        k,
                    );
                let p = choose|p: Seq<Coord>| #[trigger]
                    is_trail(self.grid, self.backward, p) && p.len() == k + 1 && p[0]
                        == self.origin() && p.last() == t;
                self.lemma_frontier_bound(p);
                lemma_trail_on_grid(self.grid, self.backward, p, p.len() - 1);
                assert(!self.pending(t));
                if self.dist(t) is Some && self.dist(t)->0 <= k {
                    assert(self.settled(t));
                } else {
                    let w = choose|w: Coord| #[trigger]
                        self.pending(w) && self.dist(w) is Some && self.dist(w)->0 <= p.len() - 1;
                    assert(!self.pending(w));
                }
            }
        }
        lemma_least_of_none(f);
    }

    /// The place `i` holds the nearest pending square: it lies no farther
    /// than any pending square, and nearer than those before it.
    pub open spec fn is_nearest_open(&self, i: int) -> bool {
        &&& 0 <= i < self.unvisited@.len()
        &&& self.unvisited@[i]
        &&& forall|j: int|
            0 <= j < self.unvisited@.len() && #[trigger] self.unvisited@[j] ==> no_farther(
                self.distances@[i],
                self.distances@[j],
            )
        &&& forall|j: int|
            0 <= j < i && #[trigger] self.unvisited@[j] ==> nearer(
                self.distances@[i],
                self.distances@[j],
            )
    }

    /// The place of the nearest pending square, if the frontier holds any.
    pub open spec fn spec_nearest(&self) -> Option<int> {
        if exists|i: int| self.is_nearest_open(i) {
            Some(choose|i: int| self.is_nearest_open(i))
        } else {
            None
        }
    }

    /// There is one nearest pending square at most.
    pub proof fn lemma_nearest_unique(&self, i: int, j: int)
        requires
            self.is_nearest_open(i),
            self.is_nearest_open(j),
        ensures
            i == j,
    {
        if i < j {
            assert(nearer(self.distances@[j], self.distances@[i]));
            assert(no_farther(self.distances@[i], self.distances@[j]));
        } else if j < i {
            assert(nearer(self.distances@[i], self.distances@[j]));
            assert(no_farther(self.distances@[j], self.distances@[i]));
        }
    }

    /// The storage index of the nearest pending square: the first among
    /// those that lie no farther than any other; or nothing where the
    /// frontier is empty.
    pub fn nearest_open(&self) -> (r: Option<usize>)
        requires
            self.wf(),
        ensures
            match r {
                Some(i) => self.is_nearest_open(i as int) && self.spec_nearest() == Some(i as int),
                None => self.spec_nearest() is None && forall|j: int|
                    0 <= j < self.unvisited@.len() ==> !self.unvisited@[j],
            },
    {
        let n: usize = self.unvisited.len();
        let mut best: Option<usize> = None;
        let mut j: usize = 0;
        while j < n
            invariant
                j <= n,
                n == self.unvisited@.len(),
                n == self.distances@.len(),
                match best {
                    Some(i) => {
                        &&& i < j
                        &&& self.unvisited@[i as int]
                        &&& forall|k: int|
                            0 <= k < j && #[trigger] self.unvisited@[k] ==> no_farther(
                                self.distances@[i as int],
                                self.distances@[k],
                            )
                        &&& forall|k: int|
                            0 <= k < i && #[trigger] self.unvisited@[k] ==> nearer(
                                self.distances@[i as int],
                                self.distances@[k],
                            )
                    },
                    None => forall|k: int| 0 <= k < j ==> !self.unvisited@[k],
                },
            decreases n - j,
        {
            if self.unvisited[j] {
                match best {
                    None => {
                        best = Some(j);
                    },
                    Some(i) => {
                        if let Some(dj) = self.distances[j] {
                            let closer = match self.distances[i] {
                                Some(di) => dj < di,
                                None => true,
                            };
                            if closer {
                                best = Some(j);
                            }
                        }
                    },
                }
            }
            j += 1;
        }
        proof {
            match best {
                Some(i) => {
                    assert(self.is_nearest_open(i as int));
                    self.lemma_nearest_unique(i as int, self.spec_nearest()->0);
                },
                None => {
                    assert forall|i: int| !self.is_nearest_open(i) by {}
                },
            }
        }
        best
    }

    /// What holds while the edges that leave the newly settled `u`, which
    /// lies `du` from the origin, are relaxed one by one.
    #[verifier::opaque]
    pub open spec fn relaxing(&self, u: Coord, du: usize) -> bool {
        &&& self.wf()
        &&& !self.found
        &&& self.ordered()
        &&& self.no_goal_settled()
        &&& self.backward ==> self.start == self.end
        &&& self.settled(u)
        &&& self.dist(u) == Some(du)
        &&& du + 1 + self.remaining <= self.grid.cells@.len()
        &&& forall|x: Coord| #[trigger]
            self.settled(x) ==> self.dist(x) is Some && self.dist(x)->0 <= du
        &&& forall|x: Coord, v: Coord|
            #[trigger] self.settled(x) && x != u && self.dist(x) is Some
                && #[trigger] self.grid.link(self.backward, x, v) ==> self.dist(v) is Some
                && self.dist(v)->0 <= self.dist(x)->0 + 1
    }

    /// The way over `u`, which lies `du` from the origin, is shorter than
    /// what is known of `c`.
    pub open spec fn improves(&self, du: usize, c: Coord) -> bool {
        nearer(Some((du + 1) as usize), self.dist(c))
    }

    /// The distance of `c` once an edge from `u` to it has been relaxed, if
    /// there is such an edge.
    pub open spec fn relaxed_dist(&self, u: Coord, du: usize, c: Coord, edge: bool) -> Option<
        usize,
    > {
        if edge && self.improves(du, c) {
            Some((du + 1) as usize)
        } else {
            self.dist(c)
        }
    }

    /// The predecessor of `c` once an edge from `u` to it has been relaxed,
    /// if there is such an edge.
    pub open spec fn relaxed_prev(&self, u: Coord, du: usize, c: Coord, edge: bool) -> Option<
        Coord,
    > {
        if edge && self.improves(du, c) {
            Some(u)
        } else {
            self.prev(c)
        }
    }

    /// Relaxes the edge from the settled `u` to `v`: where the way over `u`
    /// is shorter than what is known of `v`, it is recorded.
    fn relax_edge(&mut self, u: &Coord, du: usize, v: &Coord)
        requires
            old(self).relaxing(*u, du),
            old(self).grid.link(old(self).backward, *u, *v),
        ensures
            final(self).relaxing(*u, du),
            final(self).dist(*v) is Some,
            final(self).dist(*v)->0 <= du + 1,
            forall|c: Coord| #[trigger]
                old(self).grid.contains(c) && old(self).dist(c) is Some ==> final(self).dist(
                    c,
                ) is Some && final(self).dist(c)->0 <= old(self).dist(c)->0,
            forall|c: Coord| #[trigger]
                old(self).grid.contains(c) ==> final(self).dist(c) == old(self).relaxed_dist(
                    *u,
                    du,
                    c,
                    c == *v,
                ) && final(self).prev(c) == old(self).relaxed_prev(*u, du, c, c == *v),
            final(self).found == old(self).found,
            final(self).grid == old(self).grid,
            final(self).start == old(self).start,
            final(self).end == old(self).end,
            final(self).backward == old(self).backward,
            final(self).unvisited == old(self).unvisited,
            final(self).remaining == old(self).remaining,
    {
        proof {
            reveal(GraphWalker::chained);
            reveal(GraphWalker::relaxed);
            reveal(GraphWalker::ordered);
            reveal(GraphWalker::relaxing);
            reveal(GraphWalker::no_goal_settled);
        }
        let ghost pre = *self;
        proof {
            self.grid.lemma_index_in_range(*v);
            self.grid.lemma_index_in_range(*u);
            assert(self.grid.cells.len() == self.grid.cells@.len());
        }
        let j: usize = self.grid.index(v);
        let alt: usize = du + 1;
        let better = match self.distances[j] {
            Some(dv) => alt < dv,
            None => true,
        };
        if better {
            self.previous.set(j, Some(*u));
            self.distances.set(j, Some(alt));
            proof {
                let post = *self;
                assert(!pre.settled(*v));
                assert(pre.pending(*v));
                assert forall|c: Coord| #[trigger] post.grid.contains(c) && c != *v implies
                    post.dist(c) == pre.dist(c) && post.prev(c) == pre.prev(c) by {
                    post.grid.lemma_index_in_range(c);
                }
                assert forall|c: Coord| post.settled(c) == pre.settled(c) && post.pending(c)
                    == pre.pending(c) by {}
                assert forall|c: Coord| #[trigger] post.grid.contains(c) implies post.chained(
                    c,
                ) by {
                    assert(pre.chained(c));
                    if c != *v {
                        if pre.dist(c) is Some && pre.dist(c)->0 != 0 {
                            let x = pre.prev(c)->0;
                            assert(pre.settled(x));
                        }
                    }
                }
                if post.grid.contains(post.origin()) {
                    assert(pre.chained(post.origin()));
                    if post.origin() == *v {
                        assert(pre.dist(*v) == Some(0usize));
                    }
                }
                assert(post.wf());
                assert forall|x: Coord, w: Coord|
                    #[trigger] post.settled(x) && #[trigger] post.pending(w) && post.dist(
                        w,
                    ) is Some implies post.dist(x) is Some && post.dist(x)->0 <= post.dist(w)->0 by {
                    assert(pre.settled(x));
                    assert(pre.pending(w));
                }
                assert forall|x: Coord, w: Coord|
                    #[trigger] post.settled(x) && x != *u && post.dist(x) is Some
                        && #[trigger] post.grid.link(post.backward, x, w) implies post.dist(
                        w,
                    ) is Some && post.dist(w)->0 <= post.dist(x)->0 + 1 by {
                    assert(pre.settled(x));
                    assert(pre.grid.link(pre.backward, x, w));
                }
                assert forall|x: Coord| #[trigger] post.settled(x) implies post.dist(x) is Some
                    && post.dist(x)->0 <= du by {
                    assert(pre.settled(x));
                }
                assert forall|c: Coord| #[trigger] post.settled(c) implies !post.is_goal(c) by {
                    assert(pre.settled(c));
                }
            }
        }
    }

    /// Whether `c`, a square on the grid, is a goal of the search.
    fn at_goal(&self, c: &Coord) -> (r: bool)
        requires
            self.grid.wf(),
            self.grid.contains(*c),
        ensures
            r == self.is_goal(*c),
    {
        if self.backward {
            match self.grid.cell(c) {
                Some(cell) => cell.elevation() == 0,
                None => false,
            }
        } else {
            *c == self.end
        }
    }

    /// `next` is `self` after `u` has left the frontier.
    pub open spec fn closes(&self, next: &GraphWalker<'a>, u: Coord) -> bool {
        &&& next.grid == self.grid
        &&& next.start == self.start
        &&& next.end == self.end
        &&& next.backward == self.backward
        &&& next.found == self.found
        &&& next.distances == self.distances
        &&& next.previous == self.previous
        &&& next.unvisited@ == self.unvisited@.update(self.grid.index_of(u), false)
        &&& next.remaining + 1 == self.remaining
    }

    /// Taking the nearest pending square out of the frontier keeps the maps
    /// in order; what is left to do is to relax the edges that leave it.
    pub proof fn lemma_closing(&self, next: &GraphWalker<'a>, u: Coord)
        requires
            self.inv(),
            !self.found,
            self.pending(u),
            self.nearest(u),
            !self.is_goal(u),
            self.closes(next, u),
        ensures
            next.wf(),
            match self.dist(u) {
                Some(du) => next.relaxing(u, du),
                None => next.inv(),
            },
    {
        reveal(GraphWalker::chained);
        reveal(GraphWalker::relaxed);
        reveal(GraphWalker::ordered);
        reveal(GraphWalker::relaxing);
        reveal(GraphWalker::no_goal_settled);
        self.grid.lemma_index_in_range(u);
        lemma_count_close(self.unvisited@, self.grid.index_of(u));
        assert forall|c: Coord| #[trigger] next.grid.contains(c) implies (next.settled(c) == (
        self.settled(c) || c == u)) && (next.pending(c) == (self.pending(c) && c != u)) by {
            next.grid.lemma_index_in_range(c);
        }
        assert forall|c: Coord| #[trigger] next.grid.contains(c) implies next.chained(c) by {
            assert(self.chained(c));
            if self.dist(c) is Some && self.dist(c)->0 != 0 {
                let x = self.prev(c)->0;
                assert(self.settled(x));
                assert(next.grid.contains(x));
            }
        }
        assert(next.wf());
        assert forall|x: Coord, w: Coord|
            #[trigger] next.settled(x) && #[trigger] next.pending(w) && next.dist(w) is Some implies
            next.dist(x) is Some && next.dist(x)->0 <= next.dist(w)->0 by {
            if x != u {
                assert(self.settled(x));
            }
            assert(self.pending(w));
        }
        assert forall|c: Coord| #[trigger] next.settled(c) implies !next.is_goal(c) by {
            if c != u {
                assert(self.settled(c));
            }
        }
        assert forall|x: Coord, v: Coord|
            #[trigger] next.settled(x) && x != u && next.dist(x) is Some
                && #[trigger] next.grid.link(next.backward, x, v) implies next.dist(v) is Some
            && next.dist(v)->0 <= next.dist(x)->0 + 1 by {
            assert(self.settled(x));
            assert(self.grid.link(self.backward, x, v));
        }
        match self.dist(u) {
            Some(du) => {
                assert(self.chained(u));
                assert forall|x: Coord| #[trigger] next.settled(x) implies next.dist(x) is Some
                    && next.dist(x)->0 <= du by {
                    if x != u {
                        assert(self.settled(x));
                    }
                }
            },
            None => {
                assert(next.relaxed());
            },
        }
    }

    /// `next` is `self` after the search has stopped at the goal `u`.
    pub open spec fn stops(&self, next: &GraphWalker<'a>, u: Coord) -> bool {
        &&& next.grid == self.grid
        &&& next.start == if self.backward {
            u
        } else {
            self.start
        }
        &&& next.end == self.end
        &&& next.backward == self.backward
        &&& next.found
        &&& next.distances == self.distances
        &&& next.previous == self.previous
        &&& next.unvisited@ == self.unvisited@.update(self.grid.index_of(u), false)
        &&& next.remaining + 1 == self.remaining
    }

    /// The goals, the origin and the edges of a search decide its least
    /// number of edges to a goal.
    pub proof fn lemma_same_gap(&self, other: &GraphWalker<'a>)
        requires
            self.grid == other.grid,
            self.backward == other.backward,
            self.origin() == other.origin(),
            self.end == other.end,
        ensures
            self.goal_gap() == other.goal_gap(),
    {
        assert forall|k: nat| self.arrives_in(k) == other.arrives_in(k) by {
            assert forall|t: Coord| self.is_goal(t) == other.is_goal(t) by {}
            if self.arrives_in(k) {
                let t = choose|t: Coord|
                    self.is_goal(t) && #[trigger] joins(
                        self.grid,
                        self.backward,
                        self.origin(),
                        t,
                        k,
                    );
                assert(other.is_goal(t) && joins(
                    other.grid,
                    other.backward,
                    other.origin(),
                    t,
                    k,
                ));
            }
            if other.arrives_in(k) {
                let t = choose|t: Coord|
                    other.is_goal(t) && #[trigger] joins(
                        other.grid,
                        other.backward,
                        other.origin(),
                        t,
                        k,
                    );
                assert(self.is_goal(t) && joins(self.grid, self.backward, self.origin(), t, k));
            }
        }
        lemma_least_of_same(|k: nat| self.arrives_in(k), |k: nat| other.arrives_in(k));
    }

    /// The first goal to leave the frontier is the nearest goal.
    pub proof fn lemma_stopping(&self, next: &GraphWalker<'a>, u: Coord)
        requires
            self.inv(),
            !self.found,
            self.pending(u),
            self.nearest(u),
            self.is_goal(u),
            self.stops(next, u),
        ensures
            next.inv(),
    {
        reveal(GraphWalker::chained);
        reveal(GraphWalker::relaxed);
        reveal(GraphWalker::ordered);
        reveal(GraphWalker::relaxing);
        reveal(GraphWalker::no_goal_settled);
        self.grid.lemma_index_in_range(u);
        lemma_count_close(self.unvisited@, self.grid.index_of(u));
        self.lemma_goal_is_nearest(u);
        self.lemma_same_gap(next);
        assert forall|c: Coord| #[trigger] next.grid.contains(c) implies (next.settled(c) == (
        self.settled(c) || c == u)) by {
            next.grid.lemma_index_in_range(c);
        }
        assert forall|c: Coord| #[trigger] next.grid.contains(c) implies next.chained(c) by {
            assert(self.chained(c));
            if self.dist(c) is Some && self.dist(c)->0 != 0 {
                let x = self.prev(c)->0;
                assert(self.settled(x));
                assert(next.grid.contains(x));
            }
        }
        assert(next.head() == u);
        assert(next.wf());
    }

    /// Once every edge that leaves `u` has been relaxed, the search is in
    /// order again.
    pub proof fn lemma_relaxed_all(&self, u: Coord, du: usize)
        requires
            self.relaxing(u, du),
            forall|v: Coord| #[trigger]
                self.grid.link(self.backward, u, v) ==> self.dist(v) is Some && self.dist(v)->0
                    <= du + 1,
        ensures
            self.inv(),
    {
        reveal(GraphWalker::chained);
        reveal(GraphWalker::relaxed);
        reveal(GraphWalker::ordered);
        reveal(GraphWalker::relaxing);
        reveal(GraphWalker::no_goal_settled);
        assert forall|x: Coord, v: Coord|
            #[trigger] self.settled(x) && self.dist(x) is Some && #[trigger] self.grid.link(
                self.backward,
                x,
                v,
            ) implies self.dist(v) is Some && self.dist(v)->0 <= self.dist(x)->0 + 1 by {
            if x == u {
            }
        }
    }

    /// Relaxes every edge that leaves the newly settled `u`.
    fn relax_all(&mut self, u: &Coord, du: usize)
        requires
            old(self).relaxing(*u, du),
        ensures
            final(self).inv(),
            !final(self).found,
            final(self).grid == old(self).grid,
            final(self).start == old(self).start,
            final(self).end == old(self).end,
            final(self).backward == old(self).backward,
            final(self).unvisited == old(self).unvisited,
            final(self).remaining == old(self).remaining,
            forall|c: Coord| #[trigger]
                old(self).grid.contains(c) ==> final(self).dist(c) == old(self).relaxed_dist(
                    *u,
                    du,
                    c,
                    old(self).grid.link(old(self).backward, *u, c),
                ) && final(self).prev(c) == old(self).relaxed_prev(
                    *u,
                    du,
                    c,
                    old(self).grid.link(old(self).backward, *u, c),
                ),
    {
        let ghost mid = *self;
        proof {
            reveal(GraphWalker::relaxing);
        }
        let ns = self.grid.links(self.backward, u);
        let mut k: usize = 0;
        assert(ns@.take(0) =~= Seq::<Coord>::empty());
        while k < ns.len()
            invariant
                k <= ns@.len(),
                self.relaxing(*u, du),
                mid == *old(self),
                self.grid == mid.grid,
                self.start == mid.start,
                self.end == mid.end,
                self.backward == mid.backward,
                self.unvisited == mid.unvisited,
                self.remaining == mid.remaining,
                ns@.no_duplicates(),
                forall|m: int|
                    0 <= m < ns@.len() ==> self.grid.link(self.backward, *u, #[trigger] ns@[m]),
                forall|m: int|
                    0 <= m < k ==> self.dist(#[trigger] ns@[m]) is Some && self.dist(ns@[m])->0
                        <= du + 1,
                forall|c: Coord| #[trigger]
                    mid.grid.contains(c) ==> self.dist(c) == mid.relaxed_dist(
                        *u,
                        du,
                        c,
                        ns@.take(k as int).contains(c),
                    ) && self.prev(c) == mid.relaxed_prev(
                        *u,
                        du,
                        c,
                        ns@.take(k as int).contains(c),
                    ),
            decreases ns@.len() - k,
        {
            let v = ns[k];
            let ghost before = *self;
            let ghost seen = ns@.take(k as int);
            self.relax_edge(u, du, &v);
            proof {
                let now = ns@.take(k + 1);
                assert forall|m: int| 0 <= m < k + 1 implies self.dist(#[trigger] ns@[m]) is Some
                    && self.dist(ns@[m])->0 <= du + 1 by {
                    if m < k {
                        assert(before.grid.link(before.backward, *u, ns@[m]));
                        assert(before.grid.contains(ns@[m]));
                    }
                }
                assert forall|c: Coord| #[trigger] mid.grid.contains(c) implies self.dist(c)
                    == mid.relaxed_dist(*u, du, c, now.contains(c)) && self.prev(c)
                    == mid.relaxed_prev(*u, du, c, now.contains(c)) by {
                    assert(before.grid.contains(c));
                    if c == v {
                        assert(now[k as int] == c);
                        if seen.contains(c) {
                            let m = choose|m: int| 0 <= m < seen.len() && seen[m] == c;
                            assert(ns@[m] == ns@[k as int]);
                        }
                    } else {
                        if now.contains(c) {
                            let m = choose|m: int| 0 <= m < now.len() && now[m] == c;
                            assert(seen[m] == c);
                        }
                        if seen.contains(c) {
                            let m = choose|m: int| 0 <= m < seen.len() && seen[m] == c;
                            assert(now[m] == c);
                        }
                    }
                }
            }
            k += 1;
        }
        proof {
            assert(ns@.take(k as int) =~= ns@);
            assert forall|v: Coord| #[trigger] self.grid.link(self.backward, *u, v) implies
                self.dist(v) is Some && self.dist(v)->0 <= du + 1 by {
                assert(ns@.contains(v));
                let m = choose|m: int| 0 <= m < ns@.len() && ns@[m] == v;
                assert(self.dist(ns@[m]) is Some);
            }
            self.lemma_relaxed_all(*u, du);
            reveal(GraphWalker::relaxing);
        }
    }

    /// What one step leaves of the maps of `self` in `next`: the nearest
    /// pending square has left the frontier. Where it is a goal the search
    /// has stopped there, and looking backward it has become the start.
    /// Where it is no goal and has a distance, every edge that leaves it
    /// has been relaxed: a square at its end that was farther than one
    /// step beyond it now lies one step beyond it, with it as predecessor.
    pub open spec fn steps_to(&self, next: &GraphWalker<'a>) -> bool {
        let i = self.spec_nearest()->0;
        let u = self.grid.coord_at(i);
        &&& self.spec_nearest() is Some
        &&& next.unvisited@ == self.unvisited@.update(i, false)
        &&& next.found == self.is_goal(u)
        &&& next.start == if self.backward && self.is_goal(u) {
            u
        } else {
            self.start
        }
        &&& forall|c: Coord| #[trigger]
            self.grid.contains(c) ==> {
                let edge = !self.is_goal(u) && self.dist(u) is Some && self.grid.link(
                    self.backward,
                    u,
                    c,
                );
                &&& next.dist(c) == self.relaxed_dist(u, self.dist(u).unwrap_or(0), c, edge)
                &&& next.prev(c) == self.relaxed_prev(u, self.dist(u).unwrap_or(0), c, edge)
            }
    }

    /// One step of the search: takes the nearest pending square out of the
    /// frontier; stops there if it is a goal; otherwise relaxes the edges
    /// that leave it. Says whether another step can follow.
    pub fn step(&mut self) -> (more: bool)
        requires
            old(self).inv(),
            !old(self).finished(),
        ensures
            final(self).inv(),
            final(self).remaining + 1 == old(self).remaining,
            final(self).grid == old(self).grid,
            final(self).end == old(self).end,
            final(self).backward == old(self).backward,
            !final(self).backward ==> final(self).start == old(self).start,
            more == !final(self).finished(),
            old(self).steps_to(final(self)),
    {
        let ghost pre = *self;
        let i: usize = match self.nearest_open() {
            Some(i) => i,
            None => {
                proof {
                    lemma_count_none(self.unvisited@);
                }
                return false;
            },
        };
        proof {
            let w = self.grid.width as int;
            let h = self.grid.height as int;
            assert(w > 0) by (nonlinear_arith)
                requires
                    0 <= i < w * h,
                    0 <= w,
            ;
            self.grid.lemma_coord_in_range(i as int);
            lemma_count_close(self.unvisited@, i as int);
        }
        let u = self.grid.idx2coord(i);
        proof {
            assert(pre.pending(u));
            assert forall|w: Coord| #[trigger] pre.pending(w) && pre.dist(w) is Some implies
                pre.dist(u) is Some && pre.dist(u)->0 <= pre.dist(w)->0 by {
                pre.grid.lemma_index_in_range(w);
            }
        }
        self.unvisited.set(i, false);
        self.remaining = self.remaining - 1;
        if self.at_goal(&u) {
            self.found = true;
            if self.backward {
                self.start = u;
            }
            proof {
                pre.lemma_stopping(self, u);
            }
            return false;
        }
        proof {
            pre.lemma_closing(self, u);
        }
        match self.distances[i] {
            Some(du) => {
                self.relax_all(&u, du);
            },
            None => {},
        }
        self.remaining > 0
    }

    /// A search that has made no step yet.
    fn fresh(grid: &'a Grid, start: Coord, end: Coord, backward: bool) -> (w: Self)
        requires
            grid.wf(),
            backward ==> start == end,
        ensures
            w.inv(),
            !w.found,
            w.grid == grid,
            w.start == start,
            w.end == end,
            w.backward == backward,
            w.remaining == grid.cells@.len(),
            forall|c: Coord| #[trigger]
                grid.contains(c) ==> w.dist(c) == if c == w.origin() {
                    Some(0usize)
                } else {
                    None
                },
            forall|i: int| 0 <= i < w.unvisited@.len() ==> w.unvisited@[i],
            forall|i: int| 0 <= i < w.previous@.len() ==> w.previous@[i] is None,
    {
        proof {
            reveal(GraphWalker::chained);
            reveal(GraphWalker::relaxed);
            reveal(GraphWalker::ordered);
            reveal(GraphWalker::relaxing);
            reveal(GraphWalker::no_goal_settled);
        }
        let n: usize = grid.cells.len();
        let mut distances: Vec<Option<usize>> = Vec::new();
        let mut previous: Vec<Option<Coord>> = Vec::new();
        let mut unvisited: Vec<bool> = Vec::new();
        let mut i: usize = 0;
        while i < n
            invariant
                i <= n,
                distances@.len() == i,
                previous@.len() == i,
                unvisited@.len() == i,
                count_open(unvisited@) == i,
                forall|j: int| 0 <= j < i ==> distances@[j] is None,
                forall|j: int| 0 <= j < i ==> previous@[j] is None,
                forall|j: int| 0 <= j < i ==> unvisited@[j],
            decreases n - i,
        {
            distances.push(None);
            previous.push(None);
            let ghost before = unvisited@;
            unvisited.push(true);
            assert(unvisited@.drop_last() =~= before);
            i += 1;
        }
        let origin = if backward {
            end
        } else {
            start
        };
        if grid.in_bounds(&origin) {
            proof {
                grid.lemma_index_in_range(origin);
            }
            let at: usize = grid.index(&origin);
            distances.set(at, Some(0));
        }
        let w = GraphWalker {
            grid,
            start,
            end,
            backward,
            distances,
            previous,
            unvisited,
            remaining: n,
            found: false,
        };
        proof {
            assert forall|c: Coord| #[trigger] grid.contains(c) implies w.chained(c) && w.dist(c)
                == if c == w.origin() {
                Some(0usize)
            } else {
                None
            } by {
                grid.lemma_index_in_range(c);
                if grid.contains(origin) {
                    grid.lemma_index_in_range(origin);
                }
            }
            assert forall|c: Coord| !#[trigger] w.settled(c) by {
                if grid.contains(c) {
                    grid.lemma_index_in_range(c);
                }
            }
            assert(w.wf());
        }
        w
    }

    /// A search for a shortest walk from `start` to `end`.
    pub fn new(grid: &'a Grid, start: Coord, end: Coord) -> (w: Self)
        requires
            grid.wf(),
        ensures
            w.inv(),
            !w.found,
            !w.backward,
            w.grid == grid,
            w.start == start,
            w.end == end,
            w.remaining == grid.cells@.len(),
            forall|c: Coord| #[trigger]
                grid.contains(c) ==> w.dist(c) == if c == start {
                    Some(0usize)
                } else {
                    None
                },
            forall|i: int| 0 <= i < w.unvisited@.len() ==> w.unvisited@[i],
            forall|i: int| 0 <= i < w.previous@.len() ==> w.previous@[i] is None,
    {
        GraphWalker::fresh(grid, start, end, false)
    }

    /// A search for a shortest walk to `end` from whichever square at the
    /// lowest elevation lies nearest: it follows the steps backward from
    /// `end`.
    pub fn from_lowest(grid: &'a Grid, end: Coord) -> (w: Self)
        requires
            grid.wf(),
        ensures
            w.inv(),
            !w.found,
            w.backward,
            w.grid == grid,
            w.end == end,
            w.start == end,
            w.remaining == grid.cells@.len(),
            forall|c: Coord| #[trigger]
                grid.contains(c) ==> w.dist(c) == if c == end {
                    Some(0usize)
                } else {
                    None
                },
            forall|i: int| 0 <= i < w.unvisited@.len() ==> w.unvisited@[i],
            forall|i: int| 0 <= i < w.previous@.len() ==> w.previous@[i] is None,
    {
        GraphWalker::fresh(grid, end, end, true)
    }
    /// Looking forward, the least number of edges to the goal is the number
    /// of steps of a shortest walk from `start` to `end`.
    pub proof fn lemma_gap_forward(&self)
        requires
            !self.backward,
        ensures
            self.goal_gap() == shortest(self.grid, self.start, self.end),
    {
        let f = |k: nat| self.arrives_in(k);
        let g = |k: nat| reachable_in(self.grid, self.start, self.end, k);
        assert forall|k: nat| #[trigger] f(k) == g(k) by {
            if f(k) {
                let t = choose|t: Coord|
                    self.is_goal(t) && #[trigger] joins(
                        self.grid,
                        self.backward,
                        self.origin(),
                        t,
                        k,
                    );
                assert(g(k));
            }
            if g(k) {
                assert(self.is_goal(self.end) && joins(
                    self.grid,
                    self.backward,
                    self.origin(),
                    self.end,
                    k,
                ));
            }
        }
        lemma_least_of_same(f, g);
    }

    /// Looking backward, the least number of edges to a goal is the number
    /// of steps of a shortest walk to `end` from any lowest square.
    pub proof fn lemma_gap_backward(&self)
        requires
            self.backward,
        ensures
            self.goal_gap() == shortest_from_lowest(self.grid, self.end),
    {
        let f = |k: nat| self.arrives_in(k);
        let g = |k: nat| reachable_from_lowest_in(self.grid, self.end, k);
        assert forall|k: nat| #[trigger] f(k) == g(k) by {
            if f(k) {
                let t = choose|t: Coord|
                    self.is_goal(t) && #[trigger] joins(
                        self.grid,
                        self.backward,
                        self.origin(),
                        t,
                        k,
                    );
                lemma_joins_reverse(self.grid, self.end, t, k);
                assert(is_lowest(self.grid, t) && reachable_in(self.grid, t, self.end, k));
            }
            if g(k) {
                let t = choose|t: Coord|
                    is_lowest(self.grid, t) && #[trigger] reachable_in(
                        self.grid,
                        t,
                        self.end,
                        k,
                    );
                lemma_joins_reverse(self.grid, self.end, t, k);
                assert(self.is_goal(t) && joins(self.grid, self.backward, self.origin(), t, k));
            }
        }
        lemma_least_of_same(f, g);
    }

    /// Runs the search to its end: step by step until a goal leaves the
    /// frontier or the frontier is empty. Afterwards `answer` is the number
    /// of steps of a shortest walk, or nothing where no walk exists.
    pub fn search(&mut self)
        requires
            old(self).inv(),
        ensures
            final(self).inv(),
            final(self).finished(),
            final(self).grid == old(self).grid,
            final(self).end == old(self).end,
            final(self).backward == old(self).backward,
            !final(self).backward ==> final(self).start == old(self).start,
            final(self).answer() == final(self).goal_gap(),
            !final(self).backward ==> final(self).answer() == shortest(
                final(self).grid,
                final(self).start,
                final(self).end,
            ),
            final(self).backward ==> final(self).answer() == shortest_from_lowest(
                final(self).grid,
                final(self).end,
            ),
    {
        let ghost first = *self;
        let mut more: bool = !self.found && self.remaining > 0;
        while more
            invariant
                self.inv(),
                more == !self.finished(),
                self.grid == first.grid,
                self.end == first.end,
                self.backward == first.backward,
                !self.backward ==> self.start == first.start,
            decreases self.remaining,
        {
            more = self.step();
        }
        proof {
            if !self.found {
                self.lemma_no_goal_left();
            }
            if self.backward {
                self.lemma_gap_backward();
            } else {
                self.lemma_gap_forward();
            }
        }
    }

    /// The number of steps of the route that `path` puts together: the
    /// distance of the far end of the search, once that is known.
    pub open spec fn reach(&self) -> Option<usize> {
        if (self.backward && !self.found) || !self.grid.contains(self.head()) {
            None
        } else {
            self.dist(self.head())
        }
    }

    /// After the search, the route that the predecessors record has as many
    /// steps as a shortest walk, and there is none where there is no walk.
    pub proof fn lemma_reach_is_least(&self)
        requires
            self.inv(),
            self.finished(),
        ensures
            match self.reach() {
                Some(d) => self.goal_gap() == Some(d as nat),
                None => self.goal_gap() is None,
            },
    {
        reveal(GraphWalker::no_goal_settled);
        if self.found {
        } else {
            self.lemma_no_goal_left();
            if !self.backward && self.grid.contains(self.end) {
                lemma_count_bounds(self.unvisited@);
                self.grid.lemma_index_in_range(self.end);
                assert(self.settled(self.end));
            }
        }
    }

    /// Two searches over one grid with the same origin and the same goals
    /// end with routes of the same number of steps, or both with none,
    /// whichever square each took first where several lay equally near.
    pub proof fn lemma_search_repeatable(&self, other: &GraphWalker<'a>)
        requires
            self.inv(),
            self.finished(),
            other.inv(),
            other.finished(),
            self.grid == other.grid,
            self.end == other.end,
            self.backward == other.backward,
            !self.backward ==> self.start == other.start,
        ensures
            self.reach() == other.reach(),
    {
        self.lemma_reach_is_least();
        other.lemma_reach_is_least();
        self.lemma_same_gap(other);
    }

    /// Whatever the search has recorded so far, the tentative distance of a
    /// square is never smaller than the number of steps of a shortest walk
    /// from `start` to it.
    pub proof fn lemma_never_below_shortest(&self, t: Coord)
        requires
            self.wf(),
            !self.backward,
            self.grid.contains(t),
            self.dist(t) is Some,
        ensures
            shortest(self.grid, self.start, t) is Some,
            shortest(self.grid, self.start, t)->0 <= self.dist(t)->0,
    {
        self.lemma_distance_is_reached(t);
        let f = |k: nat| joins(self.grid, self.backward, self.origin(), t, k);
        let g = |k: nat| reachable_in(self.grid, self.start, t, k);
        assert forall|k: nat| #[trigger] f(k) == g(k) by {}
        lemma_least_of_same(f, g);
    }

    /// The distance of `c`, or 0 where it has none.
    pub open spec fn rank(&self, c: Coord) -> int {
        match self.dist(c) {
            Some(d) => d as int,
            None => 0,
        }
    }

    /// A sequence that follows the predecessors from the far end to the
    /// origin is, read from its end, a trail from the origin.
    pub proof fn lemma_followed(&self, p: Seq<Coord>)
        requires
            p.len() > 0,
            self.grid.contains(p.last()),
            forall|i: int|
                0 <= i < p.len() - 1 ==> self.grid.link(self.backward, p[i + 1], #[trigger] p[i]),
        ensures
            is_trail(self.grid, self.backward, p.reverse()),
            p.reverse()[0] == p.last(),
            p.reverse().last() == p[0],
            p.reverse().len() == p.len(),
    {
        let q = p.reverse();
        assert forall|i: int| 0 <= i < q.len() - 1 implies self.grid.link(
            self.backward,
            #[trigger] q[i],
            q[i + 1],
        ) by {
            let j = p.len() - 2 - i;
            assert(self.grid.link(self.backward, p[j + 1], p[j]));
        }
    }

    /// The route that the predecessors record, from `start` to `end`: it
    /// follows them from the far end until it meets the origin. Where a
    /// square on the way has no predecessor there is no route.
    pub fn path(&self) -> (r: Option<Vec<Coord>>)
        requires
            self.wf(),
        ensures
            match r {
                Some(p) => {
                    &&& is_walk(self.grid, p@)
                    &&& p@[0] == self.start
                    &&& p@.last() == self.end
                    &&& self.reach() == Some((p@.len() - 1) as usize)
                },
                None => self.reach() is None,
            },
    {
        if self.backward && !self.found {
            return None;
        }
        let head = if self.backward {
            self.start
        } else {
            self.end
        };
        let origin = if self.backward {
            self.end
        } else {
            self.start
        };
        if !self.grid.in_bounds(&head) {
            return None;
        }
        let mut p: Vec<Coord> = Vec::new();
        let mut u = head;
        p.push(u);
        while u != origin
            invariant
                self.wf(),
                head == self.head(),
                origin == self.origin(),
                self.grid.contains(u),
                p@.len() > 0,
                p@[0] == head,
                p@.last() == u,
                forall|i: int|
                    0 <= i < p@.len() - 1 ==> self.grid.link(
                        self.backward,
                        p@[i + 1],
                        #[trigger] p@[i],
                    ),
                match self.dist(u) {
                    Some(d) => self.dist(head) is Some && p@.len() + d == self.dist(head)->0 + 1,
                    None => u == head,
                },
            decreases self.rank(u),
        {
            proof {
                reveal(GraphWalker::chained);
                self.grid.lemma_index_in_range(u);
                assert(self.chained(u));
                assert(self.grid.cells.len() == self.grid.cells@.len());
            }
            let at: usize = self.grid.index(&u);
            match self.previous[at] {
                Some(v) => {
                    let ghost before = p@;
                    u = v;
                    p.push(u);
                    proof {
                        assert forall|i: int| 0 <= i < p@.len() - 1 implies self.grid.link(
                            self.backward,
                            p@[i + 1],
                            #[trigger] p@[i],
                        ) by {
                            if i < before.len() - 1 {
                                assert(p@[i] == before[i]);
                                assert(p@[i + 1] == before[i + 1]);
                            }
                        }
                    }
                },
                None => {
                    return None;
                },
            }
        }
        proof {
            reveal(GraphWalker::chained);
            assert(self.chained(u));
            self.lemma_followed(p@);
            if self.backward {
                lemma_trail_reverse(self.grid, false, p@.reverse());
                assert(p@.reverse().reverse() =~= p@);
            }
        }
        if self.backward {
            Some(p)
        } else {
            Some(reversed(p))
        }
    }
}

/// The same squares, last to first.
pub fn reversed(p: Vec<Coord>) -> (r: Vec<Coord>)
    ensures
        r@ == p@.reverse(),
{
    let mut r: Vec<Coord> = Vec::new();
    let mut i: usize = p.len();
    while i > 0
        invariant
            i <= p@.len(),
            r@.len() == p@.len() - i,
            forall|k: int| 0 <= k < r@.len() ==> r@[k] == p@[p@.len() - 1 - k],
        decreases i,
    {
        i -= 1;
        r.push(p[i]);
    }
    assert(r@ =~= p@.reverse());
    r
}

/// The squares of a shortest walk from `start` to `end`, both included, or
/// nothing where no walk leads there.
pub fn shortest_path(grid: &Grid, start: Coord, end: Coord) -> (r: Option<Vec<Coord>>)
    requires
        grid.wf(),
    ensures
        match r {
            Some(p) => {
                &&& is_walk(grid, p@)
                &&& p@[0] == start
                &&& p@.last() == end
                &&& shortest(grid, start, end) == Some((p@.len() - 1) as nat)
            },
            None => shortest(grid, start, end) is None,
        },
{
    let mut walker = GraphWalker::new(grid, start, end);
    walker.search();
    proof {
        walker.lemma_reach_is_least();
    }
    let r = walker.path();
    proof {
        if r is Some {
            assert(r->0.len() == r->0@.len());
        }
    }
    r
}

/// The number of steps of a shortest walk from `start` to `end`, or nothing
/// where no walk leads there.
pub fn fewest_steps(grid: &Grid, start: Coord, end: Coord) -> (r: Option<usize>)
    requires
        grid.wf(),
    ensures
        r is Some == shortest(grid, start, end) is Some,
        r is Some ==> r->0 == shortest(grid, start, end)->0,
{
    match shortest_path(grid, start, end) {
        Some(p) => Some(p.len() - 1),
        None => None,
    }
}

/// The squares of a shortest walk to `end` among those that start at any
/// square of the lowest elevation, or nothing where no such walk exists.
pub fn shortest_path_from_lowest(grid: &Grid, end: Coord) -> (r: Option<Vec<Coord>>)
    requires
        grid.wf(),
    ensures
        match r {
            Some(p) => {
                &&& is_walk(grid, p@)
                &&& is_lowest(grid, p@[0])
                &&& p@.last() == end
                &&& shortest_from_lowest(grid, end) == Some((p@.len() - 1) as nat)
            },
            None => shortest_from_lowest(grid, end) is None,
        },
{
    let mut walker = GraphWalker::from_lowest(grid, end);
    walker.search();
    proof {
        walker.lemma_reach_is_least();
    }
    let r = walker.path();
    proof {
        if r is Some {
            assert(r->0.len() == r->0@.len());
        }
    }
    r
}

/// The number of steps of a shortest walk to `end` from any square of the
/// lowest elevation, or nothing where no such walk exists.
pub fn fewest_steps_from_lowest(grid: &Grid, end: Coord) -> (r: Option<usize>)
    requires
        grid.wf(),
    ensures
        r is Some == shortest_from_lowest(grid, end) is Some,
        r is Some ==> r->0 == shortest_from_lowest(grid, end)->0,
{
    match shortest_path_from_lowest(grid, end) {
        Some(p) => Some(p.len() - 1),
        None => None,
    }
}

} // verus!
