//! Walks over the terrain graph and the least number of steps between
//! squares.

use vstd::prelude::*;
use crate::hill::grid::{Coord, Grid};

verus! {

/// The least number that `f` holds of, if it holds of any.
#[verifier::opaque]
pub open spec fn least_of(f: spec_fn(nat) -> bool) -> Option<nat> {
    if exists|k: nat| #[trigger] f(k) {
        Some(choose|k: nat| #[trigger] f(k) && forall|j: nat| #[trigger] f(j) ==> k <= j)
    } else {
        None
    }
}

/// A number that `f` holds of, and of no smaller one, is the least.
pub proof fn lemma_least_of_is(f: spec_fn(nat) -> bool, k: nat)
    requires
        f(k),
        forall|j: nat| #[trigger] f(j) ==> k <= j,
    ensures
        least_of(f) == Some(k),
{
    reveal(least_of);
    let m = choose|m: nat| #[trigger] f(m) && forall|j: nat| #[trigger] f(j) ==> m <= j;
    assert(f(m) && forall|j: nat| #[trigger] f(j) ==> m <= j);
    assert(m <= k && k <= m);
}

/// Where `f` holds of some number, it has a least one.
pub proof fn lemma_least_of_exists(f: spec_fn(nat) -> bool, k: nat)
    requires
        f(k),
    ensures
        least_of(f) is Some,
        least_of(f)->0 <= k,
        f(least_of(f)->0),
        forall|j: nat| #[trigger] f(j) ==> least_of(f)->0 <= j,
    decreases k,
{
    reveal(least_of);
    if exists|j: nat| j < k && #[trigger] f(j) {
        let j = choose|j: nat| j < k && #[trigger] f(j);
        lemma_least_of_exists(f, j);
    } else {
        lemma_least_of_is(f, k);
    }
}

/// A predicate that holds of no number has no least one.
pub proof fn lemma_least_of_none(f: spec_fn(nat) -> bool)
    requires
        forall|k: nat| !#[trigger] f(k),
    ensures
        least_of(f) is None,
{
    reveal(least_of);
}

/// Predicates that hold of the same numbers have the same least one.
pub proof fn lemma_least_of_same(f: spec_fn(nat) -> bool, g: spec_fn(nat) -> bool)
    requires
        forall|k: nat| #[trigger] f(k) == g(k),
    ensures
        least_of(f) == least_of(g),
{
    reveal(least_of);
    if exists|k: nat| #[trigger] f(k) {
        let k = choose|k: nat| #[trigger] f(k);
        lemma_least_of_exists(f, k);
        let m = least_of(f)->0;
        assert(g(m));
        assert forall|j: nat| #[trigger] g(j) implies m <= j by {
            assert(f(j) == g(j));
        }
        lemma_least_of_is(g, m);
    } else {
        assert forall|k: nat| !#[trigger] g(k) by {
            assert(f(k) == g(k));
        }
    }
}

/// A trail is a sequence of squares, the first on the grid, with an edge
/// from each to the next.
pub open spec fn is_trail(g: &Grid, backward: bool, p: Seq<Coord>) -> bool {
    &&& p.len() > 0
    &&& g.contains(p[0])
    &&& forall|i: int| 0 <= i < p.len() - 1 ==> g.link(backward, #[trigger] p[i], p[i + 1])
}

/// A walk is a sequence of squares, the first on the grid, in which each
/// step obeys the climbing rule.
pub open spec fn is_walk(g: &Grid, p: Seq<Coord>) -> bool {
    is_trail(g, false, p)
}

/// Some trail of `k` edges leads from `s` to `t`.
#[verifier::opaque]
pub open spec fn joins(g: &Grid, backward: bool, s: Coord, t: Coord, k: nat) -> bool {
    exists|p: Seq<Coord>| #[trigger]
        is_trail(g, backward, p) && p.len() == k + 1 && p[0] == s && p.last() == t
}

/// Some walk of `k` steps leads from `s` to `t`.
pub open spec fn reachable_in(g: &Grid, s: Coord, t: Coord, k: nat) -> bool {
    joins(g, false, s, t, k)
}

/// The number of steps of a shortest walk from `s` to `t`, if any walk
/// leads there.
pub open spec fn shortest(g: &Grid, s: Coord, t: Coord) -> Option<nat> {
    least_of(|k: nat| reachable_in(g, s, t, k))
}

/// A square at the lowest elevation.
pub open spec fn is_lowest(g: &Grid, c: Coord) -> bool {
    g.contains(c) && g.level(c) == 0
}

/// Some walk of `k` steps leads from a lowest square to `t`.
pub open spec fn reachable_from_lowest_in(g: &Grid, t: Coord, k: nat) -> bool {
    exists|s: Coord| is_lowest(g, s) && #[trigger] reachable_in(g, s, t, k)
}

/// The number of steps of a shortest walk to `t` among those that start
/// at any lowest square, if there is such a walk.
pub open spec fn shortest_from_lowest(g: &Grid, t: Coord) -> Option<nat> {
    least_of(|k: nat| reachable_from_lowest_in(g, t, k))
}

/// Every square of a trail lies on the grid.
pub proof fn lemma_trail_on_grid(g: &Grid, backward: bool, p: Seq<Coord>, i: int)
    requires
        is_trail(g, backward, p),
        0 <= i < p.len(),
    ensures
        g.contains(p[i]),
{
    if i > 0 {
        assert(g.link(backward, p[i - 1], p[i - 1 + 1]));
    }
}

/// A trail without its last square is a trail.
pub proof fn lemma_trail_drop_last(g: &Grid, backward: bool, p: Seq<Coord>)
    requires
        is_trail(g, backward, p),
        p.len() > 1,
    ensures
        is_trail(g, backward, p.drop_last()),
        g.link(backward, p[p.len() - 2], p.last()),
{
    let q = p.drop_last();
    assert forall|i: int| 0 <= i < q.len() - 1 implies g.link(
        backward,
        #[trigger] q[i],
        q[i + 1],
    ) by {
        assert(g.link(backward, p[i], p[i + 1]));
    }
    assert(g.link(backward, p[p.len() - 2], p[p.len() - 2 + 1]));
}

/// A trail followed by one more edge is a trail.
pub proof fn lemma_trail_push(g: &Grid, backward: bool, p: Seq<Coord>, c: Coord)
    requires
        is_trail(g, backward, p),
        g.link(backward, p.last(), c),
    ensures
        is_trail(g, backward, p.push(c)),
{
    let q = p.push(c);
    assert forall|i: int| 0 <= i < q.len() - 1 implies g.link(
        backward,
        #[trigger] q[i],
        q[i + 1],
    ) by {
        if i < p.len() - 1 {
            assert(g.link(backward, p[i], p[i + 1]));
        }
    }
}

/// A trail read from its end is a trail of the opposite direction.
pub proof fn lemma_trail_reverse(g: &Grid, backward: bool, p: Seq<Coord>)
    requires
        is_trail(g, !backward, p),
    ensures
        is_trail(g, backward, p.reverse()),
        p.reverse().len() == p.len(),
        p.reverse()[0] == p.last(),
        p.reverse().last() == p[0],
{
    let q = p.reverse();
    lemma_trail_on_grid(g, !backward, p, p.len() - 1);
    assert forall|i: int| 0 <= i < q.len() - 1 implies g.link(
        backward,
        #[trigger] q[i],
        q[i + 1],
    ) by {
        let j = p.len() - 2 - i;
        assert(g.link(!backward, p[j], p[j + 1]));
        assert(q[i] == p[j + 1]);
        assert(q[i + 1] == p[j]);
    }
}

/// Trails of one direction from `s` to `t` are trails of the other from `t`
/// to `s`.
pub proof fn lemma_joins_reverse(g: &Grid, s: Coord, t: Coord, k: nat)
    ensures
        joins(g, true, s, t, k) == joins(g, false, t, s, k),
{
    reveal(joins);
    if joins(g, true, s, t, k) {
        let p = choose|p: Seq<Coord>| #[trigger]
            is_trail(g, true, p) && p.len() == k + 1 && p[0] == s && p.last() == t;
        lemma_trail_reverse(g, false, p);
        assert(is_trail(g, false, p.reverse()));
    }
    if joins(g, false, t, s, k) {
        let p = choose|p: Seq<Coord>| #[trigger]
            is_trail(g, false, p) && p.len() == k + 1 && p[0] == t && p.last() == s;
        lemma_trail_reverse(g, true, p);
        assert(is_trail(g, true, p.reverse()));
    }
}

} // verus!
