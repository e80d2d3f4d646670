//! Packets of nested lists of numbers and their order.

use std::cmp::Ordering;
use vstd::prelude::*;
use vstd::std_specs::cmp::PartialOrdSpecImpl;

verus! {

/// A packet: a number or a list of packets.
#[derive(Debug, PartialEq, Eq)]
pub enum Node {
    Number(u64),
    List(Vec<Node>),
}

/// The order of two numbers.
pub open spec fn order_of(a: u64, b: u64) -> Ordering {
    if a < b {
        Ordering::Less
    } else if a == b {
        Ordering::Equal
    } else {
        Ordering::Greater
    }
}

/// How deep a packet is nested: a number counts one, a list one more than
/// the deepest packet in it.
pub open spec fn depth(n: Node) -> nat
    decreases n,
{
    match n {
        Node::Number(_) => 1,
        Node::List(items) => 1 + depth_all(items@),
    }
}

/// The depth of the deepest of the packets.
pub open spec fn depth_all(items: Seq<Node>) -> nat
    decreases items,
{
    if items.len() == 0 {
        0
    } else {
        let first = depth(items[0]);
        let rest = depth_all(items.drop_first());
        if first > rest {
            first
        } else {
            rest
        }
    }
}

/// The packets that a packet stands for when it is compared with a list: a
/// list stands for its packets, a number for itself alone.
pub open spec fn as_list(n: Node) -> Seq<Node> {
    match n {
        Node::Number(_) => seq![n],
        Node::List(items) => items@,
    }
}

/// The order of two packets: two numbers are in the order of their
/// values; otherwise both are taken as lists and compared packet by
/// packet.
pub open spec fn node_order(a: Node, b: Node) -> Ordering
    decreases depth(a) + depth(b), 0nat, 0nat,
    via node_order_decreases
{
    match (a, b) {
        (Node::Number(x), Node::Number(y)) => order_of(x, y),
        _ => list_order(as_list(a), as_list(b)),
    }
}

#[via_fn]
proof fn node_order_decreases(a: Node, b: Node) {
    lemma_depth_single(a);
    lemma_depth_single(b);
}

/// A packet alone is as deep as a list of packets as itself.
pub proof fn lemma_depth_single(n: Node)
    ensures
        depth_all(seq![n]) == depth(n),
        depth(n) >= 1,
{
    assert(seq![n].drop_first() =~= Seq::<Node>::empty());
    assert(seq![n][0] == n);
    assert(depth_all(Seq::<Node>::empty()) == 0);
    assert(depth_all(seq![n].drop_first()) == 0);
}

/// The order of two lists of packets: that of the first two packets at the
/// same place that are not equal in order; where there are none, the
/// shorter list comes first.
pub open spec fn list_order(a: Seq<Node>, b: Seq<Node>) -> Ordering
    decreases depth_all(a) + depth_all(b), 1nat, a.len(),
{
    if a.len() == 0 && b.len() == 0 {
        Ordering::Equal
    } else if a.len() == 0 {
        Ordering::Less
    } else if b.len() == 0 {
        Ordering::Greater
    } else {
        match node_order(a[0], b[0]) {
            Ordering::Equal => list_order(a.drop_first(), b.drop_first()),
            other => other,
        }
    }
}

/// A position as a whole number.
pub open spec fn ix(i: usize) -> int {
    i as int
}

/// No packet of a list is deeper than the deepest.
pub proof fn lemma_depth_all(items: Seq<Node>, i: int)
    requires
        0 <= i < items.len(),
    ensures
        depth(items[i]) <= depth_all(items),
        depth_all(items.skip(i)) <= depth_all(items),
    decreases i,
{
    if i > 0 {
        lemma_depth_all(items.drop_first(), i - 1);
        assert(items.drop_first()[i - 1] == items[i]);
        assert(items.drop_first().skip(i - 1) =~= items.skip(i));
    } else {
        assert(items.skip(0) =~= items);
    }
}

/// The order of two numbers.
pub fn number_order(a: u64, b: u64) -> (r: Ordering)
    ensures
        r == order_of(a, b),
{
    if a < b {
        Ordering::Less
    } else if a == b {
        Ordering::Equal
    } else {
        Ordering::Greater
    }
}

impl Node {
    /// The order of two packets.
    pub fn cmp(&self, other: &Node) -> (r: Ordering)
        ensures
            r == node_order(*self, *other),
        decreases depth(*self) + depth(*other), 0nat, 0nat,
    {
        proof {
            lemma_depth_single(*self);
            lemma_depth_single(*other);
        }
        match (self, other) {
            (Node::Number(a), Node::Number(b)) => number_order(*a, *b),
            (Node::List(l), Node::List(r)) => compare_lists(l.as_slice(), r.as_slice()),
            (Node::Number(_), Node::List(r)) => {
                let r = compare_one(self, r.as_slice(), true);
                r
            },
            (Node::List(l), Node::Number(_)) => {
                let r = compare_one(other, l.as_slice(), false);
                r
            },
        }
    }
}

/// The order of two lists of packets.
pub fn compare_lists(a: &[Node], b: &[Node]) -> (r: Ordering)
    ensures
        r == list_order(a@, b@),
    decreases depth_all(a@) + depth_all(b@), 1nat, 0nat,
{
    let mut i: usize = 0;
    assert(a@.skip(0) =~= a@);
    assert(b@.skip(0) =~= b@);
    while i < a.len() && i < b.len()
        invariant
            i <= a@.len(),
            i <= b@.len(),
            list_order(a@, b@) == list_order(a@.skip(ix(i)), b@.skip(ix(i))),
        decreases a@.len() - i,
    {
        proof {
            lemma_depth_all(a@, ix(i));
            lemma_depth_all(b@, ix(i));
            assert(a@.skip(ix(i))[0] == a@[ix(i)]);
            assert(b@.skip(ix(i))[0] == b@[ix(i)]);
            assert(a@.skip(ix(i)).drop_first() =~= a@.skip(ix(i) + 1));
            assert(b@.skip(ix(i)).drop_first() =~= b@.skip(ix(i) + 1));
        }
        match a[i].cmp(&b[i]) {
            Ordering::Equal => {},
            Ordering::Less => {
                return Ordering::Less;
            },
            Ordering::Greater => {
                return Ordering::Greater;
            },
        }
        i += 1;
    }
    if i < a.len() {
        Ordering::Greater
    } else if i < b.len() {
        Ordering::Less
    } else {
        Ordering::Equal
    }
}

/// The order of a list that holds the one packet `x` and the list `b`;
/// where `first` is unset, the order of `b` and that list.
pub fn compare_one(x: &Node, b: &[Node], first: bool) -> (r: Ordering)
    ensures
        first ==> r == list_order(seq![*x], b@),
        !first ==> r == list_order(b@, seq![*x]),
    decreases depth(*x) + depth_all(b@), 1nat, 0nat,
{
    proof {
        assert(seq![*x][0] == *x);
        assert(seq![*x].drop_first() =~= Seq::<Node>::empty());
        lemma_depth_single(*x);
    }
    if b.len() == 0 {
        return if first {
            Ordering::Greater
        } else {
            Ordering::Less
        };
    }
    proof {
        lemma_depth_all(b@, 0);
    }
    let head = if first {
        x.cmp(&b[0])
    } else {
        b[0].cmp(x)
    };
    proof {
        let none = Seq::<Node>::empty();
        let rest = b@.drop_first();
        assert(seq![*x].drop_first() == none);
        if b@.len() == 1 {
            assert(rest =~= none);
            assert(list_order(none, none) == Ordering::Equal);
        } else {
            assert(rest.len() > 0);
            assert(list_order(none, rest) == Ordering::Less);
            assert(list_order(rest, none) == Ordering::Greater);
        }
    }
    match head {
        Ordering::Equal => {
            if b.len() == 1 {
                Ordering::Equal
            } else if first {
                Ordering::Less
            } else {
                Ordering::Greater
            }
        },
        Ordering::Less => Ordering::Less,
        Ordering::Greater => Ordering::Greater,
    }
}

impl PartialOrd for Node {
    fn partial_cmp(&self, other: &Self) -> (r: Option<Ordering>) {
        Some(self.cmp(other))
    }
}

impl PartialOrdSpecImpl for Node {
    open spec fn obeys_partial_cmp_spec() -> bool {
        true
    }

    open spec fn partial_cmp_spec(&self, other: &Node) -> Option<Ordering> {
        Some(node_order(*self, *other))
    }
}

/// How many of the packets come before `mark` in order.
pub open spec fn spec_count_before(packets: Seq<Node>, mark: Node) -> nat
    decreases packets.len(),
{
    if packets.len() == 0 {
        0
    } else {
        spec_count_before(packets.drop_last(), mark) + if node_order(packets.last(), mark)
            == Ordering::Less {
            1nat
        } else {
            0nat
        }
    }
}

/// Counts the packets that come before `mark` in order.
pub fn count_before(packets: &Vec<Node>, mark: &Node) -> (r: usize)
    ensures
        r == spec_count_before(packets@, *mark),
        r <= packets@.len(),
{
    let mut count: usize = 0;
    let mut i: usize = 0;
    assert(packets@.take(0) =~= Seq::<Node>::empty());
    while i < packets.len()
        invariant
            i <= packets@.len(),
            count <= i,
            count == spec_count_before(packets@.take(ix(i)), *mark),
        decreases packets@.len() - i,
    {
        assert(packets@.take(ix(i) + 1).drop_last() =~= packets@.take(ix(i)));
        assert(packets@.take(ix(i) + 1).last() == packets@[ix(i)]);
        match packets[i].cmp(mark) {
            Ordering::Less => {
                count += 1;
            },
            _ => {},
        }
        i += 1;
    }
    assert(packets@.take(ix(i)) =~= packets@);
    count
}

/// `d` is the list that holds the list that holds the number `n`.
pub open spec fn is_divider(d: Node, n: u64) -> bool {
    &&& d is List
    &&& d->List_0@.len() == 1
    &&& d->List_0@[0] is List
    &&& d->List_0@[0]->List_0@ == seq![Node::Number(n)]
}

/// The divider packet `[[n]]`.
pub fn divider(n: u64) -> (d: Node)
    ensures
        is_divider(d, n),
{
    let mut inner: Vec<Node> = Vec::new();
    inner.push(Node::Number(n));
    let mut outer: Vec<Node> = Vec::new();
    outer.push(Node::List(inner));
    Node::List(outer)
}

/// The decoder key of the packets: the place of `[[2]]` times the place of
/// `[[6]]` among the packets and the two dividers in order, places counted
/// from 1. Nothing where the key is too large for the machine.
pub fn decoder_key(packets: &Vec<Node>) -> (r: Option<usize>)
    ensures
        exists|two: Node, six: Node|
            {
                let first = #[trigger] spec_count_before(packets@, two) + 1;
                let second = #[trigger] spec_count_before(packets@, six) + 2;
                &&& is_divider(two, 2)
                &&& is_divider(six, 6)
                &&& match r {
                    Some(key) => key == first * second,
                    None => first * second > usize::MAX,
                }
            },
{
    let two = divider(2);
    let six = divider(6);
    let before_two = count_before(packets, &two);
    let before_six = count_before(packets, &six);
    if before_two == usize::MAX || before_six >= usize::MAX - 1 {
        proof {
            let a = before_two + 1;
            let b = before_six + 2;
            assert(a * b > usize::MAX) by (nonlinear_arith)
                requires
                    a >= 1,
                    b >= 2,
                    a > usize::MAX || b > usize::MAX,
            ;
        }
        return None;
    }
    (before_two + 1).checked_mul(before_six + 2)
}

} // verus!
