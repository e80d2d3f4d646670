//! Monkeys that inspect items and throw them to one another, round by
//! round.

use std::collections::VecDeque;
use vstd::prelude::*;
use vstd::string::StringSliceAdditionalSpecFns;
use crate::text::{
    blanks, eat, i64_from, lemma_newlines_end_bounds, newlines, opt_newline, spec_blanks, spec_eat,
    spec_i64_from, spec_newlines_end, spec_opt_newline, spec_u64_from, u64_from, NEWLINE,
};

verus! {

/// A term of an operation: the old worry level or a number.
#[derive(Debug, Copy, Clone, PartialEq, Eq, Structural)]
pub enum Term {
    Old,
    Const(i64),
}

impl Term {
    /// The value of the term when the old worry level is `old`.
    pub fn eval(&self, old: i64) -> (r: i64)
        ensures
            r == self.spec_eval(old as int),
    {
        match *self {
            Term::Old => old,
            Term::Const(n) => n,
        }
    }

    /// The value of the term when the old worry level is `old`.
    pub open spec fn spec_eval(&self, old: int) -> int {
        match *self {
            Term::Old => old,
            Term::Const(n) => n as int,
        }
    }
}

/// What inspecting an item does to its worry level.
#[derive(Debug, Copy, Clone, PartialEq, Eq, Structural)]
pub enum Op {
    Add(Term, Term),
    Mult(Term, Term),
}

impl Op {
    /// The new worry level when the old one is `old`.
    pub open spec fn spec_eval(&self, old: int) -> int {
        match self {
            Op::Add(t1, t2) => t1.spec_eval(old) + t2.spec_eval(old),
            Op::Mult(t1, t2) => t1.spec_eval(old) * t2.spec_eval(old),
        }
    }

    /// The new worry level, or nothing where it is too large for the
    /// machine.
    pub fn eval(&self, old: i64) -> (r: Option<i64>)
        ensures
            match r {
                Some(v) => v == self.spec_eval(old as int),
                None => !(i64::MIN <= self.spec_eval(old as int) <= i64::MAX),
            },
    {
        match self {
            Op::Add(t1, t2) => t1.eval(old).checked_add(t2.eval(old)),
            Op::Mult(t1, t2) => t1.eval(old).checked_mul(t2.eval(old)),
        }
    }
}

/// Where a monkey throws an item: to `when_true` if the worry level is a
/// multiple of `divisor`, else to `when_false`.
#[derive(Debug, Copy, Clone, PartialEq, Eq, Structural)]
pub struct WorryTest {
    pub divisor: i64,
    pub when_true: i64,
    pub when_false: i64,
}

/// Why a round could not be played.
#[derive(Debug, Copy, Clone, PartialEq, Eq, Structural)]
pub enum MonkeyError {
    /// A number grew too large for the machine.
    Overflow,
    /// A monkey tests by the divisor 0.
    DivisionByZero,
    /// A monkey throws to a monkey that is not there.
    NoSuchMonkey,
}

/// The absolute value.
pub open spec fn spec_abs(x: int) -> int {
    if x < 0 {
        -x
    } else {
        x
    }
}

/// A third of `x`, rounded towards zero.
pub open spec fn third(x: int) -> int {
    if x < 0 {
        -((-x) / 3)
    } else {
        x / 3
    }
}

/// `w` is a multiple of `d`.
pub open spec fn divides(d: int, w: int) -> bool {
    spec_abs(w) % spec_abs(d) == 0
}

pub struct Monkey {
    pub items: VecDeque<i64>,
    pub op: Op,
    pub test: WorryTest,
    pub inspections: usize,
}

impl Monkey {
    /// What the monkey does with an item of worry level `worry`: the
    /// monkey to throw it to and its new worry level, a third of what the
    /// operation makes of the old one.
    pub open spec fn spec_inspect(&self, worry: int) -> Result<(usize, i64), MonkeyError> {
        let v = self.op.spec_eval(worry);
        if !(i64::MIN <= v <= i64::MAX) {
            Err(MonkeyError::Overflow)
        } else if self.test.divisor == 0 {
            Err(MonkeyError::DivisionByZero)
        } else {
            let w = third(v);
            let to = if divides(self.test.divisor as int, w) {
                self.test.when_true
            } else {
                self.test.when_false
            };
            if to < 0 || to > usize::MAX {
                Err(MonkeyError::NoSuchMonkey)
            } else {
                Ok((to as usize, w as i64))
            }
        }
    }

    /// Inspects an item of worry level `worry`.
    pub fn inspect(&self, worry: i64) -> (r: Result<(usize, i64), MonkeyError>)
        ensures
            r == self.spec_inspect(worry as int),
    {
        let v = match self.op.eval(worry) {
            Some(v) => v,
            None => {
                return Err(MonkeyError::Overflow);
            },
        };
        if self.test.divisor == 0 {
            return Err(MonkeyError::DivisionByZero);
        }
        let wide: i128 = v as i128;
        let w: i128 = if wide < 0 {
            -((-wide) / 3)
        } else {
            wide / 3
        };
        let d: i128 = self.test.divisor as i128;
        let aw: i128 = if w < 0 {
            -w
        } else {
            w
        };
        let ad: i128 = if d < 0 {
            -d
        } else {
            d
        };
        let to = if aw % ad == 0 {
            self.test.when_true
        } else {
            self.test.when_false
        };
        if to < 0 || to as u64 > usize::MAX as u64 {
            return Err(MonkeyError::NoSuchMonkey);
        }
        Ok((to as usize, w as i64))
    }

    /// Takes the first item, inspects it and says where it goes and with
    /// which worry level; nothing once no item is left. Where the item
    /// cannot be inspected, the monkey keeps it.
    pub fn next(&mut self) -> (r: Result<Option<(usize, i64)>, MonkeyError>)
        ensures
            final(self).op == old(self).op,
            final(self).test == old(self).test,
            old(self).items@.len() == 0 ==> r == Ok::<Option<(usize, i64)>, MonkeyError>(None)
                && final(self).items@ == old(self).items@ && final(self).inspections == old(
                self,
            ).inspections,
            old(self).items@.len() > 0 ==> match old(self).spec_inspect(old(self).items@[0] as int) {
                Ok(thrown) => if old(self).inspections < usize::MAX {
                    &&& r == Ok::<Option<(usize, i64)>, MonkeyError>(Some(thrown))
                    &&& final(self).items@ == old(self).items@.drop_first()
                    &&& final(self).inspections == old(self).inspections + 1
                } else {
                    &&& r == Err::<Option<(usize, i64)>, MonkeyError>(MonkeyError::Overflow)
                    &&& final(self).items@ == old(self).items@
                    &&& final(self).inspections == old(self).inspections
                },
                Err(e) => {
                    &&& r == Err::<Option<(usize, i64)>, MonkeyError>(e)
                    &&& final(self).items@ == old(self).items@
                    &&& final(self).inspections == old(self).inspections
                },
            },
    {
        if self.items.len() == 0 {
            return Ok(None);
        }
        let worry = self.items[0];
        let thrown = match self.inspect(worry) {
            Ok(t) => t,
            Err(e) => {
                return Err(e);
            },
        };
        if self.inspections == usize::MAX {
            return Err(MonkeyError::Overflow);
        }
        let _ = self.items.pop_front();
        self.inspections += 1;
        assert(self.items@ =~= old(self).items@.drop_first());
        Ok(Some(thrown))
    }

    /// What the monkey makes of the items `items`, in order, or the reason
    /// why the first item that cannot be inspected cannot.
    pub open spec fn spec_throws(&self, items: Seq<i64>) -> Result<Seq<(usize, i64)>, MonkeyError>
        decreases items.len(),
    {
        if items.len() == 0 {
            Ok(Seq::empty())
        } else {
            match self.spec_throws(items.drop_last()) {
                Ok(before) => match self.spec_inspect(items.last() as int) {
                    Ok(thrown) => Ok(before.push(thrown)),
                    Err(e) => Err(e),
                },
                Err(e) => Err(e),
            }
        }
    }

    /// Inspects all items in order and gives what is thrown, in order. The
    /// count of inspections grows by their number.
    pub fn process_items(&mut self) -> (r: Result<Vec<(usize, i64)>, MonkeyError>)
        ensures
            final(self).op == old(self).op,
            final(self).test == old(self).test,
            r is Ok <==> old(self).spec_throws(old(self).items@) is Ok && old(self).inspections
                + old(self).items@.len() <= usize::MAX,
            match r {
                Ok(thrown) => {
                    &&& old(self).spec_throws(old(self).items@) == Ok::<
                        Seq<(usize, i64)>,
                        MonkeyError,
                    >(thrown@)
                    &&& final(self).items@.len() == 0
                    &&& final(self).inspections == old(self).inspections + old(self).items@.len()
                },
                Err(e) => {
                    ||| old(self).spec_throws(old(self).items@) == Err::<
                        Seq<(usize, i64)>,
                        MonkeyError,
                    >(e)
                    ||| e == MonkeyError::Overflow && old(self).inspections + old(self).items@.len()
                        > usize::MAX
                },
            },
    {
        let ghost first = *self;
        let ghost all = self.items@;
        let mut items: Vec<(usize, i64)> = Vec::new();
        assert(all.take(0) =~= Seq::<i64>::empty());
        assert(all.skip(0) =~= all);
        loop
            invariant
                first == *old(self),
                self.op == first.op,
                self.test == first.test,
                all == first.items@,
                items@.len() <= all.len(),
                self.items@ == all.skip(items@.len() as int),
                self.inspections == first.inspections + items@.len(),
                first.spec_throws(all.take(items@.len() as int)) == Ok::<
                    Seq<(usize, i64)>,
                    MonkeyError,
                >(items@),
            decreases all.len() - items@.len(),
        {
            let ghost k = items@.len() as int;
            proof {
                if k < all.len() {
                    assert(all.take(k + 1).drop_last() =~= all.take(k));
                    assert(all.take(k + 1).last() == all[k]);
                    assert(self.items@[0] == all[k]);
                    assert(self.spec_inspect(all[k] as int) == first.spec_inspect(all[k] as int));
                    if first.spec_throws(all.take(k + 1)) is Err {
                        first.lemma_throws_prefix(all, k + 1);
                    }
                }
            }
            match self.next() {
                Ok(Some(item)) => {
                    items.push(item);
                    assert(self.items@ =~= all.skip(k + 1));
                },
                Ok(None) => {
                    assert(all.take(k) =~= all);
                    return Ok(items);
                },
                Err(e) => {
                    return Err(e);
                },
            }
        }
    }

    /// Where the first items cannot all be inspected, neither can all of
    /// them, for the same reason.
    pub proof fn lemma_throws_prefix(&self, items: Seq<i64>, n: int)
        requires
            0 <= n <= items.len(),
            self.spec_throws(items.take(n)) is Err,
        ensures
            self.spec_throws(items) == self.spec_throws(items.take(n)),
        decreases items.len() - n,
    {
        if n == items.len() {
            assert(items.take(n) =~= items);
        } else {
            assert(items.take(n + 1).drop_last() =~= items.take(n));
            self.lemma_throws_prefix(items, n + 1);
        }
    }
}

/// The items that each monkey holds.
pub open spec fn queues_of(ms: Seq<Monkey>) -> Seq<Seq<i64>> {
    Seq::new(ms.len(), |i: int| ms[i].items@)
}

/// The monkeys do the same with what they hold: their operations and tests
/// are the same.
pub open spec fn same_habits(a: Seq<Monkey>, b: Seq<Monkey>) -> bool {
    &&& a.len() == b.len()
    &&& forall|i: int| 0 <= i < a.len() ==> (#[trigger] a[i]).op == b[i].op && a[i].test == b[i].test
}

/// What the monkeys hold once the thrown items have arrived, in order, each
/// at the end of its target's items; or that one was thrown to a monkey
/// that is not there.
pub open spec fn spec_deliver(queues: Seq<Seq<i64>>, thrown: Seq<(usize, i64)>) -> Result<
    Seq<Seq<i64>>,
    MonkeyError,
>
    decreases thrown.len(),
{
    if thrown.len() == 0 {
        Ok(queues)
    } else {
        match spec_deliver(queues, thrown.drop_last()) {
            Ok(q) => {
                let (to, worry) = thrown.last();
                if to < q.len() {
                    Ok(q.update(to as int, q[to as int].push(worry)))
                } else {
                    Err(MonkeyError::NoSuchMonkey)
                }
            },
            Err(e) => Err(e),
        }
    }
}

/// What the monkeys hold after the turn of monkey `n`: it inspects all
/// that it holds, and what it throws arrives.
pub open spec fn spec_turn(ms: Seq<Monkey>, queues: Seq<Seq<i64>>, n: int) -> Result<
    Seq<Seq<i64>>,
    MonkeyError,
> {
    match ms[n].spec_throws(queues[n]) {
        Ok(thrown) => spec_deliver(queues.update(n, Seq::empty()), thrown),
        Err(e) => Err(e),
    }
}

/// What the monkeys hold after the turns of the first `k` monkeys.
pub open spec fn spec_turns(ms: Seq<Monkey>, queues: Seq<Seq<i64>>, k: nat) -> Result<
    Seq<Seq<i64>>,
    MonkeyError,
>
    decreases k,
{
    if k == 0 {
        Ok(queues)
    } else {
        match spec_turns(ms, queues, (k - 1) as nat) {
            Ok(q) => spec_turn(ms, q, k - 1),
            Err(e) => Err(e),
        }
    }
}

/// How many items monkey `n` holds when its turn comes.
pub open spec fn held_at_turn(ms: Seq<Monkey>, queues: Seq<Seq<i64>>, n: int) -> nat {
    match spec_turns(ms, queues, n as nat) {
        Ok(q) => q[n].len(),
        Err(_) => 0,
    }
}

/// Where the first thrown items cannot all be delivered, neither can all.
pub proof fn lemma_deliver_prefix(queues: Seq<Seq<i64>>, thrown: Seq<(usize, i64)>, n: int)
    requires
        0 <= n <= thrown.len(),
        spec_deliver(queues, thrown.take(n)) is Err,
    ensures
        spec_deliver(queues, thrown) == spec_deliver(queues, thrown.take(n)),
    decreases thrown.len() - n,
{
    if n == thrown.len() {
        assert(thrown.take(n) =~= thrown);
    } else {
        assert(thrown.take(n + 1).drop_last() =~= thrown.take(n));
        lemma_deliver_prefix(queues, thrown, n + 1);
    }
}

pub struct MonkeyGroup {
    pub rounds: u64,
    pub monkeys: Vec<Monkey>,
}

impl MonkeyGroup {
    /// A group of monkeys before its first round.
    pub fn new(monkeys: Vec<Monkey>) -> (g: Self)
        ensures
            g.rounds == 0,
            g.monkeys == monkeys,
    {
        MonkeyGroup { rounds: 0, monkeys }
    }

    /// The turn of monkey `n`: it inspects all that it holds and throws
    /// each item to the end of the items of the monkey that its test
    /// names.
    pub fn turn(&mut self, n: usize) -> (r: Result<(), MonkeyError>)
        requires
            n < old(self).monkeys@.len(),
        ensures
            same_habits(old(self).monkeys@, final(self).monkeys@),
            final(self).rounds == old(self).rounds,
            r is Ok <==> spec_turn(old(self).monkeys@, queues_of(old(self).monkeys@), n as int) is Ok
                && old(self).monkeys@[n as int].inspections + old(self).monkeys@[n as int].items@.len()
                <= usize::MAX,
            match r {
                Ok(_) => {
                    &&& spec_turn(old(self).monkeys@, queues_of(old(self).monkeys@), n as int)
                        == Ok::<Seq<Seq<i64>>, MonkeyError>(queues_of(final(self).monkeys@))
                    &&& forall|i: int|
                        0 <= i < final(self).monkeys@.len() ==> (
                        #[trigger] final(self).monkeys@[i]).inspections == old(
                            self,
                        ).monkeys@[i].inspections + if i == n {
                            old(self).monkeys@[i].items@.len()
                        } else {
                            0
                        }
                },
                Err(e) => {
                    ||| spec_turn(old(self).monkeys@, queues_of(old(self).monkeys@), n as int)
                        == Err::<Seq<Seq<i64>>, MonkeyError>(e)
                    ||| e == MonkeyError::Overflow && old(self).monkeys@[n as int].inspections
                        + old(self).monkeys@[n as int].items@.len() > usize::MAX
                },
            },
    {
        let ghost first = self.monkeys@;
        let ghost q0 = queues_of(first);
        let nmonkeys = self.monkeys.len();
        let items = match self.monkeys[n].process_items() {
            Ok(items) => items,
            Err(e) => {
                return Err(e);
            },
        };
        let ghost mid = self.monkeys@;
        let ghost q1 = q0.update(n as int, Seq::<i64>::empty());
        assert(mid.len() == first.len());
        assert(mid[n as int].items@.len() == 0);
        assert(forall|i: int| 0 <= i < mid.len() && i != n ==> mid[i] == first[i]);
        assert(mid[n as int].items@ =~= Seq::<i64>::empty());
        assert(queues_of(mid) =~= q1);
        assert(items@.take(0) =~= Seq::<(usize, i64)>::empty());
        let mut k: usize = 0;
        while k < items.len()
            invariant
                k <= items@.len(),
                nmonkeys == self.monkeys@.len(),
                nmonkeys == first.len(),
                self.rounds == old(self).rounds,
                first == old(self).monkeys@,
                n < first.len(),
                q0 == queues_of(first),
                q1 == q0.update(n as int, Seq::<i64>::empty()),
                mid.len() == first.len(),
                first[n as int].spec_throws(q0[n as int]) == Ok::<Seq<(usize, i64)>, MonkeyError>(
                    items@,
                ),
                forall|i: int|
                    0 <= i < mid.len() ==> (#[trigger] mid[i]).inspections
                        == first[i].inspections + if i == n {
                        first[i].items@.len()
                    } else {
                        0
                    },
                same_habits(first, self.monkeys@),
                spec_deliver(q1, items@.take(k as int)) == Ok::<Seq<Seq<i64>>, MonkeyError>(
                    queues_of(self.monkeys@),
                ),
                forall|i: int|
                    0 <= i < self.monkeys@.len() ==> (#[trigger] self.monkeys@[i]).inspections
                        == mid[i].inspections,
            decreases items@.len() - k,
        {
            let (idx, worry) = items[k];
            let ghost before = self.monkeys@;
            proof {
                assert(items@.take(k + 1).drop_last() =~= items@.take(k as int));
                assert(items@.take(k + 1).last() == items@[k as int]);
            }
            if idx >= nmonkeys {
                proof {
                    lemma_deliver_prefix(q1, items@, k + 1);
                }
                return Err(MonkeyError::NoSuchMonkey);
            }
            self.monkeys[idx].items.push_back(worry);
            proof {
                let qb = queues_of(before);
                assert(queues_of(self.monkeys@) =~= qb.update(
                    idx as int,
                    qb[idx as int].push(worry),
                ));
            }
            k += 1;
        }
        assert(items@.take(k as int) =~= items@);
        Ok(())
    }

    /// One round: the monkeys take their turns in order.
    pub fn step_round(&mut self) -> (r: Result<(), MonkeyError>)
        ensures
            same_habits(old(self).monkeys@, final(self).monkeys@),
            r is Ok <==> {
                &&& spec_turns(
                    old(self).monkeys@,
                    queues_of(old(self).monkeys@),
                    old(self).monkeys@.len(),
                ) is Ok
                &&& old(self).rounds < u64::MAX
                &&& forall|i: int|
                    0 <= i < old(self).monkeys@.len() ==> (
                    #[trigger] old(self).monkeys@[i]).inspections + held_at_turn(
                        old(self).monkeys@,
                        queues_of(old(self).monkeys@),
                        i,
                    ) <= usize::MAX
            },
            match r {
                Ok(_) => {
                    &&& spec_turns(
                        old(self).monkeys@,
                        queues_of(old(self).monkeys@),
                        old(self).monkeys@.len(),
                    ) == Ok::<Seq<Seq<i64>>, MonkeyError>(queues_of(final(self).monkeys@))
                    &&& final(self).rounds == old(self).rounds + 1
                    &&& forall|i: int|
                        0 <= i < final(self).monkeys@.len() ==> (
                        #[trigger] final(self).monkeys@[i]).inspections == old(
                            self,
                        ).monkeys@[i].inspections + held_at_turn(
                            old(self).monkeys@,
                            queues_of(old(self).monkeys@),
                            i,
                        )
                },
                Err(e) => {
                    ||| spec_turns(
                        old(self).monkeys@,
                        queues_of(old(self).monkeys@),
                        old(self).monkeys@.len(),
                    ) == Err::<Seq<Seq<i64>>, MonkeyError>(e)
                    ||| e == MonkeyError::Overflow
                },
            },
    {
        let ghost first = self.monkeys@;
        let ghost q0 = queues_of(first);
        let nmonkeys = self.monkeys.len();
        let mut n: usize = 0;
        while n < nmonkeys
            invariant
                n <= nmonkeys,
                nmonkeys == first.len(),
                first == old(self).monkeys@,
                q0 == queues_of(first),
                self.rounds == old(self).rounds,
                same_habits(first, self.monkeys@),
                spec_turns(first, q0, n as nat) == Ok::<Seq<Seq<i64>>, MonkeyError>(
                    queues_of(self.monkeys@),
                ),
                forall|i: int|
                    0 <= i < self.monkeys@.len() ==> (#[trigger] self.monkeys@[i]).inspections
                        == first[i].inspections + if i < n {
                        held_at_turn(first, q0, i)
                    } else {
                        0
                    },
            decreases nmonkeys - n,
        {
            let ghost before = self.monkeys@;
            proof {
                lemma_turn_habits(first, before, queues_of(before), n as int);
            }
            match self.turn(n) {
                Ok(_) => {},
                Err(e) => {
                    proof {
                        if spec_turn(first, queues_of(before), n as int) is Err {
                            lemma_turns_prefix(first, q0, (n + 1) as nat, nmonkeys as nat);
                        } else {
                            assert(before[n as int].items@ == queues_of(before)[n as int]);
                            assert(first[n as int].inspections + held_at_turn(first, q0, n as int)
                                > usize::MAX);
                        }
                    }
                    return Err(e);
                },
            }
            n += 1;
        }
        if self.rounds == u64::MAX {
            return Err(MonkeyError::Overflow);
        }
        self.rounds += 1;
        Ok(())
    }

    /// The product of the two greatest counts of inspections.
    pub fn monkey_business(&self) -> (r: Option<usize>)
        ensures
            self.monkeys@.len() < 2 ==> r is None,
            r is Some ==> exists|i: int, j: int|
                0 <= i < self.monkeys@.len() && 0 <= j < self.monkeys@.len() && i != j && r->0
                    == (#[trigger] self.monkeys@[i]).inspections * (
                #[trigger] self.monkeys@[j]).inspections && forall|k: int|
                    0 <= k < self.monkeys@.len() && k != i ==> (
                    #[trigger] self.monkeys@[k]).inspections <= self.monkeys@[j].inspections
                        <= self.monkeys@[i].inspections,
            self.monkeys@.len() >= 2 && r is None ==> exists|i: int, j: int|
                0 <= i < self.monkeys@.len() && 0 <= j < self.monkeys@.len() && i != j && (
                #[trigger] self.monkeys@[i]).inspections * (
                #[trigger] self.monkeys@[j]).inspections > usize::MAX,
    {
        if self.monkeys.len() < 2 {
            return None;
        }
        let mut a: usize = 0;
        let mut b: usize = 1;
        if self.monkeys[1].inspections > self.monkeys[0].inspections {
            a = 1;
            b = 0;
        }
        let mut k: usize = 2;
        while k < self.monkeys.len()
            invariant
                2 <= k <= self.monkeys@.len(),
                a < k,
                b < k,
                a != b,
                self.monkeys@[b as int].inspections <= self.monkeys@[a as int].inspections,
                forall|m: int|
                    0 <= m < k && m != a ==> (#[trigger] self.monkeys@[m]).inspections
                        <= self.monkeys@[b as int].inspections,
            decreases self.monkeys@.len() - k,
        {
            let c = self.monkeys[k].inspections;
            if c > self.monkeys[a].inspections {
                b = a;
                a = k;
            } else if c > self.monkeys[b].inspections {
                b = k;
            }
            k += 1;
        }
        let r = self.monkeys[a].inspections.checked_mul(self.monkeys[b].inspections);
        proof {
            let (i, j) = (a as int, b as int);
            assert(self.monkeys@[i].inspections * self.monkeys@[j].inspections
                == self.monkeys@[i].inspections * self.monkeys@[j].inspections);
        }
        r
    }
}

/// A turn depends on what the monkeys hold and on their habits only.
pub proof fn lemma_turn_habits(a: Seq<Monkey>, b: Seq<Monkey>, queues: Seq<Seq<i64>>, n: int)
    requires
        same_habits(a, b),
        0 <= n < a.len(),
    ensures
        spec_turn(a, queues, n) == spec_turn(b, queues, n),
{
    lemma_throws_habits(a[n], b[n], queues[n]);
}

/// What a monkey throws depends on its habits only.
pub proof fn lemma_throws_habits(a: Monkey, b: Monkey, items: Seq<i64>)
    requires
        a.op == b.op,
        a.test == b.test,
    ensures
        a.spec_throws(items) == b.spec_throws(items),
    decreases items.len(),
{
    if items.len() > 0 {
        lemma_throws_habits(a, b, items.drop_last());
    }
}

/// Where the first turns cannot all be taken, neither can all.
pub proof fn lemma_turns_prefix(ms: Seq<Monkey>, queues: Seq<Seq<i64>>, k: nat, n: nat)
    requires
        k <= n,
        spec_turns(ms, queues, k) is Err,
    ensures
        spec_turns(ms, queues, n) == spec_turns(ms, queues, k),
    decreases n - k,
{
    if k < n {
        lemma_turns_prefix(ms, queues, k, (n - 1) as nat);
    }
}

/// The numbers that follow in a list, each after a comma and a space, as
/// many as can be read, and the position after them.
pub open spec fn spec_more_items(s: Seq<u8>, pos: int) -> (Seq<i64>, int)
    decreases s.len() - pos,
{
    match spec_eat(s, pos, ", ".spec_bytes()) {
        Some(p) => match spec_i64_from(s, p) {
            Some((v, end)) => if pos < end <= s.len() {
                let (rest, fin) = spec_more_items(s, end);
                (seq![v] + rest, fin)
            } else {
                (Seq::empty(), pos)
            },
            None => (Seq::empty(), pos),
        },
        None => (Seq::empty(), pos),
    }
}

/// The items that a line lists: after blanks and `Starting items: `,
/// numbers with `, ` between them, at least one, and at most one line feed.
pub open spec fn spec_items(s: Seq<u8>, pos: int) -> Option<(Seq<i64>, int)> {
    match spec_blanks(s, pos) {
        Some(q1) => match spec_eat(s, q1, "Starting items: ".spec_bytes()) {
            Some(q2) => match spec_i64_from(s, q2) {
                Some((first, q3)) => {
                    let (rest, q4) = spec_more_items(s, q3);
                    Some((seq![first] + rest, spec_opt_newline(s, q4)))
                },
                None => None,
            },
            None => None,
        },
        None => None,
    }
}

/// Reads the line that lists the items of a monkey.
pub fn parse_items(b: &[u8], pos: usize) -> (r: Option<(Vec<i64>, usize)>)
    requires
        pos <= b@.len(),
    ensures
        match (spec_items(b@, pos as int), r) {
            (Some((items, end)), Some((list, at))) => list@ == items && at == end && pos < end
                <= b@.len(),
            (None, None) => true,
            _ => false,
        },
{
    let q1 = match blanks(b, pos) {
        Some(p) => p,
        None => {
            return None;
        },
    };
    let q2 = match eat(b, q1, "Starting items: ") {
        Some(p) => p,
        None => {
            return None;
        },
    };
    let (first, q3) = match i64_from(b, q2) {
        Some(t) => t,
        None => {
            return None;
        },
    };
    let mut items: Vec<i64> = Vec::new();
    items.push(first);
    let mut at: usize = q3;
    let ghost whole = spec_more_items(b@, q3 as int);
    assert(seq![first] + Seq::<i64>::empty() =~= seq![first]);
    loop
        invariant
            pos < at <= b@.len(),
            whole == spec_more_items(b@, q3 as int),
            items@.len() > 0,
            items@ + spec_more_items(b@, at as int).0 == seq![first] + whole.0,
            spec_more_items(b@, at as int).1 == whole.1,
        ensures
            pos < at <= b@.len(),
            items@ == seq![first] + whole.0,
            at == whole.1,
        decreases b@.len() - at,
    {
        let ghost before = items@;
        let ghost tail = spec_more_items(b@, at as int);
        let p = match eat(b, at, ", ") {
            Some(p) => p,
            None => {
                assert(before + Seq::<i64>::empty() =~= before);
                break ;
            },
        };
        match i64_from(b, p) {
            Some((v, end)) => {
                items.push(v);
                proof {
                    let next = spec_more_items(b@, end as int);
                    assert(tail.0 == seq![v] + next.0);
                    assert(items@ + next.0 =~= before + tail.0);
                }
                at = end;
            },
            None => {
                assert(before + Seq::<i64>::empty() =~= before);
                break ;
            },
        }
    }
    let end = opt_newline(b, at);
    Some((items, end))
}

/// The term that stands in `s` at `pos`, `old` or a number, and the
/// position after it.
pub open spec fn spec_term(s: Seq<u8>, pos: int) -> Option<(Term, int)> {
    match spec_eat(s, pos, "old".spec_bytes()) {
        Some(end) => Some((Term::Old, end)),
        None => match spec_i64_from(s, pos) {
            Some((v, end)) => Some((Term::Const(v), end)),
            None => None,
        },
    }
}

/// Reads a term.
pub fn term(b: &[u8], pos: usize) -> (r: Option<(Term, usize)>)
    requires
        pos <= b@.len(),
    ensures
        match (spec_term(b@, pos as int), r) {
            (Some((t, end)), Some((got, at))) => got == t && at == end && pos <= end <= b@.len(),
            (None, None) => true,
            _ => false,
        },
{
    match eat(b, pos, "old") {
        Some(end) => Some((Term::Old, end)),
        None => match i64_from(b, pos) {
            Some((v, end)) => Some((Term::Const(v), end)),
            None => None,
        },
    }
}

/// Two terms with `sign` between them, and the position after them.
pub open spec fn spec_pair(s: Seq<u8>, pos: int, sign: Seq<u8>) -> Option<(Term, Term, int)> {
    match spec_term(s, pos) {
        Some((t1, q1)) => match spec_eat(s, q1, sign) {
            Some(q2) => match spec_term(s, q2) {
                Some((t2, end)) => Some((t1, t2, end)),
                None => None,
            },
            None => None,
        },
        None => None,
    }
}

/// Reads two terms with `sign` between them.
pub fn pair(b: &[u8], pos: usize, sign: &str) -> (r: Option<(Term, Term, usize)>)
    requires
        pos <= b@.len(),
    ensures
        match (spec_pair(b@, pos as int, sign.spec_bytes()), r) {
            (Some((t1, t2, end)), Some((g1, g2, at))) => g1 == t1 && g2 == t2 && at == end && pos
                <= end <= b@.len(),
            (None, None) => true,
            _ => false,
        },
{
    let (t1, q1) = match term(b, pos) {
        Some(t) => t,
        None => {
            return None;
        },
    };
    let q2 = match eat(b, q1, sign) {
        Some(p) => p,
        None => {
            return None;
        },
    };
    match term(b, q2) {
        Some((t2, end)) => Some((t1, t2, end)),
        None => None,
    }
}

/// The operation that stands in `s` at `pos`, a product or else a sum of
/// two terms, and the position after it.
pub open spec fn spec_expr(s: Seq<u8>, pos: int) -> Option<(Op, int)> {
    match spec_pair(s, pos, " * ".spec_bytes()) {
        Some((t1, t2, end)) => Some((Op::Mult(t1, t2), end)),
        None => match spec_pair(s, pos, " + ".spec_bytes()) {
            Some((t1, t2, end)) => Some((Op::Add(t1, t2), end)),
            None => None,
        },
    }
}

/// Reads an operation.
pub fn expr(b: &[u8], pos: usize) -> (r: Option<(Op, usize)>)
    requires
        pos <= b@.len(),
    ensures
        match (spec_expr(b@, pos as int), r) {
            (Some((op, end)), Some((got, at))) => got == op && at == end && pos <= end <= b@.len(),
            (None, None) => true,
            _ => false,
        },
{
    match pair(b, pos, " * ") {
        Some((t1, t2, end)) => Some((Op::Mult(t1, t2), end)),
        None => match pair(b, pos, " + ") {
            Some((t1, t2, end)) => Some((Op::Add(t1, t2), end)),
            None => None,
        },
    }
}

/// The operation that a line tells: after blanks and `Operation: new = `,
/// an operation and at most one line feed.
pub open spec fn spec_op(s: Seq<u8>, pos: int) -> Option<(Op, int)> {
    match spec_blanks(s, pos) {
        Some(q1) => match spec_eat(s, q1, "Operation: new = ".spec_bytes()) {
            Some(q2) => match spec_expr(s, q2) {
                Some((op, q3)) => Some((op, spec_opt_newline(s, q3))),
                None => None,
            },
            None => None,
        },
        None => None,
    }
}

/// Reads the line that tells the operation of a monkey.
pub fn parse_op(b: &[u8], pos: usize) -> (r: Option<(Op, usize)>)
    requires
        pos <= b@.len(),
    ensures
        match (spec_op(b@, pos as int), r) {
            (Some((op, end)), Some((got, at))) => got == op && at == end && pos < end <= b@.len(),
            (None, None) => true,
            _ => false,
        },
{
    let q1 = match blanks(b, pos) {
        Some(p) => p,
        None => {
            return None;
        },
    };
    let q2 = match eat(b, q1, "Operation: new = ") {
        Some(p) => p,
        None => {
            return None;
        },
    };
    match expr(b, q2) {
        Some((op, q3)) => Some((op, opt_newline(b, q3))),
        None => None,
    }
}

/// The number that a line tells: after blanks and `label`, a whole number
/// and at most one line feed.
pub open spec fn spec_labelled(s: Seq<u8>, pos: int, label: Seq<u8>) -> Option<(i64, int)> {
    match spec_blanks(s, pos) {
        Some(q1) => match spec_eat(s, q1, label) {
            Some(q2) => match spec_i64_from(s, q2) {
                Some((v, q3)) => Some((v, spec_opt_newline(s, q3))),
                None => None,
            },
            None => None,
        },
        None => None,
    }
}

/// Reads a line that holds a number after a label.
pub fn labelled(b: &[u8], pos: usize, label: &str) -> (r: Option<(i64, usize)>)
    requires
        pos <= b@.len(),
    ensures
        match (spec_labelled(b@, pos as int, label.spec_bytes()), r) {
            (Some((v, end)), Some((got, at))) => got == v && at == end && pos < end <= b@.len(),
            (None, None) => true,
            _ => false,
        },
{
    let q1 = match blanks(b, pos) {
        Some(p) => p,
        None => {
            return None;
        },
    };
    let q2 = match eat(b, q1, label) {
        Some(p) => p,
        None => {
            return None;
        },
    };
    match i64_from(b, q2) {
        Some((v, q3)) => Some((v, opt_newline(b, q3))),
        None => None,
    }
}

/// The test that three lines tell: the divisor, the monkey to throw to
/// when the worry level is a multiple of it, and the monkey to throw to
/// when it is not.
pub open spec fn spec_test(s: Seq<u8>, pos: int) -> Option<(WorryTest, int)> {
    match spec_labelled(s, pos, "Test: divisible by ".spec_bytes()) {
        Some((d, q1)) => match spec_labelled(s, q1, "If true: throw to monkey ".spec_bytes()) {
            Some((t, q2)) => match spec_labelled(
                s,
                q2,
                "If false: throw to monkey ".spec_bytes(),
            ) {
                Some((f, end)) => Some(
                    (WorryTest { divisor: d, when_true: t, when_false: f }, end),
                ),
                None => None,
            },
            None => None,
        },
        None => None,
    }
}

/// Reads the three lines that tell the test of a monkey.
pub fn parse_test(b: &[u8], pos: usize) -> (r: Option<(WorryTest, usize)>)
    requires
        pos <= b@.len(),
    ensures
        match (spec_test(b@, pos as int), r) {
            (Some((test, end)), Some((got, at))) => got == test && at == end && pos < end <= b@.len(),
            (None, None) => true,
            _ => false,
        },
{
    let (d, q1) = match labelled(b, pos, "Test: divisible by ") {
        Some(t) => t,
        None => {
            return None;
        },
    };
    let (t, q2) = match labelled(b, q1, "If true: throw to monkey ") {
        Some(t) => t,
        None => {
            return None;
        },
    };
    match labelled(b, q2, "If false: throw to monkey ") {
        Some((f, end)) => Some((WorryTest { divisor: d, when_true: t, when_false: f }, end)),
        None => None,
    }
}

/// The position after the heading of a monkey: `Monkey `, a number, a
/// colon and a line feed.
pub open spec fn spec_heading(s: Seq<u8>, pos: int) -> Option<int> {
    match spec_eat(s, pos, "Monkey ".spec_bytes()) {
        Some(q1) => match spec_u64_from(s, q1, u64::MAX as nat) {
            Some((_, q2)) => match spec_eat(s, q2, ":".spec_bytes()) {
                Some(q3) => if q3 < s.len() && s[q3] == NEWLINE {
                    Some(q3 + 1)
                } else {
                    None
                },
                None => None,
            },
            None => None,
        },
        None => None,
    }
}

/// What a monkey is like as text tells it: what it holds at first, its
/// operation and its test.
pub struct Habits {
    pub items: Seq<i64>,
    pub op: Op,
    pub test: WorryTest,
}

/// The monkey that stands in `s` at `pos`: heading, items, operation and
/// test; and the position after it.
#[verifier::opaque]
pub open spec fn spec_monkey(s: Seq<u8>, pos: int) -> Option<(Habits, int)> {
    match spec_heading(s, pos) {
        Some(q1) => match spec_items(s, q1) {
            Some((items, q2)) => match spec_op(s, q2) {
                Some((op, q3)) => match spec_test(s, q3) {
                    Some((test, end)) => Some((Habits { items, op, test }, end)),
                    None => None,
                },
                None => None,
            },
            None => None,
        },
        None => None,
    }
}

/// `m` is as `h` tells and has inspected nothing yet.
pub open spec fn is_fresh(m: Monkey, h: Habits) -> bool {
    m.items@ == h.items && m.op == h.op && m.test == h.test && m.inspections == 0
}

/// Reads a monkey.
pub fn parse_monkey(b: &[u8], pos: usize) -> (r: Option<(Monkey, usize)>)
    requires
        pos <= b@.len(),
    ensures
        match (spec_monkey(b@, pos as int), r) {
            (Some((h, end)), Some((m, at))) => is_fresh(m, h) && at == end && pos < end
                <= b@.len(),
            (None, None) => true,
            _ => false,
        },
{
    reveal(spec_monkey);
    let q1 = match eat(b, pos, "Monkey ") {
        Some(p) => p,
        None => {
            return None;
        },
    };
    let (_, q2) = match u64_from(b, q1, u64::MAX) {
        Some(t) => t,
        None => {
            return None;
        },
    };
    let q3 = match eat(b, q2, ":") {
        Some(p) => p,
        None => {
            return None;
        },
    };
    if !(q3 < b.len() && b[q3] == NEWLINE) {
        return None;
    }
    let (list, q4) = match parse_items(b, q3 + 1) {
        Some(t) => t,
        None => {
            return None;
        },
    };
    let (op, q5) = match parse_op(b, q4) {
        Some(t) => t,
        None => {
            return None;
        },
    };
    let (test, end) = match parse_test(b, q5) {
        Some(t) => t,
        None => {
            return None;
        },
    };
    let mut items: VecDeque<i64> = VecDeque::new();
    let mut i: usize = 0;
    while i < list.len()
        invariant
            i <= list@.len(),
            items@ == list@.take(i as int),
        decreases list@.len() - i,
    {
        items.push_back(list[i]);
        assert(items@ =~= list@.take(i + 1));
        i += 1;
    }
    assert(list@.take(i as int) =~= list@);
    Some((Monkey { items, op, test, inspections: 0 }, end))
}

/// The monkeys that `s` tells of from `pos` on, each followed by any number
/// of line feeds, as many as can be read.
pub open spec fn spec_monkeys(s: Seq<u8>, pos: int) -> Seq<Habits>
    decreases s.len() - pos,
{
    match spec_monkey(s, pos) {
        Some((h, end)) => if pos < end <= spec_newlines_end(s, end) <= s.len() {
            seq![h] + spec_monkeys(s, spec_newlines_end(s, end))
        } else {
            seq![h]
        },
        None => Seq::empty(),
    }
}

/// Reads the monkeys of a text, each followed by any number of line feeds,
/// as many as can be read. What follows them is not read. A text that
/// begins with no monkey cannot be read.
pub fn parse_input(input: &str) -> (r: Option<Vec<Monkey>>)
    ensures
        match r {
            Some(ms) => {
                &&& ms@.len() > 0
                &&& ms@.len() == spec_monkeys(input.spec_bytes(), 0).len()
                &&& forall|i: int|
                    0 <= i < ms@.len() ==> is_fresh(
                        #[trigger] ms@[i],
                        spec_monkeys(input.spec_bytes(), 0)[i],
                    )
            },
            None => spec_monkeys(input.spec_bytes(), 0).len() == 0,
        },
{
    let b = input.as_bytes();
    let ghost all = spec_monkeys(b@, 0);
    let ghost done: Seq<Habits> = Seq::empty();
    let mut out: Vec<Monkey> = Vec::new();
    let mut pos: usize = 0;
    assert(done + all =~= all);
    loop
        invariant
            pos <= b@.len(),
            b@ == input.spec_bytes(),
            all == done + spec_monkeys(b@, pos as int),
            out@.len() == done.len(),
            forall|i: int| 0 <= i < out@.len() ==> is_fresh(#[trigger] out@[i], done[i]),
        ensures
            all == done,
            out@.len() == done.len(),
            forall|i: int| 0 <= i < out@.len() ==> is_fresh(#[trigger] out@[i], done[i]),
        decreases b@.len() - pos,
    {
        let ghost here = spec_monkeys(b@, pos as int);
        match parse_monkey(b, pos) {
            Some((m, end)) => {
                let ghost h = match spec_monkey(b@, pos as int) {
                    Some((h, _)) => h,
                    None => arbitrary(),
                };
                proof {
                    lemma_newlines_end_bounds(b@, end as int);
                }
                out.push(m);
                let next = newlines(b, end);
                proof {
                    let rest = spec_monkeys(b@, next as int);
                    assert(here == seq![h] + rest);
                    assert(done.push(h) + rest =~= done + here);
                    done = done.push(h);
                }
                pos = next;
            },
            None => {
                proof {
                    assert(done + Seq::<Habits>::empty() =~= done);
                }
                break ;
            },
        }
    }
    if out.len() == 0 {
        None
    } else {
        Some(out)
    }
}

impl MonkeyGroup {
    /// The group of the monkeys that a text tells of, before its first
    /// round.
    pub fn parse(input: &str) -> (r: Option<Self>)
        ensures
            match r {
                Some(g) => {
                    &&& g.rounds == 0
                    &&& g.monkeys@.len() > 0
                    &&& g.monkeys@.len() == spec_monkeys(input.spec_bytes(), 0).len()
                    &&& forall|i: int|
                        0 <= i < g.monkeys@.len() ==> is_fresh(
                            #[trigger] g.monkeys@[i],
                            spec_monkeys(input.spec_bytes(), 0)[i],
                        )
                },
                None => spec_monkeys(input.spec_bytes(), 0).len() == 0,
            },
    {
        match parse_input(input) {
            Some(monkeys) => Some(MonkeyGroup::new(monkeys)),
            None => None,
        }
    }
}

} // verus!
