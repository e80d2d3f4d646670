//! The calories that elves carry: what each elf has packed, the heaviest
//! pack, and the three heaviest packs together.

use vstd::prelude::*;
use vstd::string::StringSliceAdditionalSpecFns;
use crate::text::{lines, parse_unsigned, spec_lines, spec_unsigned, views};

verus! {

/// What each elf has packed, as sequences.
pub open spec fn packs_of(elves: Seq<Vec<usize>>) -> Seq<Seq<usize>> {
    Seq::new(elves.len(), |i: int| elves[i]@)
}

/// The packs that lines of text tell of: a number belongs to the pack of
/// the elf at hand, and an empty line begins the pack of the next elf.
/// Nothing where a line that is not empty is no number.
pub open spec fn spec_packs(rows: Seq<Seq<u8>>) -> Option<Seq<Seq<usize>>>
    decreases rows.len(),
{
    if rows.len() == 0 {
        Some(seq![Seq::empty()])
    } else {
        match spec_packs(rows.drop_last()) {
            Some(before) => if rows.last().len() == 0 {
                Some(before.push(Seq::empty()))
            } else {
                match spec_unsigned(rows.last(), usize::MAX as nat) {
                    Some(v) => Some(
                        before.update(before.len() - 1, before.last().push(v as usize)),
                    ),
                    None => None,
                }
            },
            None => None,
        }
    }
}

/// There is always a pack at hand.
pub proof fn lemma_packs_nonempty(rows: Seq<Seq<u8>>)
    ensures
        spec_packs(rows) is Some ==> spec_packs(rows)->0.len() > 0,
    decreases rows.len(),
{
    if rows.len() > 0 {
        lemma_packs_nonempty(rows.drop_last());
    }
}

/// Where the first lines tell of no packs, neither do all.
pub proof fn lemma_packs_prefix(rows: Seq<Seq<u8>>, n: int)
    requires
        0 <= n <= rows.len(),
        spec_packs(rows.take(n)) is None,
    ensures
        spec_packs(rows) is None,
    decreases rows.len() - n,
{
    if n == rows.len() {
        assert(rows.take(n) =~= rows);
    } else {
        assert(rows.take(n + 1).drop_last() =~= rows.take(n));
        lemma_packs_prefix(rows, n + 1);
    }
}

/// Reads what each elf has packed: one number per line, the packs parted by
/// empty lines.
pub fn parse_text(text: &str) -> (r: Option<Vec<Vec<usize>>>)
    ensures
        match spec_packs(spec_lines(text.spec_bytes())) {
            Some(packs) => r is Some && packs_of(r->0@) == packs && r->0@.len() > 0,
            None => r is None,
        },
{
    let rows = lines(text.as_bytes());
    let ghost all = views(rows@);
    let mut elves: Vec<Vec<usize>> = Vec::new();
    let mut last: Vec<usize> = Vec::new();
    let mut i: usize = 0;
    assert(all.take(0) =~= Seq::<Seq<u8>>::empty());
    assert(packs_of(elves@).push(last@) =~= seq![Seq::<usize>::empty()]);
    while i < rows.len()
        invariant
            i <= rows@.len(),
            all == views(rows@),
            all == spec_lines(text.spec_bytes()),
            spec_packs(all.take(i as int)) == Some(packs_of(elves@).push(last@)),
        decreases rows@.len() - i,
    {
        let line = &rows[i];
        let ghost before = packs_of(elves@).push(last@);
        proof {
            assert(all.take(i + 1).drop_last() =~= all.take(i as int));
            assert(all.take(i + 1).last() == line@);
        }
        if line.len() == 0 {
            elves.push(last);
            last = Vec::new();
            assert(packs_of(elves@).push(last@) =~= before.push(Seq::<usize>::empty()));
        } else {
            match parse_unsigned(line.as_slice(), usize::MAX as u64) {
                Some(v) => {
                    last.push(v as usize);
                    assert(packs_of(elves@).push(last@) =~= before.update(
                        before.len() - 1,
                        before.last().push(v as usize),
                    ));
                },
                None => {
                    proof {
                        lemma_packs_prefix(all, i + 1);
                    }
                    return None;
                },
            }
        }
        i += 1;
    }
    let ghost fin = packs_of(elves@).push(last@);
    elves.push(last);
    assert(all.take(i as int) =~= all);
    assert(packs_of(elves@) =~= fin);
    proof {
        lemma_packs_nonempty(all);
    }
    Some(elves)
}

/// The calories of a pack.
pub open spec fn spec_sum(pack: Seq<usize>) -> nat
    decreases pack.len(),
{
    if pack.len() == 0 {
        0
    } else {
        spec_sum(pack.drop_last()) + pack.last() as nat
    }
}

/// The first items of a pack never weigh more than the pack.
pub proof fn lemma_sum_grows(pack: Seq<usize>, n: int)
    requires
        0 <= n <= pack.len(),
    ensures
        spec_sum(pack.take(n)) <= spec_sum(pack),
    decreases pack.len() - n,
{
    if n == pack.len() {
        assert(pack.take(n) =~= pack);
    } else {
        assert(pack.take(n + 1).drop_last() =~= pack.take(n));
        lemma_sum_grows(pack, n + 1);
    }
}

/// The calories of a pack, or nothing where they are too many for the
/// machine.
pub fn pack_total(pack: &Vec<usize>) -> (r: Option<usize>)
    ensures
        match r {
            Some(t) => t == spec_sum(pack@),
            None => spec_sum(pack@) > usize::MAX,
        },
{
    let mut total: usize = 0;
    let mut i: usize = 0;
    assert(pack@.take(0) =~= Seq::<usize>::empty());
    while i < pack.len()
        invariant
            i <= pack@.len(),
            total == spec_sum(pack@.take(i as int)),
        decreases pack@.len() - i,
    {
        proof {
            assert(pack@.take(i + 1).drop_last() =~= pack@.take(i as int));
            lemma_sum_grows(pack@, i + 1);
        }
        if pack[i] > usize::MAX - total {
            return None;
        }
        total = total + pack[i];
        i += 1;
    }
    assert(pack@.take(i as int) =~= pack@);
    Some(total)
}

/// The calories of the heaviest pack. Nothing where there is no pack or a
/// pack holds too many calories for the machine.
pub fn max_calories(elves: &Vec<Vec<usize>>) -> (r: Option<usize>)
    ensures
        match r {
            Some(m) => {
                &&& exists|i: int| 0 <= i < elves@.len() && m == spec_sum(#[trigger] elves@[i]@)
                &&& forall|i: int| 0 <= i < elves@.len() ==> spec_sum(#[trigger] elves@[i]@) <= m
            },
            None => elves@.len() == 0 || exists|i: int|
                0 <= i < elves@.len() && spec_sum(#[trigger] elves@[i]@) > usize::MAX,
        },
{
    if elves.len() == 0 {
        return None;
    }
    let mut best: usize = match pack_total(&elves[0]) {
        Some(t) => t,
        None => {
            return None;
        },
    };
    let mut i: usize = 1;
    while i < elves.len()
        invariant
            1 <= i <= elves@.len(),
            exists|k: int| 0 <= k < i && best == spec_sum(#[trigger] elves@[k]@),
            forall|k: int| 0 <= k < i ==> spec_sum(#[trigger] elves@[k]@) <= best,
        decreases elves@.len() - i,
    {
        match pack_total(&elves[i]) {
            Some(t) => {
                if t > best {
                    best = t;
                }
            },
            None => {
                return None;
            },
        }
        i += 1;
    }
    Some(best)
}

/// The three greatest of the numbers seen so far, greatest first, with 0
/// where fewer have been seen, once `t` has been seen too.
pub open spec fn keep3(top: (nat, nat, nat), t: nat) -> (nat, nat, nat) {
    let (a, b, c) = top;
    if t > a {
        (t, a, b)
    } else if t > b {
        (a, t, b)
    } else if t > c {
        (a, b, t)
    } else {
        top
    }
}

/// The calories of the three heaviest packs, heaviest first, with 0 where
/// there are fewer packs.
pub open spec fn spec_top3(packs: Seq<Seq<usize>>) -> (nat, nat, nat)
    decreases packs.len(),
{
    if packs.len() == 0 {
        (0, 0, 0)
    } else {
        keep3(spec_top3(packs.drop_last()), spec_sum(packs.last()))
    }
}

/// No three packs weigh more together than the three that `spec_top3`
/// keeps; and these are in order, heaviest first.
pub proof fn lemma_top3_is_greatest(packs: Seq<Seq<usize>>, i: int, j: int, k: int)
    requires
        0 <= i < j < k < packs.len(),
    ensures
        ({
            let (a, b, c) = spec_top3(packs);
            spec_sum(packs[i]) + spec_sum(packs[j]) + spec_sum(packs[k]) <= a + b + c
        }),
    decreases packs.len(),
{
    lemma_top3_bounds(packs);
    let before = packs.drop_last();
    lemma_top3_bounds(before);
    if k < packs.len() - 1 {
        lemma_top3_is_greatest(before, i, j, k);
    } else {
        lemma_top2_is_greatest(before, i, j);
    }
}

/// The three that `spec_top3` keeps are in order, and no pack weighs more
/// than the first of them.
pub proof fn lemma_top3_bounds(packs: Seq<Seq<usize>>)
    ensures
        ({
            let (a, b, c) = spec_top3(packs);
            a >= b >= c && forall|i: int| 0 <= i < packs.len() ==> spec_sum(#[trigger] packs[i]) <= a
        }),
    decreases packs.len(),
{
    if packs.len() > 0 {
        let before = packs.drop_last();
        lemma_top3_bounds(before);
        let (a, b, c) = spec_top3(packs);
        assert forall|i: int| 0 <= i < packs.len() implies spec_sum(#[trigger] packs[i]) <= a by {
            if i < packs.len() - 1 {
                assert(spec_sum(before[i]) <= spec_top3(before).0);
            }
        }
    }
}

/// No two packs weigh more together than the first two that `spec_top3`
/// keeps.
pub proof fn lemma_top2_is_greatest(packs: Seq<Seq<usize>>, i: int, j: int)
    requires
        0 <= i < j < packs.len(),
    ensures
        ({
            let (a, b, c) = spec_top3(packs);
            spec_sum(packs[i]) + spec_sum(packs[j]) <= a + b
        }),
    decreases packs.len(),
{
    lemma_top3_bounds(packs);
    let before = packs.drop_last();
    lemma_top3_bounds(before);
    if j < packs.len() - 1 {
        lemma_top2_is_greatest(before, i, j);
    } else {
        assert(spec_sum(before[i]) <= spec_top3(before).0);
    }
}

/// The calories of the three heaviest packs together, or of all packs
/// where there are fewer. Nothing where the calories are too many for the
/// machine.
pub fn total_top_3(elves: &Vec<Vec<usize>>) -> (r: Option<usize>)
    ensures
        ({
            let (a, b, c) = spec_top3(packs_of(elves@));
            match r {
                Some(t) => t == a + b + c,
                None => a + b + c > usize::MAX || exists|i: int|
                    0 <= i < elves@.len() && spec_sum(#[trigger] elves@[i]@) > usize::MAX,
            }
        }),
        r is Some ==> forall|i: int, j: int, k: int|
            #![trigger elves@[i], elves@[j], elves@[k]]
            0 <= i < j < k < elves@.len() ==> spec_sum(elves@[i]@) + spec_sum(elves@[j]@)
                + spec_sum(elves@[k]@) <= r->0,
{
    let ghost packs = packs_of(elves@);
    let mut a: usize = 0;
    let mut b: usize = 0;
    let mut c: usize = 0;
    let mut i: usize = 0;
    assert(packs.take(0) =~= Seq::<Seq<usize>>::empty());
    while i < elves.len()
        invariant
            i <= elves@.len(),
            packs == packs_of(elves@),
            spec_top3(packs.take(i as int)) == (a as nat, b as nat, c as nat),
        decreases elves@.len() - i,
    {
        proof {
            assert(packs.take(i + 1).drop_last() =~= packs.take(i as int));
            assert(packs.take(i + 1).last() == elves@[i as int]@);
        }
        let t = match pack_total(&elves[i]) {
            Some(t) => t,
            None => {
                return None;
            },
        };
        if t > a {
            c = b;
            b = a;
            a = t;
        } else if t > b {
            c = b;
            b = t;
        } else if t > c {
            c = t;
        }
        i += 1;
    }
    assert(packs.take(i as int) =~= packs);
    proof {
        assert forall|i: int, j: int, k: int|
            #![trigger elves@[i], elves@[j], elves@[k]]
            0 <= i < j < k < elves@.len() implies spec_sum(elves@[i]@) + spec_sum(elves@[j]@)
            + spec_sum(elves@[k]@) <= a + b + c by {
            lemma_top3_is_greatest(packs, i, j, k);
        }
    }
    match a.checked_add(b) {
        Some(ab) => ab.checked_add(c),
        None => None,
    }
}

} // verus!
