//! Rucksacks with two compartments of items, and groups of three elves who
//! share one kind of item.

use vstd::prelude::*;
use vstd::string::StringSliceAdditionalSpecFns;
use crate::text::{lines, spec_lines, views};

verus! {

/// A kind of item, named by a letter.
#[derive(Clone, Copy, Debug, PartialEq, Eq, Hash, Structural)]
pub struct Item(pub u8);

/// A byte that is not a letter and so names no item.
#[derive(Clone, Copy, Debug, PartialEq, Eq, Structural)]
pub struct InvalidItem(pub u8);

impl Item {
    /// The item is named by a letter of either case.
    pub open spec fn is_letter(&self) -> bool {
        97 <= self.0 <= 122 || 65 <= self.0 <= 90
    }

    /// Lower-case letters have the priorities 1 to 26, upper-case letters
    /// 27 to 52.
    pub open spec fn spec_priority(&self) -> int {
        if 97 <= self.0 <= 122 {
            1 + (self.0 - 97)
        } else {
            27 + (self.0 - 65)
        }
    }

    /// The priority of the item.
    pub fn priority(&self) -> (p: u8)
        requires
            self.is_letter(),
        ensures
            p == self.spec_priority(),
            1 <= p <= 52,
    {
        if 97 <= self.0 && self.0 <= 122 {
            1 + (self.0 - 97)
        } else {
            27 + (self.0 - 65)
        }
    }

    /// The item that a byte names, if the byte is a letter.
    pub fn try_from(value: u8) -> (r: Result<Item, InvalidItem>)
        ensures
            Item(value).is_letter() ==> r == Ok::<Item, InvalidItem>(Item(value)),
            !Item(value).is_letter() ==> r == Err::<Item, InvalidItem>(InvalidItem(value)),
    {
        if (97 <= value && value <= 122) || (65 <= value && value <= 90) {
            Ok(Item(value))
        } else {
            Err(InvalidItem(value))
        }
    }
}

/// Whether `x` is among `v`.
pub fn has_item(v: &Vec<Item>, x: Item) -> (r: bool)
    ensures
        r == v@.contains(x),
{
    let mut i: usize = 0;
    while i < v.len()
        invariant
            i <= v@.len(),
            forall|k: int| 0 <= k < i ==> v@[k] != x,
        decreases v@.len() - i,
    {
        if v[i] == x {
            return true;
        }
        i += 1;
    }
    false
}

/// Adds `x` to `v` unless it is there already.
pub fn add_item(v: &mut Vec<Item>, x: Item)
    requires
        old(v)@.no_duplicates(),
    ensures
        final(v)@.no_duplicates(),
        forall|y: Item| final(v)@.contains(y) <==> (old(v)@.contains(y) || y == x),
        final(v)@.len() >= old(v)@.len(),
        forall|k: int| 0 <= k < old(v)@.len() ==> final(v)@[k] == old(v)@[k],
{
    if !has_item(v, x) {
        let ghost before = v@;
        v.push(x);
        proof {
            assert forall|y: Item| v@.contains(y) <==> (before.contains(y) || y == x) by {
                if v@.contains(y) {
                    let k = choose|k: int| 0 <= k < v@.len() && v@[k] == y;
                    if k < before.len() {
                        assert(before[k] == y);
                    }
                }
                if before.contains(y) {
                    let k = choose|k: int| 0 <= k < before.len() && before[k] == y;
                    assert(v@[k] == y);
                }
                if y == x {
                    assert(v@[before.len() as int] == x);
                }
            }
        }
    }
}

/// The first of `front` that is among `back` too.
pub open spec fn first_shared(front: Seq<Item>, back: Seq<Item>) -> Option<Item>
    decreases front.len(),
{
    if front.len() == 0 {
        None
    } else if back.contains(front[0]) {
        Some(front[0])
    } else {
        first_shared(front.drop_first(), back)
    }
}

/// Where there is a first shared item it is in both sequences; there is
/// none exactly where the two share nothing.
pub proof fn lemma_first_shared(front: Seq<Item>, back: Seq<Item>)
    ensures
        match first_shared(front, back) {
            Some(x) => front.contains(x) && back.contains(x),
            None => forall|x: Item| !(front.contains(x) && back.contains(x)),
        },
    decreases front.len(),
{
    if front.len() == 0 {
    } else if back.contains(front[0]) {
        assert(front[0] == front[0]);
    } else {
        let rest = front.drop_first();
        lemma_first_shared(rest, back);
        match first_shared(rest, back) {
            Some(x) => {
                let k = choose|k: int| 0 <= k < rest.len() && rest[k] == x;
                assert(front[k + 1] == x);
            },
            None => {
                assert forall|x: Item| !(front.contains(x) && back.contains(x)) by {
                    if front.contains(x) && back.contains(x) {
                        let k = choose|k: int| 0 <= k < front.len() && front[k] == x;
                        assert(k > 0);
                        assert(rest[k - 1] == x);
                        assert(rest.contains(x));
                    }
                }
            },
        }
    }
}

/// Finds the first of `front` that is among `back` too.
pub fn find_shared(front: &Vec<Item>, back: &Vec<Item>) -> (r: Option<Item>)
    ensures
        r == first_shared(front@, back@),
        match r {
            Some(x) => front@.contains(x) && back@.contains(x),
            None => forall|x: Item| !(front@.contains(x) && back@.contains(x)),
        },
{
    let mut i: usize = 0;
    assert(front@.skip(0) =~= front@);
    while i < front.len()
        invariant
            i <= front@.len(),
            first_shared(front@, back@) == first_shared(front@.skip(i as int), back@),
        decreases front@.len() - i,
    {
        let ghost rest = front@.skip(i as int);
        assert(rest[0] == front@[i as int]);
        if has_item(back, front[i]) {
            proof {
                lemma_first_shared(front@, back@);
            }
            return Some(front[i]);
        }
        assert(rest.drop_first() =~= front@.skip(i + 1));
        i += 1;
    }
    proof {
        lemma_first_shared(front@, back@);
    }
    None
}

/// A rucksack: the kinds of item in its front and in its back compartment,
/// each kind once.
#[derive(Debug)]
pub struct Rucksack {
    pub front: Vec<Item>,
    pub back: Vec<Item>,
}

/// The kinds of item among `b[from..to]`, each once, in the order in which
/// they first occur.
pub fn kinds(b: &[u8], from: usize, to: usize) -> (r: Vec<Item>)
    requires
        from <= to <= b@.len(),
    ensures
        r@.no_duplicates(),
        forall|x: Item| r@.contains(x) <==> b@.subrange(from as int, to as int).contains(x.0),
{
    let mut out: Vec<Item> = Vec::new();
    let mut i: usize = from;
    while i < to
        invariant
            from <= i <= to <= b@.len(),
            out@.no_duplicates(),
            forall|x: Item| out@.contains(x) <==> b@.subrange(from as int, i as int).contains(x.0),
        decreases to - i,
    {
        let ghost before = out@;
        let ghost seen = b@.subrange(from as int, i as int);
        add_item(&mut out, Item(b[i]));
        proof {
            let now = b@.subrange(from as int, i + 1);
            assert forall|x: Item| out@.contains(x) <==> now.contains(x.0) by {
                if now.contains(x.0) {
                    let k = choose|k: int| 0 <= k < now.len() && now[k] == x.0;
                    if k < seen.len() {
                        assert(seen[k] == x.0);
                        assert(seen.contains(x.0));
                    } else {
                        assert(x == Item(b@[i as int]));
                    }
                }
                if before.contains(x) {
                    let k = choose|k: int| 0 <= k < seen.len() && seen[k] == x.0;
                    assert(now[k] == x.0);
                }
                if x == Item(b@[i as int]) {
                    assert(now[i - from] == x.0);
                }
            }
        }
        i += 1;
    }
    out
}

impl Rucksack {
    /// The compartments hold each kind once.
    pub open spec fn wf(&self) -> bool {
        self.front@.no_duplicates() && self.back@.no_duplicates()
    }

    /// Packs a rucksack from a line: the first half of its bytes names the
    /// items of the front compartment, the rest those of the back.
    pub fn from_bytes(b: &[u8]) -> (r: Rucksack)
        ensures
            r.wf(),
            forall|x: Item|
                r.front@.contains(x) <==> b@.subrange(0, b@.len() as int / 2).contains(x.0),
            forall|x: Item|
                r.back@.contains(x) <==> b@.subrange(
                    b@.len() as int / 2,
                    b@.len() as int,
                ).contains(x.0),
    {
        let n: usize = b.len();
        let n2: usize = n / 2;
        Rucksack { front: kinds(b, 0, n2), back: kinds(b, n2, n) }
    }

    /// Packs a rucksack from a line of letters.
    pub fn parse(s: &str) -> (r: Rucksack)
        ensures
            r.wf(),
            forall|x: Item|
                r.front@.contains(x) <==> s.spec_bytes().subrange(
                    0,
                    s.spec_bytes().len() as int / 2,
                ).contains(x.0),
            forall|x: Item|
                r.back@.contains(x) <==> s.spec_bytes().subrange(
                    s.spec_bytes().len() as int / 2,
                    s.spec_bytes().len() as int,
                ).contains(x.0),
    {
        Rucksack::from_bytes(s.as_bytes())
    }

    /// The item that lies in both compartments: the first such of the
    /// front compartment. Nothing where the compartments share no item.
    pub fn common_item(&self) -> (r: Option<Item>)
        ensures
            r == first_shared(self.front@, self.back@),
            match r {
                Some(x) => self.front@.contains(x) && self.back@.contains(x),
                None => forall|x: Item| !(self.front@.contains(x) && self.back@.contains(x)),
            },
    {
        find_shared(&self.front, &self.back)
    }

    /// The priority of the item that lies in both compartments. Nothing
    /// where there is no such item or it is not named by a letter.
    pub fn common_priority(&self) -> (r: Option<u8>)
        ensures
            r == match first_shared(self.front@, self.back@) {
                Some(x) => if x.is_letter() {
                    Some(x.spec_priority() as u8)
                } else {
                    None
                },
                None => None,
            },
    {
        match self.common_item() {
            Some(x) => {
                if (97 <= x.0 && x.0 <= 122) || (65 <= x.0 && x.0 <= 90) {
                    Some(x.priority())
                } else {
                    None
                }
            },
            None => None,
        }
    }

    /// The kinds of item in either compartment, each once.
    pub fn contents(&self) -> (r: Vec<Item>)
        requires
            self.wf(),
        ensures
            r@.no_duplicates(),
            forall|x: Item| r@.contains(x) <==> (self.front@.contains(x) || self.back@.contains(x)),
            r@.len() >= self.front@.len(),
            forall|k: int| 0 <= k < self.front@.len() ==> r@[k] == self.front@[k],
    {
        let mut out: Vec<Item> = self.front.clone();
        assert(out@ =~= self.front@);
        let mut i: usize = 0;
        while i < self.back.len()
            invariant
                i <= self.back@.len(),
                out@.no_duplicates(),
                out@.len() >= self.front@.len(),
                forall|k: int| 0 <= k < self.front@.len() ==> out@[k] == self.front@[k],
                forall|x: Item|
                    out@.contains(x) <==> (self.front@.contains(x) || self.back@.subrange(
                        0,
                        i as int,
                    ).contains(x)),
            decreases self.back@.len() - i,
        {
            let ghost seen = self.back@.subrange(0, i as int);
            add_item(&mut out, self.back[i]);
            proof {
                let now = self.back@.subrange(0, i + 1);
                assert forall|x: Item|
                    out@.contains(x) <==> (self.front@.contains(x) || now.contains(x)) by {
                    if now.contains(x) {
                        let k = choose|k: int| 0 <= k < now.len() && now[k] == x;
                        if k < seen.len() {
                            assert(seen[k] == x);
                            assert(seen.contains(x));
                        }
                    }
                    if seen.contains(x) {
                        let k = choose|k: int| 0 <= k < seen.len() && seen[k] == x;
                        assert(now[k] == x);
                    }
                    if x == self.back@[i as int] {
                        assert(now[i as int] == x);
                    }
                }
            }
            i += 1;
        }
        assert(self.back@.subrange(0, i as int) =~= self.back@);
        out
    }
}

/// Three elves and their rucksacks.
#[derive(Debug)]
pub struct ElfGroup(pub Vec<Rucksack>);

impl ElfGroup {
    /// `x` lies in the rucksack of the `n`-th elf.
    pub open spec fn carried_by(&self, n: int, x: Item) -> bool {
        self.0@[n].front@.contains(x) || self.0@[n].back@.contains(x)
    }

    /// `x` lies in the rucksacks of all three elves.
    pub open spec fn shared(&self, x: Item) -> bool {
        self.carried_by(0, x) && self.carried_by(1, x) && self.carried_by(2, x)
    }

    /// The group has three rucksacks, each in order.
    pub open spec fn wf(&self) -> bool {
        self.0@.len() == 3 && self.0@[0].wf() && self.0@[1].wf() && self.0@[2].wf()
    }

    /// The item that all three elves carry. Nothing where they share none.
    pub fn common_element(&self) -> (r: Option<Item>)
        requires
            self.wf(),
        ensures
            match r {
                Some(x) => self.shared(x),
                None => forall|x: Item| !self.shared(x),
            },
    {
        let first = self.0[0].contents();
        let second = self.0[1].contents();
        let third = self.0[2].contents();
        let mut both: Vec<Item> = Vec::new();
        let mut i: usize = 0;
        while i < first.len()
            invariant
                i <= first@.len(),
                forall|x: Item|
                    both@.contains(x) <==> (first@.subrange(0, i as int).contains(x)
                        && second@.contains(x)),
            decreases first@.len() - i,
        {
            let ghost before = both@;
            let ghost seen = first@.subrange(0, i as int);
            let x = first[i];
            let keep = has_item(&second, x);
            if keep {
                both.push(x);
            }
            proof {
                let now = first@.subrange(0, i + 1);
                assert forall|y: Item|
                    both@.contains(y) <==> (now.contains(y) && second@.contains(y)) by {
                    if both@.contains(y) {
                        let k = choose|k: int| 0 <= k < both@.len() && both@[k] == y;
                        if k < before.len() {
                            assert(before[k] == y);
                            assert(before.contains(y));
                            let j = choose|j: int| 0 <= j < seen.len() && seen[j] == y;
                            assert(now[j] == y);
                        } else {
                            assert(now[i as int] == y);
                        }
                    }
                    if now.contains(y) && second@.contains(y) {
                        let j = choose|j: int| 0 <= j < now.len() && now[j] == y;
                        if j < seen.len() {
                            assert(seen[j] == y);
                            assert(seen.contains(y));
                            let k = choose|k: int| 0 <= k < before.len() && before[k] == y;
                            assert(both@[k] == y);
                        } else {
                            assert(both@[before.len() as int] == y);
                        }
                    }
                }
            }
            i += 1;
        }
        assert(first@.subrange(0, i as int) =~= first@);
        let r = find_shared(&third, &both);
        proof {
            assert forall|x: Item| self.shared(x) <==> (third@.contains(x) && both@.contains(
                x,
            )) by {
                assert(self.carried_by(0, x) <==> first@.contains(x));
                assert(self.carried_by(1, x) <==> second@.contains(x));
                assert(self.carried_by(2, x) <==> third@.contains(x));
            }
        }
        r
    }

    /// The priority of the item that all three elves carry, where they
    /// share one and it is named by a letter.
    pub fn common_priority(&self) -> (r: Option<u8>)
        requires
            self.wf(),
        ensures
            match r {
                Some(p) => exists|x: Item|
                    #[trigger] self.shared(x) && x.is_letter() && p == x.spec_priority(),
                None => (forall|x: Item| !#[trigger] self.shared(x)) || exists|y: Item| #[trigger]
                    self.shared(y) && !y.is_letter(),
            },
    {
        match self.common_element() {
            Some(x) => {
                if (97 <= x.0 && x.0 <= 122) || (65 <= x.0 && x.0 <= 90) {
                    Some(x.priority())
                } else {
                    None
                }
            },
            None => None,
        }
    }
}

/// Groups the lines of a text by three, one rucksack per line. A text whose
/// number of lines is no multiple of three cannot be grouped.
pub fn parse_groups(s: &str) -> (r: Option<Vec<ElfGroup>>)
    ensures
        r is Some <==> spec_lines(s.spec_bytes()).len() % 3 == 0,
        r is Some ==> {
            &&& r->0@.len() * 3 == spec_lines(s.spec_bytes()).len()
            &&& forall|g: int| 0 <= g < r->0@.len() ==> (#[trigger] r->0@[g]).wf()
            &&& forall|g: int, n: int, x: Item|
                0 <= g < r->0@.len() && 0 <= n < 3 ==> (#[trigger] r->0@[g].carried_by(n, x)
                    <==> spec_lines(s.spec_bytes())[3 * g + n].contains(x.0))
        },
{
    let rows = lines(s.as_bytes());
    let ghost all = views(rows@);
    let n_lines: usize = rows.len();
    if n_lines % 3 != 0 {
        return None;
    }
    let mut groups: Vec<ElfGroup> = Vec::new();
    let mut n: usize = 0;
    while n < n_lines
        invariant
            n <= n_lines == rows@.len(),
            n_lines % 3 == 0,
            n % 3 == 0,
            all == views(rows@),
            groups@.len() * 3 == n,
            forall|g: int| 0 <= g < groups@.len() ==> (#[trigger] groups@[g]).wf(),
            forall|g: int, k: int, x: Item|
                0 <= g < groups@.len() && 0 <= k < 3 ==> (#[trigger] groups@[g].carried_by(k, x)
                    <==> all[3 * g + k].contains(x.0)),
        decreases n_lines - n,
    {
        let ghost before = groups@;
        let mut sacks: Vec<Rucksack> = Vec::new();
        sacks.push(Rucksack::from_bytes(rows[n].as_slice()));
        sacks.push(Rucksack::from_bytes(rows[n + 1].as_slice()));
        sacks.push(Rucksack::from_bytes(rows[n + 2].as_slice()));
        let group = ElfGroup(sacks);
        proof {
            assert forall|k: int, x: Item| 0 <= k < 3 implies (#[trigger] group.carried_by(k, x)
                <==> all[n + k].contains(x.0)) by {
                lemma_halves(all[n + k], x.0);
            }
        }
        groups.push(group);
        proof {
            assert forall|g: int, k: int, x: Item|
                0 <= g < groups@.len() && 0 <= k < 3 implies (#[trigger] groups@[g].carried_by(
                k,
                x,
            ) <==> all[3 * g + k].contains(x.0)) by {
                if g < before.len() {
                    assert(groups@[g] == before[g]);
                    assert(before[g].carried_by(k, x) <==> all[3 * g + k].contains(x.0));
                }
            }
        }
        n += 3;
    }
    Some(groups)
}

/// What is in a sequence is in its first half or in the rest.
pub proof fn lemma_halves(s: Seq<u8>, x: u8)
    ensures
        s.contains(x) <==> (s.subrange(0, s.len() as int / 2).contains(x) || s.subrange(
            s.len() as int / 2,
            s.len() as int,
        ).contains(x)),
{
    let h = s.len() as int / 2;
    let a = s.subrange(0, h);
    let b = s.subrange(h, s.len() as int);
    if s.contains(x) {
        let k = choose|k: int| 0 <= k < s.len() && s[k] == x;
        if k < h {
            assert(a[k] == x);
        } else {
            assert(b[k - h] == x);
        }
    }
    if a.contains(x) {
        let k = choose|k: int| 0 <= k < a.len() && a[k] == x;
        assert(s[k] == x);
    }
    if b.contains(x) {
        let k = choose|k: int| 0 <= k < b.len() && b[k] == x;
        assert(s[k + h] == x);
    }
}

} // verus!
