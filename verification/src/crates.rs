//! Piles of crates, the crane instructions that move crates between them,
//! and the drawing from which both are read.

use itertools::Itertools;
use vstd::prelude::*;
use vstd::string::StringSliceAdditionalSpecFns;
use crate::text::{
    eat, opt_newline, spec_eat, spec_opt_newline, spec_u64_from, u64_from, NEWLINE,
};

verus! {

/// A crate, named by a letter.
#[derive(Debug, Clone, Copy, PartialEq, Eq, Structural)]
pub struct Crate(pub char);

/// Move `quantity` crates, one at a time, from the pile `source` to the
/// pile `destination`; piles are counted from 0.
#[derive(Debug, PartialEq, Eq, Copy, Clone, Structural)]
pub struct Instruction {
    pub quantity: usize,
    pub source: usize,
    pub destination: usize,
}

/// The piles, each from its bottom crate to its top crate.
#[derive(Debug)]
pub struct Piles(pub Vec<Vec<Crate>>);

/// What each pile holds.
pub open spec fn stacks(piles: Seq<Vec<Crate>>) -> Seq<Seq<Crate>> {
    Seq::new(piles.len(), |i: int| piles[i]@)
}

/// The characters in one string, as `join` of itertools puts them together
/// with an empty separator: by its source each element is written as
/// `Display` writes it, which for a character is the character itself,
/// with the separator between them.
#[verifier::external_body]
fn join_chars(chars: &Vec<char>) -> (r: String)
    ensures
        r@ == chars@,
{
    chars.iter().join("")
}

impl Piles {
    /// The instruction can be carried out: both piles are there, and the
    /// source holds as many crates as are to be moved (one is enough where
    /// source and destination are the same pile).
    pub open spec fn admits(&self, inst: Instruction) -> bool {
        &&& inst.source < self.0@.len()
        &&& inst.destination < self.0@.len()
        &&& if inst.source == inst.destination {
            inst.quantity == 0 || self.0@[inst.source as int]@.len() > 0
        } else {
            inst.quantity <= self.0@[inst.source as int]@.len()
        }
    }

    /// Whether the instruction can be carried out.
    pub fn can_apply(&self, inst: Instruction) -> (r: bool)
        ensures
            r == self.admits(inst),
    {
        if inst.source >= self.0.len() || inst.destination >= self.0.len() {
            return false;
        }
        if inst.source == inst.destination {
            inst.quantity == 0 || self.0[inst.source].len() > 0
        } else {
            inst.quantity <= self.0[inst.source].len()
        }
    }

    /// What the piles hold after the instruction: the moved crates leave
    /// the source from its top and arrive on the destination in that
    /// order, so the last to leave lies on top.
    pub open spec fn spec_apply(before: Seq<Seq<Crate>>, inst: Instruction) -> Seq<Seq<Crate>> {
        if inst.source == inst.destination {
            before
        } else {
            let from = before[inst.source as int];
            let kept = from.len() - inst.quantity;
            before.update(inst.source as int, from.take(kept)).update(
                inst.destination as int,
                before[inst.destination as int] + from.skip(kept).reverse(),
            )
        }
    }

    /// Carries out an instruction, crate by crate.
    pub fn apply(&mut self, inst: Instruction)
        requires
            old(self).admits(inst),
        ensures
            stacks(final(self).0@) == Piles::spec_apply(stacks(old(self).0@), inst),
            final(self).0@.len() == old(self).0@.len(),
    {
        let ghost first = stacks(self.0@);
        let ghost from = first[inst.source as int];
        let ghost to = first[inst.destination as int];
        let mut k: usize = 0;
        assert(from.skip(from.len() as int) =~= Seq::<Crate>::empty());
        assert(from.take(from.len() as int) =~= from);
        assert(to + Seq::<Crate>::empty() =~= to);
        assert(first.update(inst.source as int, from).update(inst.destination as int, to)
            =~= first);
        while k < inst.quantity
            invariant
                k <= inst.quantity,
                first == stacks(old(self).0@),
                old(self).admits(inst),
                from == first[inst.source as int],
                to == first[inst.destination as int],
                self.0@.len() == first.len(),
                inst.source == inst.destination ==> stacks(self.0@) == first,
                inst.source != inst.destination ==> stacks(self.0@) == first.update(
                    inst.source as int,
                    from.take(from.len() - k),
                ).update(inst.destination as int, to + from.skip(from.len() - k).reverse()),
            decreases inst.quantity - k,
        {
            let ghost before = stacks(self.0@);
            assert(before[inst.source as int] == self.0@[inst.source as int]@);
            let elem = self.0[inst.source].pop().unwrap();
            self.0[inst.destination].push(elem);
            proof {
                let now = stacks(self.0@);
                if inst.source == inst.destination {
                    assert(now[inst.source as int] =~= before[inst.source as int]);
                    assert(now =~= before);
                } else {
                    let left = from.len() - k;
                    assert(from.take(left).drop_last() =~= from.take(left - 1));
                    assert(from.skip(left - 1).reverse() =~= from.skip(left).reverse().push(
                        from[left - 1],
                    ));
                    assert(before[inst.source as int] == from.take(left));
                    assert(before[inst.destination as int] == to + from.skip(left).reverse());
                    assert(elem == from[left - 1]);
                    assert(now[inst.source as int] =~= from.take(left - 1));
                    assert(now[inst.destination as int] =~= to + from.skip(left - 1).reverse());
                    assert forall|i: int|
                        0 <= i < now.len() && i != inst.source && i != inst.destination implies now[i]
                        == first[i] by {
                        assert(now[i] == before[i]);
                    }
                    assert(now =~= first.update(inst.source as int, from.take(left - 1)).update(
                        inst.destination as int,
                        to + from.skip(left - 1).reverse(),
                    ));
                }
            }
            k += 1;
        }
    }

    /// The top crates of the piles, one letter each, in the order of the
    /// piles. Nothing where a pile is empty.
    pub fn top_crates(&self) -> (r: Option<String>)
        ensures
            match r {
                Some(tops) => {
                    &&& tops@.len() == self.0@.len()
                    &&& forall|i: int|
                        0 <= i < self.0@.len() ==> (#[trigger] self.0@[i])@.len() > 0 && tops@[i]
                            == self.0@[i]@.last().0
                },
                None => exists|i: int| 0 <= i < self.0@.len() && (#[trigger] self.0@[i])@.len() == 0,
            },
    {
        let mut tops: Vec<char> = Vec::new();
        let mut i: usize = 0;
        while i < self.0.len()
            invariant
                i <= self.0@.len(),
                tops@.len() == i,
                forall|k: int|
                    0 <= k < i ==> (#[trigger] self.0@[k])@.len() > 0 && tops@[k]
                        == self.0@[k]@.last().0,
            decreases self.0@.len() - i,
        {
            let pile = &self.0[i];
            if pile.len() == 0 {
                return None;
            }
            tops.push(pile[pile.len() - 1].0);
            i += 1;
        }
        Some(join_chars(&tops))
    }
}

/// What column `c` of the rows holds, read from the last row to the first,
/// without the holes.
pub open spec fn spec_column<T>(rows: Seq<Seq<Option<T>>>, c: int) -> Seq<T>
    decreases rows.len(),
{
    if rows.len() == 0 {
        Seq::empty()
    } else {
        (match rows.last()[c] {
            Some(x) => seq![x],
            None => Seq::empty(),
        }) + spec_column(rows.drop_last(), c)
    }
}

/// The rows as sequences.
pub open spec fn rows_of<T>(v: Seq<Vec<Option<T>>>) -> Seq<Seq<Option<T>>> {
    Seq::new(v.len(), |i: int| v[i]@)
}

/// Turns rows into columns: column `c` of the result holds what the rows
/// hold at place `c`, read from the last row to the first, without the
/// holes. There are as many columns as the first row has places.
pub fn transpose_rev_filter<T: Copy>(v: Vec<Vec<Option<T>>>) -> (r: Vec<Vec<T>>)
    requires
        v@.len() > 0,
        forall|i: int| 0 <= i < v@.len() ==> (#[trigger] v@[i])@.len() >= v@[0]@.len(),
    ensures
        r@.len() == v@[0]@.len(),
        forall|c: int| 0 <= c < r@.len() ==> (#[trigger] r@[c])@ == spec_column(rows_of(v@), c),
{
    let len = v[0].len();
    let ghost rows = rows_of(v@);
    let mut out: Vec<Vec<T>> = Vec::new();
    let mut c: usize = 0;
    while c < len
        invariant
            c <= len,
            len == v@[0]@.len(),
            v@.len() > 0,
            rows == rows_of(v@),
            forall|i: int| 0 <= i < v@.len() ==> (#[trigger] v@[i])@.len() >= len,
            out@.len() == c,
            forall|k: int| 0 <= k < c ==> (#[trigger] out@[k])@ == spec_column(rows, k),
        decreases len - c,
    {
        let mut column: Vec<T> = Vec::new();
        let mut i: usize = v.len();
        assert(rows.take(v@.len() as int) =~= rows);
        assert(Seq::<T>::empty() + spec_column(rows, c as int) =~= spec_column(rows, c as int));
        while i > 0
            invariant
                i <= v@.len(),
                c < len,
                rows == rows_of(v@),
                forall|k: int| 0 <= k < v@.len() ==> (#[trigger] v@[k])@.len() >= len,
                spec_column(rows, c as int) == column@ + spec_column(rows.take(i as int), c as int),
            decreases i,
        {
            i -= 1;
            let ghost before = column@;
            proof {
                assert(rows.take(i + 1).drop_last() =~= rows.take(i as int));
                assert(rows.take(i + 1).last() == v@[i as int]@);
                assert(v@[i as int]@.len() >= len);
            }
            match v[i][c] {
                Some(x) => {
                    column.push(x);
                    assert(column@ + spec_column(rows.take(i as int), c as int) =~= before + (
                    seq![x] + spec_column(rows.take(i as int), c as int)));
                },
                None => {
                    assert(column@ + spec_column(rows.take(i as int), c as int) =~= before + (
                    Seq::<T>::empty() + spec_column(rows.take(i as int), c as int)));
                },
            }
        }
        proof {
            assert(rows.take(0) =~= Seq::<Seq<Option<T>>>::empty());
            assert(column@ + Seq::<T>::empty() =~= column@);
        }
        out.push(column);
        c += 1;
    }
    assert(rows.take(v@.len() as int) =~= rows) by {
        assert(rows.len() == v@.len());
    }
    out
}

/// The crate that stands in `s` at `pos`, a letter in square brackets, and
/// the position after it.
pub open spec fn spec_crate(s: Seq<u8>, pos: int) -> Option<(Crate, int)> {
    if 0 <= pos && pos + 3 <= s.len() && s[pos] == 91 && s[pos + 1] < 128 && s[pos + 2] == 93 {
        Some((Crate(s[pos + 1] as char), pos + 3))
    } else {
        None
    }
}

/// Reads a crate.
pub fn parse_crate(b: &[u8], pos: usize) -> (r: Option<(Crate, usize)>)
    ensures
        match (spec_crate(b@, pos as int), r) {
            (Some((c, end)), Some((got, at))) => got == c && at == end && pos < end <= b@.len(),
            (None, None) => true,
            _ => false,
        },
{
    if pos <= b.len() && b.len() - pos >= 3 && b[pos] == 91 && b[pos + 1] < 128 && b[pos + 2]
        == 93 {
        Some((Crate(b[pos + 1] as char), pos + 3))
    } else {
        None
    }
}

/// The position after the hole that stands in `s` at `pos`: three spaces.
pub open spec fn spec_hole(s: Seq<u8>, pos: int) -> Option<int> {
    spec_eat(s, pos, "   ".spec_bytes())
}

/// Reads a hole.
pub fn parse_hole(b: &[u8], pos: usize) -> (r: Option<usize>)
    ensures
        match (spec_hole(b@, pos as int), r) {
            (Some(end), Some(at)) => at == end && pos <= end <= b@.len(),
            (None, None) => true,
            _ => false,
        },
{
    eat(b, pos, "   ")
}

/// The crate or the hole that stands in `s` at `pos`, and the position
/// after it.
pub open spec fn spec_crate_or_hole(s: Seq<u8>, pos: int) -> Option<(Option<Crate>, int)> {
    match spec_crate(s, pos) {
        Some((c, end)) => Some((Some(c), end)),
        None => match spec_hole(s, pos) {
            Some(end) => Some((None, end)),
            None => None,
        },
    }
}

/// Reads a crate or a hole.
pub fn parse_crate_or_hole(b: &[u8], pos: usize) -> (r: Option<(Option<Crate>, usize)>)
    ensures
        match (spec_crate_or_hole(b@, pos as int), r) {
            (Some((c, end)), Some((got, at))) => got == c && at == end && pos <= end <= b@.len(),
            (None, None) => true,
            _ => false,
        },
{
    match parse_crate(b, pos) {
        Some((c, end)) => Some((Some(c), end)),
        None => match parse_hole(b, pos) {
            Some(end) => Some((None, end)),
            None => None,
        },
    }
}

/// The crates and holes that follow in a row, each after one space, as
/// many as can be read, and the position after them.
pub open spec fn spec_more_slots(s: Seq<u8>, pos: int) -> (Seq<Option<Crate>>, int)
    decreases s.len() - pos,
{
    match spec_eat(s, pos, " ".spec_bytes()) {
        Some(p) => match spec_crate_or_hole(s, p) {
            Some((c, end)) => if pos < end <= s.len() {
                let (rest, fin) = spec_more_slots(s, end);
                (seq![c] + rest, fin)
            } else {
                (Seq::empty(), pos)
            },
            None => (Seq::empty(), pos),
        },
        None => (Seq::empty(), pos),
    }
}

/// The row of the drawing that stands in `s` at `pos`: crates and holes
/// with one space between them, at least one; and the position after it.
pub open spec fn spec_crate_line(s: Seq<u8>, pos: int) -> Option<(Seq<Option<Crate>>, int)> {
    match spec_crate_or_hole(s, pos) {
        Some((first, p)) => {
            let (rest, end) = spec_more_slots(s, p);
            Some((seq![first] + rest, end))
        },
        None => None,
    }
}

/// Reads a row of the drawing.
pub fn parse_crate_line(b: &[u8], pos: usize) -> (r: Option<(Vec<Option<Crate>>, usize)>)
    ensures
        match (spec_crate_line(b@, pos as int), r) {
            (Some((row, end)), Some((got, at))) => got@ == row && at == end && pos <= end
                <= b@.len(),
            (None, None) => true,
            _ => false,
        },
{
    let (first, p) = match parse_crate_or_hole(b, pos) {
        Some(t) => t,
        None => {
            return None;
        },
    };
    let mut row: Vec<Option<Crate>> = Vec::new();
    row.push(first);
    let mut at: usize = p;
    let ghost whole = spec_more_slots(b@, p as int);
    assert(seq![first] + Seq::<Option<Crate>>::empty() =~= seq![first]);
    loop
        invariant_except_break
            row@ + spec_more_slots(b@, at as int).0 == seq![first] + whole.0,
            spec_more_slots(b@, at as int).1 == whole.1,
        invariant
            pos <= at <= b@.len(),
            whole == spec_more_slots(b@, p as int),
        ensures
            pos <= at <= b@.len(),
            row@ == seq![first] + whole.0,
            at == whole.1,
        decreases b@.len() - at,
    {
        let ghost before = row@;
        let ghost tail = spec_more_slots(b@, at as int);
        let q = match eat(b, at, " ") {
            Some(q) => q,
            None => {
                assert(before + Seq::<Option<Crate>>::empty() =~= before);
                break ;
            },
        };
        match parse_crate_or_hole(b, q) {
            Some((c, end)) => {
                row.push(c);
                proof {
                    lemma_space(b@, at as int);
                    let next = spec_more_slots(b@, end as int);
                    assert(tail.0 == seq![c] + next.0);
                    assert(row@ + next.0 =~= before + tail.0);
                }
                at = end;
            },
            None => {
                assert(before + Seq::<Option<Crate>>::empty() =~= before);
                break ;
            },
        }
    }
    Some((row, at))
}

/// A space takes room: the position after it lies further on.
pub proof fn lemma_space(s: Seq<u8>, pos: int)
    requires
        spec_eat(s, pos, " ".spec_bytes()) is Some,
    ensures
        spec_eat(s, pos, " ".spec_bytes())->0 > pos,
{
    reveal_strlit(" ");
    vstd::string::is_ascii_spec_bytes(" ");
    assert(" ".spec_bytes().len() == 1);
}

/// The rows of the drawing that stand in `s` from `pos` on, each followed
/// by a line feed, as many as can be read, and the position after them.
pub open spec fn spec_crate_rows(s: Seq<u8>, pos: int) -> (Seq<Seq<Option<Crate>>>, int)
    decreases s.len() - pos,
{
    match spec_crate_line(s, pos) {
        Some((row, end)) => if pos <= end < s.len() && s[end] == NEWLINE {
            let (rest, fin) = spec_crate_rows(s, end + 1);
            (seq![row] + rest, fin)
        } else {
            (Seq::empty(), pos)
        },
        None => (Seq::empty(), pos),
    }
}

/// The rows can be turned into piles: there is a row, and none is shorter
/// than the first.
pub open spec fn can_transpose(rows: Seq<Seq<Option<Crate>>>) -> bool {
    &&& rows.len() > 0
    &&& forall|i: int| 0 <= i < rows.len() ==> (#[trigger] rows[i]).len() >= rows[0].len()
}

/// Reads the drawing of the piles: rows of crates and holes, top row
/// first. Gives the piles, each from bottom to top, and the position after
/// the drawing. Nothing where there is no row or a row is shorter than
/// the first.
pub fn parse_all_crates(b: &[u8], pos: usize) -> (r: Option<(Vec<Vec<Crate>>, usize)>)
    requires
        pos <= b@.len(),
    ensures
        ({
            let (rows, end) = spec_crate_rows(b@, pos as int);
            match r {
                Some((piles, at)) => {
                    &&& can_transpose(rows)
                    &&& at == end
                    &&& pos < at <= b@.len()
                    &&& piles@.len() == rows[0].len()
                    &&& forall|c: int|
                        0 <= c < piles@.len() ==> (#[trigger] piles@[c])@ == spec_column(rows, c)
                },
                None => !can_transpose(rows),
            }
        }),
{
    let mut rows: Vec<Vec<Option<Crate>>> = Vec::new();
    let mut at: usize = pos;
    let ghost whole = spec_crate_rows(b@, pos as int);
    assert(Seq::<Seq<Option<Crate>>>::empty() + whole.0 =~= whole.0);
    assert(rows_of(rows@) =~= Seq::<Seq<Option<Crate>>>::empty());
    loop
        invariant_except_break
            rows_of(rows@) + spec_crate_rows(b@, at as int).0 == whole.0,
            spec_crate_rows(b@, at as int).1 == whole.1,
        invariant
            pos <= at <= b@.len(),
            whole == spec_crate_rows(b@, pos as int),
            rows@.len() > 0 ==> at > pos,
        ensures
            pos <= at <= b@.len(),
            rows_of(rows@) == whole.0,
            at == whole.1,
            rows@.len() > 0 ==> at > pos,
        decreases b@.len() - at,
    {
        let ghost before = rows_of(rows@);
        let ghost tail = spec_crate_rows(b@, at as int);
        match parse_crate_line(b, at) {
            Some((row, end)) => {
                if end < b.len() && b[end] == NEWLINE {
                    let ghost r = row@;
                    rows.push(row);
                    proof {
                        let next = spec_crate_rows(b@, end + 1);
                        assert(tail.0 == seq![r] + next.0);
                        assert(rows_of(rows@) =~= before.push(r));
                        assert(rows_of(rows@) + next.0 =~= before + tail.0);
                    }
                    at = end + 1;
                } else {
                    assert(before + Seq::<Seq<Option<Crate>>>::empty() =~= before);
                    break ;
                }
            },
            None => {
                assert(before + Seq::<Seq<Option<Crate>>>::empty() =~= before);
                break ;
            },
        }
    }
    if rows.len() == 0 {
        return None;
    }
    let width = rows[0].len();
    let mut i: usize = 0;
    while i < rows.len()
        invariant
            i <= rows@.len(),
            rows@.len() > 0,
            width == rows@[0]@.len(),
            rows_of(rows@) == whole.0,
            whole == spec_crate_rows(b@, pos as int),
            forall|k: int| 0 <= k < i ==> (#[trigger] rows@[k])@.len() >= width,
        decreases rows@.len() - i,
    {
        if rows[i].len() < width {
            assert(rows_of(rows@)[i as int].len() < rows_of(rows@)[0].len());
            return None;
        }
        i += 1;
    }
    proof {
        assert forall|k: int| 0 <= k < rows_of(rows@).len() implies (#[trigger] rows_of(
            rows@,
        )[k]).len() >= rows_of(rows@)[0].len() by {
            assert(rows@[k]@.len() >= width);
        }
    }
    let piles = transpose_rev_filter(rows);
    Some((piles, at))
}

/// A digit, a space or a tab.
pub open spec fn is_label_byte(b: u8) -> bool {
    48 <= b <= 57 || b == 32 || b == 9
}

/// The position of the first byte at or after `pos` that is no digit,
/// space or tab.
pub open spec fn spec_label_end(s: Seq<u8>, pos: int) -> int
    decreases s.len() - pos,
{
    if 0 <= pos < s.len() && is_label_byte(s[pos]) {
        spec_label_end(s, pos + 1)
    } else {
        pos
    }
}

/// The position after the line of pile numbers that stands in `s` at
/// `pos`: digits, spaces and tabs, at least one, and a line feed.
pub open spec fn spec_number_line(s: Seq<u8>, pos: int) -> Option<int> {
    let end = spec_label_end(s, pos);
    if pos < end < s.len() && s[end] == NEWLINE {
        Some(end + 1)
    } else {
        None
    }
}

/// Reads the line of pile numbers.
pub fn parse_number_line(b: &[u8], pos: usize) -> (r: Option<usize>)
    requires
        pos <= b@.len(),
    ensures
        match (spec_number_line(b@, pos as int), r) {
            (Some(end), Some(at)) => at == end && pos < end <= b@.len(),
            (None, None) => true,
            _ => false,
        },
{
    let mut i: usize = pos;
    while i < b.len() && ((48 <= b[i] && b[i] <= 57) || b[i] == 32 || b[i] == 9)
        invariant
            pos <= i <= b@.len(),
            spec_label_end(b@, pos as int) == spec_label_end(b@, i as int),
        decreases b@.len() - i,
    {
        i += 1;
    }
    if i > pos && i < b.len() && b[i] == NEWLINE {
        Some(i + 1)
    } else {
        None
    }
}

/// The number of a pile that stands in `s` at `pos`, counted from 1 there
/// and from 0 here, and the position after it.
pub open spec fn spec_index_number(s: Seq<u8>, pos: int) -> Option<(usize, int)> {
    match spec_u64_from(s, pos, u16::MAX as nat) {
        Some((n, end)) => if n >= 1 {
            Some(((n - 1) as usize, end))
        } else {
            None
        },
        None => None,
    }
}

/// Reads the number of a pile.
pub fn index_number(b: &[u8], pos: usize) -> (r: Option<(usize, usize)>)
    requires
        pos <= b@.len(),
    ensures
        match (spec_index_number(b@, pos as int), r) {
            (Some((n, end)), Some((got, at))) => got == n && at == end && pos < end <= b@.len(),
            (None, None) => true,
            _ => false,
        },
{
    match u64_from(b, pos, 65535) {
        Some((n, end)) => {
            if n >= 1 {
                Some(((n - 1) as usize, end))
            } else {
                None
            }
        },
        None => None,
    }
}

/// The instruction that stands in `s` at `pos`, `move`, a quantity, `from`,
/// a pile, `to`, a pile; and the position after it.
pub open spec fn spec_instruction(s: Seq<u8>, pos: int) -> Option<(Instruction, int)> {
    match spec_eat(s, pos, "move ".spec_bytes()) {
        Some(q1) => match spec_u64_from(s, q1, u16::MAX as nat) {
            Some((q, q2)) => match spec_eat(s, q2, " from ".spec_bytes()) {
                Some(q3) => match spec_index_number(s, q3) {
                    Some((from, q4)) => match spec_eat(s, q4, " to ".spec_bytes()) {
                        Some(q5) => match spec_index_number(s, q5) {
                            Some((to, end)) => Some(
                                (
                                    Instruction {
                                        quantity: q as usize,
                                        source: from,
                                        destination: to,
                                    },
                                    end,
                                ),
                            ),
                            None => None,
                        },
                        None => None,
                    },
                    None => None,
                },
                None => None,
            },
            None => None,
        },
        None => None,
    }
}

/// Reads an instruction.
pub fn parse_instruction(b: &[u8], pos: usize) -> (r: Option<(Instruction, usize)>)
    requires
        pos <= b@.len(),
    ensures
        match (spec_instruction(b@, pos as int), r) {
            (Some((ins, end)), Some((got, at))) => got == ins && at == end && pos < end
                <= b@.len(),
            (None, None) => true,
            _ => false,
        },
{
    let q1 = match eat(b, pos, "move ") {
        Some(p) => p,
        None => {
            return None;
        },
    };
    let (q, q2) = match u64_from(b, q1, 65535) {
        Some(t) => t,
        None => {
            return None;
        },
    };
    let q3 = match eat(b, q2, " from ") {
        Some(p) => p,
        None => {
            return None;
        },
    };
    let (from, q4) = match index_number(b, q3) {
        Some(t) => t,
        None => {
            return None;
        },
    };
    let q5 = match eat(b, q4, " to ") {
        Some(p) => p,
        None => {
            return None;
        },
    };
    match index_number(b, q5) {
        Some((to, end)) => Some(
            (Instruction { quantity: q as usize, source: from, destination: to }, end),
        ),
        None => None,
    }
}

/// The instructions that follow in a list, each after one line feed, as
/// many as can be read, and the position after them.
pub open spec fn spec_more_instructions(s: Seq<u8>, pos: int) -> (Seq<Instruction>, int)
    decreases s.len() - pos,
{
    if 0 <= pos < s.len() && s[pos] == NEWLINE {
        match spec_instruction(s, pos + 1) {
            Some((ins, end)) => if pos < end <= s.len() {
                let (rest, fin) = spec_more_instructions(s, end);
                (seq![ins] + rest, fin)
            } else {
                (Seq::empty(), pos)
            },
            None => (Seq::empty(), pos),
        }
    } else {
        (Seq::empty(), pos)
    }
}

/// What a text tells: the drawing of the piles, the line of pile numbers,
/// an empty line, and instructions, one per line, at least one, with at
/// most one line feed after the last. The rows of the drawing, the
/// instructions and the position after them.
pub open spec fn spec_input(s: Seq<u8>) -> Option<(Seq<Seq<Option<Crate>>>, Seq<Instruction>, int)> {
    let (rows, q1) = spec_crate_rows(s, 0);
    if !can_transpose(rows) {
        None
    } else {
        match spec_number_line(s, q1) {
            Some(q2) => if q2 < s.len() && s[q2] == NEWLINE {
                match spec_instruction(s, q2 + 1) {
                    Some((first, q3)) => {
                        let (rest, q4) = spec_more_instructions(s, q3);
                        Some((rows, seq![first] + rest, spec_opt_newline(s, q4)))
                    },
                    None => None,
                }
            } else {
                None
            },
            None => None,
        }
    }
}

/// Reads the piles and the instructions of a text. Gives them and the
/// number of bytes read.
pub fn parse_input(i: &str) -> (r: Option<(Piles, Vec<Instruction>, usize)>)
    ensures
        match (spec_input(i.spec_bytes()), r) {
            (Some((rows, list, end)), Some((piles, got, at))) => {
                &&& got@ == list
                &&& at == end
                &&& piles.0@.len() == rows[0].len()
                &&& forall|c: int|
                    0 <= c < piles.0@.len() ==> (#[trigger] piles.0@[c])@ == spec_column(rows, c)
            },
            (None, None) => true,
            _ => false,
        },
{
    let b = i.as_bytes();
    let (piles, q1) = match parse_all_crates(b, 0) {
        Some(t) => t,
        None => {
            return None;
        },
    };
    let q2 = match parse_number_line(b, q1) {
        Some(p) => p,
        None => {
            return None;
        },
    };
    if !(q2 < b.len() && b[q2] == NEWLINE) {
        return None;
    }
    let (first, q3) = match parse_instruction(b, q2 + 1) {
        Some(t) => t,
        None => {
            return None;
        },
    };
    let mut list: Vec<Instruction> = Vec::new();
    list.push(first);
    let mut at: usize = q3;
    let ghost whole = spec_more_instructions(b@, q3 as int);
    assert(seq![first] + Seq::<Instruction>::empty() =~= seq![first]);
    loop
        invariant_except_break
            list@ + spec_more_instructions(b@, at as int).0 == seq![first] + whole.0,
            spec_more_instructions(b@, at as int).1 == whole.1,
        invariant
            at <= b@.len(),
            whole == spec_more_instructions(b@, q3 as int),
        ensures
            at <= b@.len(),
            list@ == seq![first] + whole.0,
            at == whole.1,
        decreases b@.len() - at,
    {
        let ghost before = list@;
        let ghost tail = spec_more_instructions(b@, at as int);
        if !(at < b.len() && b[at] == NEWLINE) {
            assert(before + Seq::<Instruction>::empty() =~= before);
            break ;
        }
        match parse_instruction(b, at + 1) {
            Some((ins, end)) => {
                list.push(ins);
                proof {
                    let next = spec_more_instructions(b@, end as int);
                    assert(tail.0 == seq![ins] + next.0);
                    assert(list@ + next.0 =~= before + tail.0);
                }
                at = end;
            },
            None => {
                assert(before + Seq::<Instruction>::empty() =~= before);
                break ;
            },
        }
    }
    let end = opt_newline(b, at);
    Some((Piles(piles), list, end))
}

} // verus!
