//! Line splitting and decimal numbers on bytes.

use vstd::prelude::*;
use vstd::string::StringSliceAdditionalSpecFns;

verus! {

pub const NEWLINE: u8 = 10;

pub const CARRIAGE_RETURN: u8 = 13;

/// Position of the first byte `c` in `b`, or `b.len()` where it has none.
pub open spec fn first_byte(b: Seq<u8>, c: u8) -> int
    decreases b.len(),
{
    if b.len() == 0 || b[0] == c {
        0
    } else {
        1 + first_byte(b.drop_first(), c)
    }
}

/// Position of the first line feed in `b`, or `b.len()` where it has none.
pub open spec fn first_newline(b: Seq<u8>) -> int {
    first_byte(b, NEWLINE)
}

/// A line without the carriage return that stood before its line feed.
pub open spec fn trim_cr(line: Seq<u8>) -> Seq<u8> {
    if line.len() > 0 && line.last() == CARRIAGE_RETURN {
        line.drop_last()
    } else {
        line
    }
}

/// The lines of a text: each ends at a line feed, which is dropped together
/// with a carriage return directly before it; what follows the last line
/// feed is a line of its own unless it is empty.
pub open spec fn spec_lines(b: Seq<u8>) -> Seq<Seq<u8>>
    decreases b.len(),
{
    if b.len() == 0 {
        Seq::empty()
    } else {
        let n = first_newline(b);
        if n < 0 || n >= b.len() {
            seq![b]
        } else {
            seq![trim_cr(b.subrange(0, n))] + spec_lines(b.subrange(n + 1, b.len() as int))
        }
    }
}

/// The first `c` is where a scan from the left meets one.
pub proof fn lemma_first_byte_is(b: Seq<u8>, c: u8, n: int)
    requires
        0 <= n <= b.len(),
        forall|j: int| 0 <= j < n ==> b[j] != c,
        n < b.len() ==> b[n] == c,
    ensures
        first_byte(b, c) == n,
    decreases b.len(),
{
    if b.len() == 0 || b[0] == c {
    } else {
        let rest = b.drop_first();
        assert forall|j: int| 0 <= j < n - 1 implies rest[j] != c by {
            assert(rest[j] == b[j + 1]);
        }
        lemma_first_byte_is(rest, c, n - 1);
    }
}

/// The position of the first `c` at or after `from`, or the length of `b`
/// where there is none.
pub fn find_byte(b: &[u8], from: usize, c: u8) -> (end: usize)
    requires
        from <= b@.len(),
    ensures
        from <= end <= b@.len(),
        end - from == first_byte(b@.skip(from as int), c),
        end < b@.len() ==> b@[end as int] == c,
{
    let mut end: usize = from;
    while end < b.len() && b[end] != c
        invariant
            from <= end <= b@.len(),
            forall|j: int| from <= j < end ==> b@[j] != c,
        decreases b@.len() - end,
    {
        end += 1;
    }
    proof {
        let rest = b@.skip(from as int);
        assert forall|j: int| 0 <= j < end - from implies rest[j] != c by {
            assert(rest[j] == b@[from + j]);
        }
        lemma_first_byte_is(rest, c, end - from);
    }
    end
}

/// The `n`-th of the pieces into which the byte `sep` splits `s`, counted
/// from 0, if there are so many.
pub open spec fn spec_piece(s: Seq<u8>, sep: u8, n: nat) -> Option<Seq<u8>>
    decreases n,
{
    let k = first_byte(s, sep);
    if n == 0 {
        Some(s.subrange(0, k))
    } else if k < 0 || k >= s.len() {
        None
    } else {
        spec_piece(s.skip(k + 1), sep, (n - 1) as nat)
    }
}

/// Where the `n`-th of the pieces into which `sep` splits `b` begins and
/// ends.
pub fn piece(b: &[u8], sep: u8, n: usize) -> (r: Option<(usize, usize)>)
    ensures
        match (spec_piece(b@, sep, n as nat), r) {
            (Some(p), Some((from, to))) => from <= to <= b@.len() && p == b@.subrange(
                from as int,
                to as int,
            ),
            (None, None) => true,
            _ => false,
        },
{
    let mut from: usize = 0;
    let mut left: usize = n;
    assert(b@.skip(0) =~= b@);
    loop
        invariant
            from <= b@.len(),
            left <= n,
            spec_piece(b@, sep, n as nat) == spec_piece(b@.skip(from as int), sep, left as nat),
        decreases left,
    {
        let ghost rest = b@.skip(from as int);
        let end = find_byte(b, from, sep);
        if left == 0 {
            assert(rest.subrange(0, end - from) =~= b@.subrange(from as int, end as int));
            return Some((from, end));
        }
        if end == b.len() {
            return None;
        }
        assert(rest.skip(end - from + 1) =~= b@.skip(end + 1));
        from = end + 1;
        left -= 1;
    }
}

/// What a vector of byte strings holds, as a sequence of sequences.
pub open spec fn views(v: Seq<Vec<u8>>) -> Seq<Seq<u8>> {
    Seq::new(v.len(), |i: int| v[i]@)
}

/// Copies `b[from..to]` into a vector of its own.
pub fn copy_range(b: &[u8], from: usize, to: usize) -> (r: Vec<u8>)
    requires
        from <= to <= b@.len(),
    ensures
        r@ == b@.subrange(from as int, to as int),
{
    let mut r: Vec<u8> = Vec::new();
    let mut i: usize = from;
    while i < to
        invariant
            from <= i <= to <= b@.len(),
            r@ == b@.subrange(from as int, i as int),
        decreases to - i,
    {
        r.push(b[i]);
        i += 1;
        assert(r@ =~= b@.subrange(from as int, i as int));
    }
    r
}

/// Splits a text into its lines.
pub fn lines(b: &[u8]) -> (r: Vec<Vec<u8>>)
    ensures
        views(r@) == spec_lines(b@),
{
    let mut out: Vec<Vec<u8>> = Vec::new();
    let mut pos: usize = 0;
    let len: usize = b.len();
    assert(b@.subrange(0, len as int) =~= b@);
    assert(views(out@) =~= Seq::<Seq<u8>>::empty());
    while pos < len
        invariant
            pos <= len == b@.len(),
            spec_lines(b@) == views(out@) + spec_lines(b@.subrange(pos as int, len as int)),
        decreases len - pos,
    {
        let ghost rest = b@.subrange(pos as int, len as int);
        let mut end: usize = pos;
        while end < len && b[end] != NEWLINE
            invariant
                pos <= end <= len == b@.len(),
                forall|j: int| pos <= j < end ==> b@[j] != NEWLINE,
            decreases len - end,
        {
            end += 1;
        }
        proof {
            lemma_first_byte_is(rest, NEWLINE, end - pos);
        }
        let ghost before = views(out@);
        if end == len {
            let line = copy_range(b, pos, end);
            out.push(line);
            proof {
                assert(b@.subrange(len as int, len as int) =~= Seq::<u8>::empty());
                assert(views(out@) =~= before + seq![rest]);
            }
            pos = len;
        } else {
            let stop: usize = if end > pos && b[end - 1] == CARRIAGE_RETURN {
                (end - 1) as usize
            } else {
                end
            };
            let line = copy_range(b, pos, stop);
            out.push(line);
            proof {
                let head = rest.subrange(0, end - pos);
                assert(head =~= b@.subrange(pos as int, end as int));
                assert(trim_cr(head) =~= b@.subrange(pos as int, stop as int));
                assert(rest.subrange(end - pos + 1, rest.len() as int) =~= b@.subrange(
                    end + 1,
                    len as int,
                ));
                assert(views(out@) =~= before + seq![trim_cr(head)]);
            }
            pos = end + 1;
        }
    }
    proof {
        assert(views(out@) + Seq::<Seq<u8>>::empty() =~= views(out@));
    }
    out
}

/// A decimal digit.
pub open spec fn is_digit(b: u8) -> bool {
    48 <= b <= 57
}

/// The number that a string of decimal digits writes.
pub open spec fn digits_value(s: Seq<u8>) -> nat
    decreases s.len(),
{
    if s.len() == 0 {
        0
    } else {
        digits_value(s.drop_last()) * 10 + (s.last() - 48) as nat
    }
}

/// How many digits `s` begins with.
pub open spec fn digit_run(s: Seq<u8>) -> nat
    decreases s.len(),
{
    if s.len() == 0 || !is_digit(s[0]) {
        0
    } else {
        1 + digit_run(s.drop_first())
    }
}

/// The digits that `s` begins with.
pub open spec fn leading_digits(s: Seq<u8>) -> Seq<u8> {
    s.subrange(0, digit_run(s) as int)
}

/// The run of leading digits holds digits only and ends before the first
/// byte that is none.
pub proof fn lemma_digit_run_bounds(s: Seq<u8>)
    ensures
        digit_run(s) <= s.len(),
        forall|i: int| 0 <= i < digit_run(s) ==> is_digit(s[i]),
        digit_run(s) < s.len() ==> !is_digit(s[digit_run(s) as int]),
    decreases s.len(),
{
    if s.len() == 0 || !is_digit(s[0]) {
    } else {
        let rest = s.drop_first();
        lemma_digit_run_bounds(rest);
        assert forall|i: int| 0 <= i < digit_run(s) implies is_digit(s[i]) by {
            if i > 0 {
                assert(s[i] == rest[i - 1]);
            }
        }
    }
}

/// More digits never write a smaller number.
pub proof fn lemma_digits_value_grows(s: Seq<u8>, i: int)
    requires
        0 <= i <= s.len(),
        forall|k: int| 0 <= k < s.len() ==> is_digit(s[k]),
    ensures
        digits_value(s.subrange(0, i)) <= digits_value(s),
    decreases s.len() - i,
{
    if i == s.len() {
        assert(s.subrange(0, i) =~= s);
    } else {
        let longer = s.subrange(0, i + 1);
        assert(longer.drop_last() =~= s.subrange(0, i));
        lemma_digits_value_grows(s, i + 1);
    }
}

/// Reads the decimal number that starts at `pos`: the longest run of digits
/// there, at least one, whose value is at most `max`. Gives the value and
/// the position after the run.
pub fn scan_digits(b: &[u8], pos: usize, max: u64) -> (r: Option<(u64, usize)>)
    requires
        pos <= b@.len(),
    ensures
        match r {
            Some((v, end)) => {
                &&& pos < end <= b@.len()
                &&& end - pos == digit_run(b@.skip(pos as int))
                &&& v == digits_value(leading_digits(b@.skip(pos as int)))
                &&& v <= max
            },
            None => {
                ||| digit_run(b@.skip(pos as int)) == 0
                ||| digits_value(leading_digits(b@.skip(pos as int))) > max
            },
        },
{
    let ghost rest = b@.skip(pos as int);
    let ghost run = digit_run(rest) as int;
    proof {
        lemma_digit_run_bounds(rest);
    }
    let mut i: usize = pos;
    let mut v: u64 = 0;
    assert(rest.subrange(0, 0) =~= Seq::<u8>::empty());
    while i < b.len() && 48 <= b[i] && b[i] <= 57
        invariant
            pos <= i <= b@.len(),
            rest == b@.skip(pos as int),
            run == digit_run(rest),
            i - pos <= run <= rest.len(),
            forall|k: int| 0 <= k < run ==> is_digit(rest[k]),
            run < rest.len() ==> !is_digit(rest[run]),
            v == digits_value(rest.subrange(0, i - pos)),
            v <= max,
        decreases b@.len() - i,
    {
        let d: u64 = (b[i] - 48) as u64;
        proof {
            assert(rest[i - pos] == b@[i as int]);
            if i - pos == run {
                assert(!is_digit(rest[run]));
            }
            let longer = rest.subrange(0, i - pos + 1);
            assert(longer.drop_last() =~= rest.subrange(0, i - pos));
            assert(digits_value(longer) == v * 10 + d);
            let whole = leading_digits(rest);
            assert(whole.subrange(0, i - pos + 1) =~= longer);
            lemma_digits_value_grows(whole, i - pos + 1);
        }
        if d > max {
            return None;
        }
        if v > (max - d) / 10 {
            assert(v * 10 + d > max) by (nonlinear_arith)
                requires
                    v > (max - d) / 10,
                    0 <= d <= max,
            ;
            return None;
        }
        assert(v * 10 + d <= max) by (nonlinear_arith)
            requires
                v <= (max - d) / 10,
                0 <= d <= max,
        ;
        v = v * 10 + d;
        i += 1;
    }
    proof {
        if i < b@.len() {
            assert(rest[i - pos] == b@[i as int]);
        }
        assert(i - pos == run);
    }
    if i == pos {
        None
    } else {
        Some((v, i))
    }
}

/// The whole number that `s` begins with: an optional sign and the longest
/// run of digits after it, at least one, with a value between `min` and
/// `max`; and how many bytes it takes.
pub open spec fn spec_signed_at(s: Seq<u8>, min: int, max: int) -> Option<(int, nat)> {
    let signed = s.len() > 0 && (s[0] == 45 || s[0] == 43);
    let skip: nat = if signed {
        1
    } else {
        0
    };
    let run = digit_run(s.skip(skip as int));
    let magnitude = digits_value(leading_digits(s.skip(skip as int)));
    let v: int = if signed && s[0] == 45 {
        -magnitude
    } else {
        magnitude as int
    };
    if run == 0 || v < min || v > max {
        None
    } else {
        Some((v, skip + run))
    }
}

/// Reads the whole number that starts at `pos`, with its sign if it has
/// one. Gives the value and the position after it.
pub fn scan_signed(b: &[u8], pos: usize, min: i64, max: i64) -> (r: Option<(i64, usize)>)
    requires
        pos <= b@.len(),
        min <= 0 <= max,
    ensures
        match (spec_signed_at(b@.skip(pos as int), min as int, max as int), r) {
            (Some((v, n)), Some((w, at))) => w == v && at == pos + n && pos < at <= b@.len(),
            (None, None) => true,
            _ => false,
        },
{
    let ghost s = b@.skip(pos as int);
    let negative = pos < b.len() && b[pos] == 45;
    let signed = pos < b.len() && (b[pos] == 45 || b[pos] == 43);
    let from: usize = if signed {
        pos + 1
    } else {
        pos
    };
    proof {
        if pos < b@.len() {
            assert(s[0] == b@[pos as int]);
        }
        assert(s.skip(from - pos) =~= b@.skip(from as int));
    }
    let limit: u64 = if negative {
        if min == i64::MIN {
            9223372036854775808u64
        } else {
            (-min) as u64
        }
    } else {
        max as u64
    };
    match scan_digits(b, from, limit) {
        Some((m, end)) => {
            let v: i64 = if negative {
                if m == 9223372036854775808u64 {
                    i64::MIN
                } else {
                    -(m as i64)
                }
            } else {
                m as i64
            };
            Some((v, end))
        },
        None => None,
    }
}

/// The number that the whole of `s` writes without a minus sign: digits,
/// at least one, after an optional plus sign, with a value of at most `max`.
pub open spec fn spec_unsigned(s: Seq<u8>, max: nat) -> Option<nat> {
    let skip: nat = if s.len() > 0 && s[0] == 43 {
        1
    } else {
        0
    };
    let run = digit_run(s.skip(skip as int));
    let v = digits_value(s.skip(skip as int));
    if run == 0 || skip + run != s.len() || v > max {
        None
    } else {
        Some(v)
    }
}

/// Reads `b` as one number without a minus sign.
pub fn parse_unsigned(b: &[u8], max: u64) -> (r: Option<u64>)
    ensures
        match spec_unsigned(b@, max as nat) {
            Some(v) => r == Some(v as u64),
            None => r is None,
        },
{
    let from: usize = if b.len() > 0 && b[0] == 43 {
        1
    } else {
        0
    };
    let ghost rest = b@.skip(from as int);
    proof {
        lemma_digit_run_bounds(rest);
    }
    match scan_digits(b, from, max) {
        Some((v, end)) => {
            if end == b.len() {
                assert(leading_digits(rest) =~= rest);
                Some(v)
            } else {
                None
            }
        },
        None => {
            proof {
                if digit_run(rest) != 0 && from + digit_run(rest) == b@.len() {
                    assert(leading_digits(rest) =~= rest);
                }
            }
            None
        },
    }
}

/// The whole number that the whole of `s` writes, between `min` and `max`.
pub open spec fn spec_signed(s: Seq<u8>, min: int, max: int) -> Option<int> {
    match spec_signed_at(s, min, max) {
        Some((v, n)) => if n == s.len() {
            Some(v)
        } else {
            None
        },
        None => None,
    }
}

/// Reads `b` as one whole number.
pub fn parse_signed(b: &[u8], min: i64, max: i64) -> (r: Option<i64>)
    requires
        min <= 0 <= max,
    ensures
        match spec_signed(b@, min as int, max as int) {
            Some(v) => r == Some(v as i64),
            None => r is None,
        },
{
    assert(b@.skip(0) =~= b@);
    match scan_signed(b, 0, min, max) {
        Some((v, end)) => {
            if end == b.len() {
                Some(v)
            } else {
                None
            }
        },
        None => None,
    }
}

/// What `f` reads from each of `rows`, if it can read them all.
pub open spec fn spec_each<T>(rows: Seq<Seq<u8>>, f: spec_fn(Seq<u8>) -> Option<T>) -> Option<
    Seq<T>,
> {
    if forall|i: int| 0 <= i < rows.len() ==> (#[trigger] f(rows[i])) is Some {
        Some(Seq::new(rows.len(), |i: int| f(rows[i])->0))
    } else {
        None
    }
}

/// `lit` stands in `s` at `pos`.
pub open spec fn has_at(s: Seq<u8>, pos: int, lit: Seq<u8>) -> bool {
    0 <= pos && pos + lit.len() <= s.len() && s.subrange(pos, pos + lit.len()) == lit
}

/// Whether `lit` stands in `b` at `pos`.
pub fn starts_with(b: &[u8], pos: usize, lit: &[u8]) -> (r: bool)
    ensures
        r == has_at(b@, pos as int, lit@),
{
    if pos > b.len() || lit.len() > b.len() - pos {
        return false;
    }
    let mut i: usize = 0;
    while i < lit.len()
        invariant
            i <= lit@.len(),
            pos + lit@.len() <= b.len(),
            b.len() == b@.len(),
            forall|k: int| 0 <= k < i ==> b@[pos + k] == lit@[k],
        decreases lit@.len() - i,
    {
        if b[pos + i] != lit[i] {
            assert(b@.subrange(pos as int, pos + lit@.len())[i as int] != lit@[i as int]);
            return false;
        }
        i += 1;
    }
    assert(b@.subrange(pos as int, pos + lit@.len()) =~= lit@);
    true
}

/// The position after `lit` where `lit` stands in `s` at `pos`.
pub open spec fn spec_eat(s: Seq<u8>, pos: int, lit: Seq<u8>) -> Option<int> {
    if has_at(s, pos, lit) {
        Some(pos + lit.len())
    } else {
        None
    }
}

/// Steps over `lit` where it stands in `b` at `pos`.
pub fn eat(b: &[u8], pos: usize, lit: &str) -> (r: Option<usize>)
    ensures
        match (spec_eat(b@, pos as int, lit.spec_bytes()), r) {
            (Some(end), Some(at)) => at == end && pos <= end <= b@.len(),
            (None, None) => true,
            _ => false,
        },
{
    let l = lit.as_bytes();
    if starts_with(b, pos, l) {
        assert(b.len() == b@.len());
        Some(pos + l.len())
    } else {
        None
    }
}

/// A space or a tab.
pub open spec fn is_blank(b: u8) -> bool {
    b == 32 || b == 9
}

/// The position of the first byte at or after `pos` that is no blank.
pub open spec fn spec_blanks_end(s: Seq<u8>, pos: int) -> int
    decreases s.len() - pos,
{
    if 0 <= pos < s.len() && is_blank(s[pos]) {
        spec_blanks_end(s, pos + 1)
    } else {
        pos
    }
}

/// The position after the blanks that stand in `s` at `pos`, at least one.
pub open spec fn spec_blanks(s: Seq<u8>, pos: int) -> Option<int> {
    if spec_blanks_end(s, pos) > pos {
        Some(spec_blanks_end(s, pos))
    } else {
        None
    }
}

/// Steps over the blanks that stand in `b` at `pos`, at least one.
pub fn blanks(b: &[u8], pos: usize) -> (r: Option<usize>)
    requires
        pos <= b@.len(),
    ensures
        match (spec_blanks(b@, pos as int), r) {
            (Some(end), Some(at)) => at == end && pos < end <= b@.len(),
            (None, None) => true,
            _ => false,
        },
{
    let mut i: usize = pos;
    while i < b.len() && (b[i] == 32 || b[i] == 9)
        invariant
            pos <= i <= b@.len(),
            spec_blanks_end(b@, pos as int) == spec_blanks_end(b@, i as int),
        decreases b@.len() - i,
    {
        i += 1;
    }
    if i > pos {
        Some(i)
    } else {
        None
    }
}

/// The position after the line feed that stands in `s` at `pos`, or `pos`
/// where none stands there.
pub open spec fn spec_opt_newline(s: Seq<u8>, pos: int) -> int {
    if 0 <= pos < s.len() && s[pos] == NEWLINE {
        pos + 1
    } else {
        pos
    }
}

/// Steps over one line feed if one stands in `b` at `pos`.
pub fn opt_newline(b: &[u8], pos: usize) -> (r: usize)
    requires
        pos <= b@.len(),
    ensures
        r == spec_opt_newline(b@, pos as int),
        pos <= r <= b@.len(),
{
    if pos < b.len() && b[pos] == NEWLINE {
        pos + 1
    } else {
        pos
    }
}

/// The position of the first byte at or after `pos` that is no line feed.
pub open spec fn spec_newlines_end(s: Seq<u8>, pos: int) -> int
    decreases s.len() - pos,
{
    if 0 <= pos < s.len() && s[pos] == NEWLINE {
        spec_newlines_end(s, pos + 1)
    } else {
        pos
    }
}

/// The run of line feeds ends within the text.
pub proof fn lemma_newlines_end_bounds(s: Seq<u8>, pos: int)
    requires
        0 <= pos <= s.len(),
    ensures
        pos <= spec_newlines_end(s, pos) <= s.len(),
    decreases s.len() - pos,
{
    if pos < s.len() && s[pos] == NEWLINE {
        lemma_newlines_end_bounds(s, pos + 1);
    }
}

/// Steps over the line feeds that stand in `b` at `pos`.
pub fn newlines(b: &[u8], pos: usize) -> (r: usize)
    requires
        pos <= b@.len(),
    ensures
        r == spec_newlines_end(b@, pos as int),
        pos <= r <= b@.len(),
{
    let mut i: usize = pos;
    while i < b.len() && b[i] == NEWLINE
        invariant
            pos <= i <= b@.len(),
            spec_newlines_end(b@, pos as int) == spec_newlines_end(b@, i as int),
        decreases b@.len() - i,
    {
        i += 1;
    }
    i
}

/// The whole number that stands in `s` at `pos`, with its sign if it has
/// one, and the position after it.
pub open spec fn spec_i64_from(s: Seq<u8>, pos: int) -> Option<(i64, int)> {
    if 0 <= pos <= s.len() {
        match spec_signed_at(s.skip(pos), i64::MIN as int, i64::MAX as int) {
            Some((v, n)) => Some((v as i64, pos + n)),
            None => None,
        }
    } else {
        None
    }
}

/// Reads the whole number that stands in `b` at `pos`.
pub fn i64_from(b: &[u8], pos: usize) -> (r: Option<(i64, usize)>)
    requires
        pos <= b@.len(),
    ensures
        match (spec_i64_from(b@, pos as int), r) {
            (Some((v, end)), Some((w, at))) => w == v && at == end && pos < end <= b@.len(),
            (None, None) => true,
            _ => false,
        },
{
    let r = scan_signed(b, pos, i64::MIN, i64::MAX);
    proof {
        lemma_digit_run_bounds(b@.skip(pos as int));
    }
    r
}

/// The number without sign that stands in `s` at `pos`, at most `max`, and
/// the position after it.
pub open spec fn spec_u64_from(s: Seq<u8>, pos: int, max: nat) -> Option<(u64, int)> {
    if 0 <= pos <= s.len() {
        let run = digit_run(s.skip(pos));
        let v = digits_value(leading_digits(s.skip(pos)));
        if run == 0 || v > max {
            None
        } else {
            Some((v as u64, pos + run))
        }
    } else {
        None
    }
}

/// Reads the number without sign that stands in `b` at `pos`.
pub fn u64_from(b: &[u8], pos: usize, max: u64) -> (r: Option<(u64, usize)>)
    requires
        pos <= b@.len(),
    ensures
        match (spec_u64_from(b@, pos as int, max as nat), r) {
            (Some((v, end)), Some((w, at))) => w == v && at == end && pos < end <= b@.len(),
            (None, None) => true,
            _ => false,
        },
{
    scan_digits(b, pos, max)
}

/// The first position at or after `from` where `sep` stands in `s`, or the
/// length of `s` where it stands nowhere.
pub open spec fn spec_find(s: Seq<u8>, sep: Seq<u8>, from: int) -> int
    decreases s.len() - from,
{
    if from < 0 || from >= s.len() {
        s.len() as int
    } else if has_at(s, from, sep) {
        from
    } else {
        spec_find(s, sep, from + 1)
    }
}

/// Finds the first position at or after `from` where `sep` stands in `b`.
pub fn find(b: &[u8], sep: &[u8], from: usize) -> (r: usize)
    requires
        from <= b@.len(),
    ensures
        r == spec_find(b@, sep@, from as int),
        from <= r <= b@.len(),
        r < b@.len() ==> has_at(b@, r as int, sep@),
{
    let mut i: usize = from;
    while i < b.len()
        invariant
            from <= i <= b@.len(),
            spec_find(b@, sep@, from as int) == spec_find(b@, sep@, i as int),
        decreases b@.len() - i,
    {
        if starts_with(b, i, sep) {
            return i;
        }
        i += 1;
    }
    i
}

/// The pieces into which `sep` splits `s` from `from` on: each ends where
/// `sep` stands next, and the last at the end of `s`.
pub open spec fn spec_split(s: Seq<u8>, sep: Seq<u8>, from: int) -> Seq<Seq<u8>>
    decreases s.len() - from,
{
    let k = spec_find(s, sep, from);
    if sep.len() == 0 || from < 0 || k < from || k + sep.len() > s.len() {
        seq![s.subrange(from, s.len() as int)]
    } else {
        seq![s.subrange(from, k)] + spec_split(s, sep, k + sep.len())
    }
}

/// Splits `b` at every `sep`.
pub fn split(b: &[u8], sep: &[u8]) -> (r: Vec<Vec<u8>>)
    requires
        sep@.len() > 0,
    ensures
        views(r@) == spec_split(b@, sep@, 0),
        r@.len() > 0,
{
    let mut out: Vec<Vec<u8>> = Vec::new();
    let mut from: usize = 0;
    assert(views(out@) =~= Seq::<Seq<u8>>::empty());
    loop
        invariant_except_break
            spec_split(b@, sep@, 0) == views(out@) + spec_split(b@, sep@, from as int),
        invariant
            from <= b@.len(),
            sep@.len() > 0,
        ensures
            views(out@) == spec_split(b@, sep@, 0),
            out@.len() > 0,
        decreases b@.len() - from,
    {
        let ghost before = views(out@);
        let k = find(b, sep, from);
        if k >= b.len() {
            let last = copy_range(b, from, b.len());
            out.push(last);
            assert(views(out@) =~= before + seq![b@.subrange(from as int, b@.len() as int)]);
            break ;
        }
        let part = copy_range(b, from, k);
        out.push(part);
        assert(views(out@) =~= before + seq![b@.subrange(from as int, k as int)]);
        assert(views(out@) + spec_split(b@, sep@, k + sep@.len()) =~= before + spec_split(
            b@,
            sep@,
            from as int,
        ));
        assert(b.len() == b@.len());
        from = k + sep.len();
    }
    out
}

} // verus!
