//! Ranges of seat numbers, given as `a-b`, and pairs of them, given as
//! `a-b,c-d`.

use vstd::prelude::*;
use vstd::string::StringSliceAdditionalSpecFns;
use crate::text::{copy_range, parse_unsigned, piece, spec_piece, spec_unsigned};

verus! {

/// The seats from the first number to the second, both included.
#[derive(Copy, Clone, Debug, PartialEq, Eq, Structural)]
pub struct Range(pub usize, pub usize);

/// The number that the `n`-th of the pieces into which `sep` splits `s`
/// writes.
pub open spec fn spec_number_piece(s: Seq<u8>, sep: u8, n: nat) -> Option<nat> {
    match spec_piece(s, sep, n) {
        Some(p) => spec_unsigned(p, usize::MAX as nat),
        None => None,
    }
}

/// Reads the number that the `n`-th of the pieces into which `sep` splits
/// `b` writes.
pub fn number_piece(b: &[u8], sep: u8, n: usize) -> (r: Option<usize>)
    ensures
        match spec_number_piece(b@, sep, n as nat) {
            Some(v) => r == Some(v as usize),
            None => r is None,
        },
{
    match piece(b, sep, n) {
        Some((from, to)) => {
            let p = copy_range(b, from, to);
            match parse_unsigned(p.as_slice(), usize::MAX as u64) {
                Some(v) => Some(v as usize),
                None => None,
            }
        },
        None => None,
    }
}

impl Range {
    /// Seat `n` belongs to the range.
    pub open spec fn holds(&self, n: int) -> bool {
        self.0 <= n <= self.1
    }

    /// The range that `s` writes: two numbers with a hyphen between them.
    /// What follows a second hyphen is not read.
    pub open spec fn spec_parse(s: Seq<u8>) -> Option<Range> {
        match (spec_number_piece(s, 45, 0), spec_number_piece(s, 45, 1)) {
            (Some(a), Some(b)) => Some(Range(a as usize, b as usize)),
            _ => None,
        }
    }

    /// Reads a range from bytes.
    pub fn from_bytes(b: &[u8]) -> (r: Option<Range>)
        ensures
            r == Range::spec_parse(b@),
    {
        match number_piece(b, 45, 0) {
            Some(first) => match number_piece(b, 45, 1) {
                Some(second) => Some(Range(first, second)),
                None => None,
            },
            None => None,
        }
    }

    /// Reads a range such as `2-4`.
    pub fn parse(s: &str) -> (r: Option<Range>)
        ensures
            r == Range::spec_parse(s.spec_bytes()),
    {
        Range::from_bytes(s.as_bytes())
    }

    /// Whether every seat of `other` is a seat of `self`.
    pub fn contains(&self, other: &Self) -> (r: bool)
        ensures
            r == (other.0 >= self.0 && other.1 <= self.1),
            other.0 <= other.1 ==> r == forall|n: int|
                #[trigger] other.holds(n) ==> self.holds(n),
    {
        proof {
            if other.0 <= other.1 {
                if forall|n: int| #[trigger] other.holds(n) ==> self.holds(n) {
                    assert(other.holds(other.0 as int));
                    assert(other.holds(other.1 as int));
                }
            }
        }
        (other.0 >= self.0) && (other.1 <= self.1)
    }

    /// Whether the two ranges share a seat. It is judged from the ends:
    /// `self` begins at or before the end of `other`, and ends at or after
    /// its beginning.
    pub fn overlaps(&self, other: &Self) -> (r: bool)
        ensures
            r == (((self.0 <= other.0) && (self.1 >= other.0)) || ((self.0 <= other.1) && (self.1
                >= other.0))),
            other.0 <= other.1 ==> r == (self.0 <= other.1 && self.1 >= other.0),
            self.0 <= self.1 && other.0 <= other.1 ==> r == exists|n: int|
                #[trigger] self.holds(n) && other.holds(n),
    {
        proof {
            if self.0 <= self.1 && other.0 <= other.1 {
                if self.0 <= other.1 && self.1 >= other.0 {
                    let n: int = if self.0 >= other.0 {
                        self.0 as int
                    } else {
                        other.0 as int
                    };
                    assert(self.holds(n) && other.holds(n));
                }
            }
        }
        ((self.0 <= other.0) && (self.1 >= other.0)) || ((self.0 <= other.1) && (self.1
            >= other.0))
    }
}

/// The ranges of two elves.
#[derive(Copy, Clone, Debug, PartialEq, Eq, Structural)]
pub struct RangePair(pub Range, pub Range);

impl RangePair {
    /// The range that the `n`-th of the pieces between commas writes.
    pub open spec fn spec_range_piece(s: Seq<u8>, n: nat) -> Option<Range> {
        match spec_piece(s, 44, n) {
            Some(p) => Range::spec_parse(p),
            None => None,
        }
    }

    /// The pair that `s` writes: two ranges with a comma between them. What
    /// follows a second comma is not read.
    pub open spec fn spec_parse(s: Seq<u8>) -> Option<RangePair> {
        match (RangePair::spec_range_piece(s, 0), RangePair::spec_range_piece(s, 1)) {
            (Some(a), Some(b)) => Some(RangePair(a, b)),
            _ => None,
        }
    }

    fn range_piece(b: &[u8], n: usize) -> (r: Option<Range>)
        ensures
            r == RangePair::spec_range_piece(b@, n as nat),
    {
        match piece(b, 44, n) {
            Some((from, to)) => {
                let p = copy_range(b, from, to);
                Range::from_bytes(p.as_slice())
            },
            None => None,
        }
    }

    /// Reads a pair from bytes.
    pub fn from_bytes(b: &[u8]) -> (r: Option<RangePair>)
        ensures
            r == RangePair::spec_parse(b@),
    {
        match RangePair::range_piece(b, 0) {
            Some(first) => match RangePair::range_piece(b, 1) {
                Some(second) => Some(RangePair(first, second)),
                None => None,
            },
            None => None,
        }
    }

    /// Reads a pair such as `2-4,6-8`.
    pub fn parse(line: &str) -> (r: Option<RangePair>)
        ensures
            r == RangePair::spec_parse(line.spec_bytes()),
    {
        RangePair::from_bytes(line.as_bytes())
    }

    /// Whether one of the two ranges holds every seat of the other.
    pub fn has_contained(&self) -> (r: bool)
        ensures
            r == (((self.1).0 >= (self.0).0 && (self.1).1 <= (self.0).1) || ((self.0).0 >= (self.1).0
                && (self.0).1 <= (self.1).1)),
    {
        self.0.contains(&self.1) || self.1.contains(&self.0)
    }

    /// Whether the two ranges share a seat.
    pub fn overlaps(&self) -> (r: bool)
        ensures
            (self.1).0 <= (self.1).1 ==> r == ((self.0).0 <= (self.1).1 && (self.0).1 >= (self.1).0),
            (self.0).0 <= (self.0).1 && (self.1).0 <= (self.1).1 ==> r == exists|n: int|
                #[trigger] self.0.holds(n) && self.1.holds(n),
    {
        self.0.overlaps(&self.1)
    }
}

} // verus!
