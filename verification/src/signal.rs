//! Markers in a stream of bytes: the first run of a given length whose
//! bytes all differ.

use itertools::Itertools;
use vstd::prelude::*;
use vstd::string::StringSliceAdditionalSpecFns;

verus! {

/// The `n` bytes of `s` from `i` on all differ.
pub open spec fn distinct_at(s: Seq<u8>, i: int, n: int) -> bool {
    0 <= i && i + n <= s.len() && s.subrange(i, i + n).no_duplicates()
}

/// The first run of `n` differing bytes in `s` starts at `i`.
pub open spec fn first_distinct_at(s: Seq<u8>, i: int, n: int) -> bool {
    distinct_at(s, i, n) && forall|j: int| 0 <= j < i ==> !#[trigger] distinct_at(s, j, n)
}

/// Whether the bytes of `w` all differ.
pub fn all_distinct(w: &[u8]) -> (r: bool)
    ensures
        r == w@.no_duplicates(),
{
    let mut i: usize = 0;
    while i < w.len()
        invariant
            i <= w@.len(),
            forall|a: int, b: int| 0 <= a < i && a < b < w@.len() ==> w@[a] != w@[b],
        decreases w@.len() - i,
    {
        let mut j: usize = i + 1;
        while j < w.len()
            invariant
                i < j <= w@.len(),
                forall|b: int| i < b < j ==> w@[i as int] != w@[b],
            decreases w@.len() - j,
        {
            if w[i] == w[j] {
                return false;
            }
            j += 1;
        }
        i += 1;
    }
    assert forall|a: int, b: int| 0 <= a < w@.len() && 0 <= b < w@.len() && a != b implies w@[a]
        != w@[b] by {
        if a < b {
        } else {
            assert(w@[b] != w@[a]);
        }
    }
    true
}

/// The first position that `positions` of itertools yields over the
/// windows of `n` bytes of `b` for the predicate `all_distinct`: by the
/// source of itertools, the index of the first window that meets the
/// predicate, or nothing where none does. The windows are those of the
/// standard library: the `i`-th holds the bytes from `i` to `i + n`.
#[verifier::external_body]
fn first_distinct_window(b: &[u8], n: usize) -> (r: Option<usize>)
    requires
        n > 0,
    ensures
        match r {
            Some(i) => first_distinct_at(b@, i as int, n as int),
            None => forall|j: int| !#[trigger] distinct_at(b@, j, n as int),
        },
{
    b.windows(n).positions(|w| all_distinct(w)).next()
}

/// The number of bytes up to the end of the first run of `n` differing
/// bytes, or nothing where there is no such run or `n` is 0.
pub fn marker_end(b: &[u8], n: usize) -> (r: Option<usize>)
    ensures
        match r {
            Some(end) => n > 0 && first_distinct_at(b@, end - n, n as int),
            None => n == 0 || forall|j: int| !#[trigger] distinct_at(b@, j, n as int),
        },
{
    if n == 0 {
        return None;
    }
    match first_distinct_window(b, n) {
        Some(i) => {
            assert(b.len() == b@.len());
            Some(i + n)
        },
        None => None,
    }
}

/// The number of bytes up to the end of the first run of `n` differing
/// bytes.
pub fn find_n_unique(s: &str, n: usize) -> (r: usize)
    requires
        n > 0,
        exists|i: int| distinct_at(s.spec_bytes(), i, n as int),
    ensures
        first_distinct_at(s.spec_bytes(), r - n, n as int),
{
    match marker_end(s.as_bytes(), n) {
        Some(end) => end,
        None => {
            proof {
                let i = choose|i: int| distinct_at(s.spec_bytes(), i, n as int);
                assert(!distinct_at(s.spec_bytes(), i, n as int));
            }
            0
        },
    }
}

/// The number of bytes up to the end of the first run of 4 differing
/// bytes, the start-of-packet marker.
pub fn find_header(s: &str) -> (r: usize)
    requires
        exists|i: int| distinct_at(s.spec_bytes(), i, 4),
    ensures
        first_distinct_at(s.spec_bytes(), r - 4, 4),
{
    find_n_unique(s, 4)
}

/// The number of bytes up to the end of the first run of 14 differing
/// bytes, the start-of-message marker.
pub fn find_message(s: &str) -> (r: usize)
    requires
        exists|i: int| distinct_at(s.spec_bytes(), i, 14),
    ensures
        first_distinct_at(s.spec_bytes(), r - 14, 14),
{
    find_n_unique(s, 14)
}

} // verus!
