//! Searching a byte buffer for the first occurrence of one byte.

use vstd::prelude::*;
use vstd::slice::slice_subrange;

verus! {

/// The index of the first `byte` of `s` within `[from, to)`, or `to` where the
/// range holds none.
pub open spec fn first_at(s: Seq<u8>, byte: u8, from: int, to: int) -> int
    decreases to - from,
{
    if from >= to {
        to
    } else if s[from] == byte {
        from
    } else {
        first_at(s, byte, from + 1, to)
    }
}

/// `first_at` lies in the range, points at `byte` unless it is `to`, and no
/// earlier index of the range holds `byte`.
pub proof fn first_at_bounds(s: Seq<u8>, byte: u8, from: int, to: int)
    requires
        from <= to,
    ensures
        from <= first_at(s, byte, from, to) <= to,
        first_at(s, byte, from, to) < to ==> s[first_at(s, byte, from, to)] == byte,
        forall|j: int| from <= j < first_at(s, byte, from, to) ==> s[j] != byte,
    decreases to - from,
{
    if from < to && s[from] != byte {
        first_at_bounds(s, byte, from + 1, to);
    }
}

/// No other index lies in the range, points at `byte` unless it is `to`, and
/// has no `byte` before it.
pub proof fn first_at_unique(s: Seq<u8>, byte: u8, from: int, to: int, at: int)
    requires
        from <= at <= to,
        at < to ==> s[at] == byte,
        forall|j: int| from <= j < at ==> s[j] != byte,
    ensures
        first_at(s, byte, from, to) == at,
    decreases to - from,
{
    if from < at {
        first_at_unique(s, byte, from + 1, to, at);
    }
}

/// Searching a window of `s` by itself finds the byte where searching `s`
/// within the window finds it.
pub proof fn first_at_shift(s: Seq<u8>, byte: u8, from: int, to: int)
    requires
        0 <= from <= to <= s.len(),
    ensures
        first_at(s.subrange(from, to), byte, 0, to - from) == first_at(s, byte, from, to) - from,
{
    first_at_bounds(s, byte, from, to);
    let at = first_at(s, byte, from, to);
    first_at_unique(s.subrange(from, to), byte, 0, to - from, at - from);
}

/// `memchr::memchr` returns the index of the first byte of `haystack` equal to
/// `needle`, an index below the length, and `None` where no byte is equal.
pub assume_specification[ memchr::memchr ](needle: u8, haystack: &[u8]) -> (found: Option<usize>)
    ensures
        match found {
            Some(i) => i < haystack@.len() && haystack@[i as int] == needle
                && forall|j: int| 0 <= j < i ==> haystack@[j] != needle,
            None => forall|j: int| 0 <= j < haystack@.len() ==> haystack@[j] != needle,
        },
;

/// Finds the first `byte` of `buf` within `[from, to)`.
pub fn find_byte(buf: &[u8], byte: u8, from: usize, to: usize) -> (at: usize)
    requires
        from <= to <= buf@.len(),
    ensures
        at == first_at(buf@, byte, from as int, to as int),
        from <= at <= to,
{
    let window = slice_subrange(buf, from, to);
    let at: usize = match memchr::memchr(byte, window) {
        Some(i) => from + i,
        None => to,
    };
    proof {
        assert forall|j: int| from <= j < at implies buf@[j] != byte by {
            assert(window@[j - from] == buf@[j]);
        }
        first_at_unique(buf@, byte, from as int, to as int, at as int);
    }
    at
}

} // verus!
