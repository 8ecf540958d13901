//! Reading one range of the buffer record by record.
//!
//! A record is a line `station;reading`. Lines end at a newline or at the end
//! of the range, empty lines are passed over, and a line without a separator
//! is malformed. What the text of a reading means is left to the caller.

use vstd::prelude::*;
use vstd::slice::slice_subrange;
use crate::scan::{find_byte, first_at, first_at_bounds, first_at_shift, first_at_unique};

verus! {

/// The byte that ends a line.
pub const NEWLINE: u8 = 10;

/// The byte between a station's name and its reading, `;`.
pub const SEPARATOR: u8 = 59;

/// `[pos, end)` is a range of `buf` that holds at least one byte.
pub open spec fn in_range(buf: Seq<u8>, pos: int, end: int) -> bool {
    0 <= pos < end <= buf.len()
}

/// The span `(from, to)` of the first line of `[pos, end)` that is not empty,
/// without its newline.
pub open spec fn first_line(buf: Seq<u8>, pos: int, end: int) -> Option<(int, int)>
    decreases end - pos,
{
    if !in_range(buf, pos, end) {
        None
    } else if buf[pos] == NEWLINE {
        first_line(buf, pos + 1, end)
    } else {
        Some((pos, first_at(buf, NEWLINE, pos, end)))
    }
}

/// Where reading goes on behind a line that stopped at `to`: behind its
/// newline, or at the end of the range.
pub open spec fn behind(to: int, end: int) -> int {
    if to < end {
        to + 1
    } else {
        end
    }
}

/// The lines of `[pos, end)` that are not empty, in order.
pub open spec fn lines(buf: Seq<u8>, pos: int, end: int) -> Seq<Seq<u8>>
    decreases end - pos,
    via lines_decreases
{
    match first_line(buf, pos, end) {
        None => Seq::empty(),
        Some((from, to)) => seq![buf.subrange(from, to)] + lines(buf, behind(to, end), end),
    }
}

#[via_fn]
proof fn lines_decreases(buf: Seq<u8>, pos: int, end: int) {
    if let Some((from, to)) = first_line(buf, pos, end) {
        first_line_bounds(buf, pos, end);
    }
}

/// The first line lies in the range behind `pos`, holds at least one byte and
/// no newline, stops at a newline or at the end of the range, and only
/// newlines come before it.
pub proof fn first_line_bounds(buf: Seq<u8>, pos: int, end: int)
    ensures
        match first_line(buf, pos, end) {
            Some((from, to)) => {
                &&& in_range(buf, pos, end)
                &&& pos <= from < to <= end
                &&& to == first_at(buf, NEWLINE, from, end)
                &&& to < end ==> buf[to] == NEWLINE
                &&& forall|i: int| pos <= i < from ==> buf[i] == NEWLINE
                &&& forall|i: int| from <= i < to ==> buf[i] != NEWLINE
            },
            None => in_range(buf, pos, end) ==> forall|i: int| pos <= i < end ==> buf[i] == NEWLINE,
        },
    decreases end - pos,
{
    if in_range(buf, pos, end) {
        if buf[pos] == NEWLINE {
            first_line_bounds(buf, pos + 1, end);
        } else {
            first_at_bounds(buf, NEWLINE, pos, end);
        }
    }
}

/// A range cut at a newline holds the lines of the part before the newline,
/// then those of the part behind it: no line is lost, doubled or broken.
pub proof fn lines_split(buf: Seq<u8>, pos: int, at: int, end: int)
    requires
        0 <= pos <= at < end <= buf.len(),
        buf[at] == NEWLINE,
    ensures
        lines(buf, pos, end) == lines(buf, pos, at) + lines(buf, at + 1, end),
    decreases at - pos,
{
    if pos < at && buf[pos] == NEWLINE {
        lines_split(buf, pos + 1, at, end);
    } else if pos < at {
        // The first line stops at or before `at`, in the whole range as in
        // the part before `at`.
        first_at_bounds(buf, NEWLINE, pos, end);
        let to = first_at(buf, NEWLINE, pos, end);
        first_at_unique(buf, NEWLINE, pos, at, to);
        if to < at {
            lines_split(buf, to + 1, at, end);
        } else {
            assert(lines(buf, at, at) =~= Seq::<Seq<u8>>::empty());
        }
    }
}

/// A range holds at most as many lines as bytes.
pub proof fn lines_count(buf: Seq<u8>, pos: int, end: int)
    ensures
        in_range(buf, pos, end) ==> lines(buf, pos, end).len() <= end - pos,
        !in_range(buf, pos, end) ==> lines(buf, pos, end).len() == 0,
    decreases end - pos,
{
    first_line_bounds(buf, pos, end);
    match first_line(buf, pos, end) {
        None => {},
        Some((from, to)) => {
            lines_count(buf, behind(to, end), end);
        },
    }
}

/// A line cut at its first separator into the station's name and the text of
/// the reading; `None` where the line holds no separator.
pub open spec fn split_record(line: Seq<u8>) -> Option<(Seq<u8>, Seq<u8>)> {
    let at = first_at(line, SEPARATOR, 0, line.len() as int);
    if at < line.len() {
        Some((line.subrange(0, at), line.subrange(at + 1, line.len() as int)))
    } else {
        None
    }
}

/// What reading a range finds first.
pub enum Step {
    /// A record, and the place behind it.
    Record { key: Seq<u8>, value: Seq<u8>, next: int },
    /// A line without a separator.
    Malformed { line: Seq<u8> },
    /// Nothing but empty lines.
    Done,
}

/// What reading `[pos, end)` finds first: its first line that is not empty, cut
/// at the separator. A range that does not lie in the buffer holds nothing.
pub open spec fn step(buf: Seq<u8>, pos: int, end: int) -> Step {
    match first_line(buf, pos, end) {
        None => Step::Done,
        Some((from, to)) => match split_record(buf.subrange(from, to)) {
            None => Step::Malformed { line: buf.subrange(from, to) },
            Some((key, value)) => Step::Record { key, value, next: behind(to, end) },
        },
    }
}

/// What `next_record` found, as slices of the buffer.
#[derive(Clone, Copy, Debug)]
pub enum Scan<'a> {
    /// A record: the station's name, the text of its reading, and the place to
    /// read on from.
    Record { key: &'a [u8], value: &'a [u8], next: usize },
    /// A line without a separator.
    Malformed { line: &'a [u8] },
    /// The range holds no further record.
    Done,
}

impl<'a> View for Scan<'a> {
    type V = Step;

    open spec fn view(&self) -> Step {
        match *self {
            Scan::Record { key, value, next } => Step::Record { key: key@, value: value@, next: next as int },
            Scan::Malformed { line } => Step::Malformed { line: line@ },
            Scan::Done => Step::Done,
        }
    }
}

/// Reads the first record of `[pos, end)`.
///
/// Copies nothing: the name and the reading's text are slices of `buf`. To
/// read a whole range, start at its beginning and go on from `next` until the
/// answer is `Done`.
pub fn next_record<'a>(buf: &'a [u8], pos: usize, end: usize) -> (scan: Scan<'a>)
    ensures
        scan@ == step(buf@, pos as int, end as int),
        match scan {
            Scan::Record { next, .. } => pos < next <= end,
            _ => true,
        },
{
    if end > buf.len() {
        return Scan::Done;
    }
    let mut from: usize = pos;
    while from < end && buf[from] == NEWLINE
        invariant
            end <= buf@.len(),
            pos <= from,
            first_line(buf@, from as int, end as int) == first_line(buf@, pos as int, end as int),
        decreases end - from,
    {
        from = from + 1;
    }
    if from >= end {
        return Scan::Done;
    }
    let to = find_byte(buf, NEWLINE, from, end);
    let at = find_byte(buf, SEPARATOR, from, to);
    let line = slice_subrange(buf, from, to);
    proof {
        first_at_shift(buf@, SEPARATOR, from as int, to as int);
    }
    if at == to {
        Scan::Malformed { line }
    } else {
        let next = if to < end { to + 1 } else { end };
        let key = slice_subrange(buf, from, at);
        let value = slice_subrange(buf, at + 1, to);
        assert(key@ == line@.subrange(0, at - from));
        assert(value@ == line@.subrange(at - from + 1, line@.len() as int));
        Scan::Record { key, value, next }
    }
}

} // verus!
