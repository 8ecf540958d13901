//! Cutting a buffer into line-aligned ranges, one per worker.

use vstd::prelude::*;
use crate::record::{lines, lines_split, NEWLINE};
use crate::scan::{find_byte, first_at, first_at_bounds};

verus! {

/// Where a range that begins at `start` would end if lines did not matter:
/// `target` bytes on, or at the end of the buffer.
pub open spec fn tentative_end(len: int, start: int, target: int) -> int {
    if start + target < len {
        start + target
    } else {
        len
    }
}

/// Where a range that begins at `start` ends: at the first newline at or after
/// its tentative end, or at the end of the buffer.
pub open spec fn chunk_end(buf: Seq<u8>, start: int, target: int) -> int {
    first_at(buf, NEWLINE, tentative_end(buf.len() as int, start, target), buf.len() as int)
}

/// Where the `i`-th range begins: the first at 0, each later one just behind
/// the end of the one before it.
pub open spec fn chunk_start(buf: Seq<u8>, target: int, i: nat) -> int
    decreases i,
{
    if i == 0 {
        0
    } else {
        chunk_end(buf, chunk_start(buf, target, (i - 1) as nat), target) + 1
    }
}

/// The `i`-th of `cores` ranges over `buf`.
pub open spec fn nth_chunk(buf: Seq<u8>, cores: int, i: nat) -> (int, int) {
    let target = buf.len() as int / cores;
    let start = chunk_start(buf, target, i);
    (start, chunk_end(buf, start, target))
}

/// `at` is the end of the buffer or the place of a newline.
pub open spec fn is_line_end(buf: Seq<u8>, at: int) -> bool {
    at == buf.len() || (0 <= at < buf.len() && buf[at] == NEWLINE)
}

/// The ranges cover `buf` line by line: the first begins at 0, each ends at a
/// newline or at the end of the buffer, each later one begins just behind the
/// newline that ended the one before, and the last ends with the buffer. A
/// range that begins behind the end of the buffer is empty.
pub open spec fn is_line_partition(buf: Seq<u8>, chunks: Seq<(usize, usize)>) -> bool {
    &&& chunks.len() >= 1
    &&& chunks[0].0 == 0
    &&& chunks[chunks.len() - 1].1 == buf.len()
    &&& forall|i: int|
        0 <= i < chunks.len() ==> (#[trigger] chunks[i]).0 <= chunks[i].1 + 1 && is_line_end(
            buf,
            chunks[i].1 as int,
        )
    &&& forall|i: int, j: int|
        0 <= i < chunks.len() && j == i + 1 && j < chunks.len() ==> (#[trigger] chunks[j]).0 == (
        #[trigger] chunks[i]).1 + 1
}

/// The lines of the ranges, range by range.
pub open spec fn chunk_lines(buf: Seq<u8>, chunks: Seq<(usize, usize)>) -> Seq<Seq<u8>>
    decreases chunks.len(),
{
    if chunks.len() == 0 {
        Seq::empty()
    } else {
        chunk_lines(buf, chunks.drop_last()) + lines(
            buf,
            chunks.last().0 as int,
            chunks.last().1 as int,
        )
    }
}

/// Every byte of the buffer lies in one range and no other, a newline counted
/// to the range that it ends.
pub proof fn partition_covers(buf: Seq<u8>, chunks: Seq<(usize, usize)>, at: int)
    requires
        is_line_partition(buf, chunks),
        0 <= at < buf.len(),
    ensures
        exists|i: int|
            0 <= i < chunks.len() && (#[trigger] chunks[i]).0 <= at <= chunks[i].1 && forall|j: int|
                0 <= j < chunks.len() && j != i ==> !((#[trigger] chunks[j]).0 <= at <= chunks[j].1),
{
    let i = partition_owner(buf, chunks, at, chunks.len() - 1);
    assert forall|j: int| 0 <= j < chunks.len() && j != i implies !((#[trigger] chunks[j]).0 <= at
        <= chunks[j].1) by {
        if j < i {
            partition_ordered(buf, chunks, j, i);
        } else {
            partition_ordered(buf, chunks, i, j);
        }
    }
}

/// The range among the first `upto + 1` that holds `at`, where one of them
/// ends at or behind `at`.
proof fn partition_owner(buf: Seq<u8>, chunks: Seq<(usize, usize)>, at: int, upto: int) -> (i: int)
    requires
        is_line_partition(buf, chunks),
        0 <= upto < chunks.len(),
        0 <= at <= chunks[upto].1,
    ensures
        0 <= i <= upto,
        chunks[i].0 <= at <= chunks[i].1,
    decreases upto,
{
    if upto == 0 || chunks[upto].0 <= at {
        upto
    } else {
        partition_owner(buf, chunks, at, upto - 1)
    }
}

/// A later range begins behind the end of every earlier one.
proof fn partition_ordered(buf: Seq<u8>, chunks: Seq<(usize, usize)>, i: int, j: int)
    requires
        is_line_partition(buf, chunks),
        0 <= i < j < chunks.len(),
    ensures
        chunks[i].1 < chunks[j].0,
    decreases j - i,
{
    if i < j - 1 {
        partition_ordered(buf, chunks, i, j - 1);
    }
}

/// The ranges hold the lines of the buffer, each line once and whole, in the
/// order of the buffer.
pub proof fn partition_keeps_lines(buf: Seq<u8>, chunks: Seq<(usize, usize)>)
    requires
        is_line_partition(buf, chunks),
    ensures
        chunk_lines(buf, chunks) == lines(buf, 0, buf.len() as int),
{
    prefix_keeps_lines(buf, chunks, chunks.len() as int);
    assert(chunks.subrange(0, chunks.len() as int) =~= chunks);
}

/// The first `n` ranges hold the lines of the buffer up to the end of the last
/// of them.
proof fn prefix_keeps_lines(buf: Seq<u8>, chunks: Seq<(usize, usize)>, n: int)
    requires
        is_line_partition(buf, chunks),
        1 <= n <= chunks.len(),
    ensures
        chunk_lines(buf, chunks.subrange(0, n)) == lines(buf, 0, chunks[n - 1].1 as int),
    decreases n,
{
    let upto = chunks.subrange(0, n);
    let end = chunks[n - 1].1 as int;
    if n == 1 {
        assert(chunk_lines(buf, upto.drop_last()) =~= Seq::<Seq<u8>>::empty());
    } else {
        prefix_keeps_lines(buf, chunks, n - 1);
        assert(upto.drop_last() =~= chunks.subrange(0, n - 1));
        let cut = chunks[n - 2].1 as int;
        if cut < end {
            lines_split(buf, 0, cut, end);
        }
    }
}

/// Cuts `buf` into `cores` ranges `(start, end)` that split no line.
///
/// Each range aims at `buf.len() / cores` bytes and is then stretched to the
/// next newline, which the following range skips. Once a range has reached the
/// end of the buffer, the ranges behind it are `(len + 1, len)` and hold
/// nothing.
pub fn chunk(buf: &[u8], cores: usize) -> (chunks: Vec<(usize, usize)>)
    requires
        cores >= 1,
        buf@.len() < usize::MAX,
    ensures
        chunks@.len() == cores,
        forall|i: int|
            0 <= i < cores ==> (#[trigger] chunks@[i]).0 == nth_chunk(buf@, cores as int, i as nat).0
                && chunks@[i].1 == nth_chunk(buf@, cores as int, i as nat).1,
        is_line_partition(buf@, chunks@),
{
    let len = buf.len();
    let target = len / cores;
    let mut start: usize = 0;
    let mut chunks: Vec<(usize, usize)> = Vec::new();
    let mut done: usize = 0;
    while done < cores
        invariant
            len == buf@.len(),
            len < usize::MAX,
            cores >= 1,
            target == len / cores,
            done <= cores,
            chunks@.len() == done,
            start == chunk_start(buf@, target as int, done as nat),
            start <= len + 1,
            start == len + 1 || start >= done * (target + 1),
            done > 0 ==> start == chunks@[done - 1].1 + 1,
            done > 0 ==> chunks@[0].0 == 0,
            forall|i: int|
                0 <= i < done ==> (#[trigger] chunks@[i]).0 == nth_chunk(
                    buf@,
                    cores as int,
                    i as nat,
                ).0 && chunks@[i].1 == nth_chunk(buf@, cores as int, i as nat).1,
            forall|i: int|
                0 <= i < done ==> (#[trigger] chunks@[i]).0 <= chunks@[i].1 + 1 && is_line_end(
                    buf@,
                    chunks@[i].1 as int,
                ),
            forall|i: int, j: int|
                0 <= i < done && j == i + 1 && j < done ==> (#[trigger] chunks@[j]).0 == (
                #[trigger] chunks@[i]).1 + 1,
        decreases cores - done,
    {
        let tentative = if start >= len || target >= len - start {
            len
        } else {
            start + target
        };
        let end = find_byte(buf, NEWLINE, tentative, len);
        proof {
            first_at_bounds(buf@, NEWLINE, tentative as int, len as int);
            assert((done + 1) * (target + 1) == done * (target + 1) + target + 1)
                by (nonlinear_arith);
        }
        chunks.push((start, end));
        start = end + 1;
        done = done + 1;
    }
    proof {
        assert(cores * (target + 1) >= len + 1) by (nonlinear_arith)
            requires
                cores >= 1,
                target == len / cores,
        ;
    }
    chunks
}

} // verus!
