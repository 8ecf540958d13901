//! From the buffer to the summary line: cut, read range by range, merge,
//! write.

use vstd::prelude::*;
use crate::chunker::{chunk, chunk_lines, is_line_partition, partition_keeps_lines};
use crate::listing::ranking;
use crate::parser::{
    fails_at, parse_chunk, parse_determined, parses_to, reads_all, reads_line, records, steady, witness,
    ParseError,
};
use crate::record::{lines, lines_count};
use crate::report::{report, report_text};
use crate::stats::Summary;
use crate::table::{merge, merged, Table};
use crate::tally::{tally, tally_concat, tally_counts};

verus! {

/// What summarizing `buf` with `read` may come to: the line that reports the
/// table of all its lines, or the error of its first line that is no record.
/// Into how many ranges the buffer is cut plays no part in it.
pub open spec fn summarizes_to<F: Fn(&[u8]) -> Option<i64>>(
    read: F,
    buf: Seq<u8>,
    out: Result<Seq<u8>, ParseError>,
) -> bool {
    let all = lines(buf, 0, buf.len() as int);
    match out {
        Ok(line) => exists|table: Map<Seq<u8>, Summary>|
            #![trigger report_text(ranking(table))]
            parses_to(read, all, Ok(table)) && line == report_text(ranking(table)),
        Err(error) => parses_to(read, all, Err(error)),
    }
}

/// The outcome of reading all lines that lies behind an outcome of
/// summarizing: the table that the line reports, or the same error.
pub open spec fn read_behind<F: Fn(&[u8]) -> Option<i64>>(
    read: F,
    all: Seq<Seq<u8>>,
    out: Result<Seq<u8>, ParseError>,
) -> Result<Map<Seq<u8>, Summary>, ParseError> {
    match out {
        Ok(line) => Ok(
            choose|table: Map<Seq<u8>, Summary>|
                #![trigger report_text(ranking(table))]
                parses_to(read, all, Ok(table)) && line == report_text(ranking(table)),
        ),
        Err(error) => Err(error),
    }
}

/// With a steady `read`, summarizing the same buffer comes to the same,
/// however often it is done and into however many ranges the buffer is cut:
/// the same line, byte for byte, or the same error.
pub proof fn summary_determined<F: Fn(&[u8]) -> Option<i64>>(
    read: F,
    buf: Seq<u8>,
    a: Result<Seq<u8>, ParseError>,
    b: Result<Seq<u8>, ParseError>,
)
    requires
        steady(read),
        summarizes_to(read, buf, a),
        summarizes_to(read, buf, b),
    ensures
        a == b,
{
    let all = lines(buf, 0, buf.len() as int);
    parse_determined(read, all, read_behind(read, all, a), read_behind(read, all, b));
}

/// The lines of the first `n` ranges come first among the lines of all.
pub proof fn chunk_lines_prefix(buf: Seq<u8>, chunks: Seq<(usize, usize)>, n: int)
    requires
        0 <= n <= chunks.len(),
    ensures
        chunk_lines(buf, chunks.take(n)).is_prefix_of(chunk_lines(buf, chunks)),
    decreases chunks.len() - n,
{
    if n == chunks.len() {
        assert(chunks.take(n) =~= chunks);
    } else {
        chunk_lines_prefix(buf, chunks, n + 1);
        assert(chunks.take(n + 1).drop_last() =~= chunks.take(n));
    }
}

/// Readings that fit a run of lines and readings that fit the run behind it
/// fit both runs in a row, and the records of both are those of the first run
/// and then those of the second.
pub proof fn reads_all_concat<F: Fn(&[u8]) -> Option<i64>>(
    read: F,
    a: Seq<Seq<u8>>,
    ra: Seq<i64>,
    b: Seq<Seq<u8>>,
    rb: Seq<i64>,
)
    requires
        reads_all(read, a, ra),
        reads_all(read, b, rb),
    ensures
        reads_all(read, a + b, ra + rb),
        records(a + b, ra + rb) == records(a, ra) + records(b, rb),
{
    assert forall|i: int| 0 <= i < (a + b).len() implies reads_line(
        read,
        #[trigger] (a + b)[i],
        (ra + rb)[i],
    ) by {
        // A line of the first run, or one of the second.
        if i >= a.len() {
            assert(reads_line(read, b[i - a.len()], rb[i - a.len()]));
        }
    }
}

/// The tables merged one after the other into a table without stations.
pub open spec fn merged_all(tables: Seq<Map<Seq<u8>, Summary>>) -> Map<Seq<u8>, Summary>
    decreases tables.len(),
{
    if tables.len() == 0 {
        Map::empty()
    } else {
        merged(merged_all(tables.drop_last()), tables.last())
    }
}

/// Reading the ranges of a buffer apart and merging the tables comes to what
/// reading the buffer in one piece comes to. This is what lets the ranges be
/// read side by side.
pub proof fn parts_add_up<F: Fn(&[u8]) -> Option<i64>>(
    read: F,
    buf: Seq<u8>,
    chunks: Seq<(usize, usize)>,
    tables: Seq<Map<Seq<u8>, Summary>>,
)
    requires
        is_line_partition(buf, chunks),
        tables.len() == chunks.len(),
        forall|i: int|
            0 <= i < chunks.len() ==> parses_to(
                read,
                lines(buf, chunks[i].0 as int, chunks[i].1 as int),
                Ok(#[trigger] tables[i]),
            ),
    ensures
        parses_to(read, lines(buf, 0, buf.len() as int), Ok(merged_all(tables))),
{
    first_parts_add_up(read, buf, chunks, tables, chunks.len() as int);
    partition_keeps_lines(buf, chunks);
    assert(chunks.take(chunks.len() as int) =~= chunks);
    assert(tables.take(tables.len() as int) =~= tables);
}

/// The first `n` ranges read apart and merged come to what their lines read
/// in a row come to.
proof fn first_parts_add_up<F: Fn(&[u8]) -> Option<i64>>(
    read: F,
    buf: Seq<u8>,
    chunks: Seq<(usize, usize)>,
    tables: Seq<Map<Seq<u8>, Summary>>,
    n: int,
)
    requires
        0 <= n <= chunks.len(),
        tables.len() == chunks.len(),
        forall|i: int|
            0 <= i < chunks.len() ==> parses_to(
                read,
                lines(buf, chunks[i].0 as int, chunks[i].1 as int),
                Ok(#[trigger] tables[i]),
            ),
    ensures
        parses_to(read, chunk_lines(buf, chunks.take(n)), Ok(merged_all(tables.take(n)))),
    decreases n,
{
    if n == 0 {
        let none = Seq::<i64>::empty();
        let lines = chunk_lines(buf, chunks.take(0));
        assert(reads_all(read, lines, none));
    } else {
        first_parts_add_up(read, buf, chunks, tables, n - 1);
        let done = chunk_lines(buf, chunks.take(n - 1));
        let part = lines(buf, chunks[n - 1].0 as int, chunks[n - 1].1 as int);
        assert(chunks.take(n).drop_last() =~= chunks.take(n - 1));
        assert(tables.take(n).drop_last() =~= tables.take(n - 1));
        let before = witness(read, done, Ok(merged_all(tables.take(n - 1))));
        let fresh = witness(read, part, Ok(tables[n - 1]));
        reads_all_concat(read, done, before, part, fresh);
        tally_concat(records(done, before), records(part, fresh));
    }
}

/// Summarizes the buffer: cuts it into `cores` ranges, reads each into a table
/// with `read`, merges the tables and writes the merged table as one line, the
/// stations in the order of their names.
///
/// The line is that of the whole buffer read in one piece, whatever `cores`
/// is. The first line that is no record ends the run with its error.
pub fn summarize<'a, F: Fn(&[u8]) -> Option<i64>>(buf: &'a [u8], cores: usize, read: &F) -> (out: Result<
    Vec<u8>,
    ParseError<'a>,
>)
    requires
        cores >= 1,
        buf@.len() < usize::MAX,
        forall|text: &[u8]| #[trigger] read.requires((text,)),
    ensures
        summarizes_to(
            *read,
            buf@,
            match out {
                Ok(line) => Ok(line@),
                Err(error) => Err(error),
            },
        ),
{
    let chunks = chunk(buf, cores);
    let ghost all = lines(buf@, 0, buf@.len() as int);
    let mut total = Table::new();
    let ghost mut readings: Seq<i64> = Seq::empty();
    let mut i: usize = 0;
    proof {
        partition_keeps_lines(buf@, chunks@);
        lines_count(buf@, 0, buf@.len() as int);
        assert(records(chunk_lines(buf@, chunks@.take(0)), readings) =~= Seq::<
            (Seq<u8>, i64),
        >::empty());
    }
    while i < chunks.len()
        invariant
            forall|text: &[u8]| #[trigger] read.requires((text,)),
            all == lines(buf@, 0, buf@.len() as int),
            all == chunk_lines(buf@, chunks@),
            all.len() <= usize::MAX,
            0 <= i <= chunks@.len(),
            reads_all(*read, chunk_lines(buf@, chunks@.take(i as int)), readings),
            total@ == tally(records(chunk_lines(buf@, chunks@.take(i as int)), readings)),
        decreases chunks@.len() - i,
    {
        let ghost done = chunk_lines(buf@, chunks@.take(i as int));
        let ghost part = lines(buf@, chunks@[i as int].0 as int, chunks@[i as int].1 as int);
        proof {
            chunk_lines_prefix(buf@, chunks@, i + 1);
            assert(chunks@.take(i + 1).drop_last() =~= chunks@.take(i as int));
        }
        match parse_chunk(chunks[i].0, chunks[i].1, buf, read) {
            Err(error) => {
                proof {
                    let short = choose|short: Seq<i64>|
                        #![trigger reads_all(*read, part.take(short.len() as int), short)]
                        short.len() < part.len() && reads_all(
                            *read,
                            part.take(short.len() as int),
                            short,
                        ) && fails_at(*read, part[short.len() as int], error);
                    reads_all_concat(*read, done, readings, part.take(short.len() as int), short);
                    let upto = readings + short;
                    assert(all.take(upto.len() as int) =~= done + part.take(short.len() as int));
                    assert(all.subrange(0, (done + part).len() as int)[upto.len() as int] == (done
                        + part)[upto.len() as int]);
                }
                return Err(error);
            },
            Ok(table) => {
                proof {
                    let fresh = choose|fresh: Seq<i64>|
                        #![trigger reads_all(*read, part, fresh)]
                        reads_all(*read, part, fresh) && table@ == tally(records(part, fresh));
                    reads_all_concat(*read, done, readings, part, fresh);
                    tally_concat(records(done, readings), records(part, fresh));
                    tally_counts(records(done, readings));
                    readings = readings + fresh;
                }
                merge(&mut total, &table);
            },
        }
        i = i + 1;
    }
    proof {
        assert(chunks@.take(i as int) =~= chunks@);
        tally_counts(records(all, readings));
    }
    Ok(report(&total))
}

} // verus!
