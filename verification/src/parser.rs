//! Reading one range of the buffer into a table.
//!
//! What the text of a reading means is the caller's part: it hands in a
//! function from the text to the reading in tenths, or to `None` where the
//! text is no number.

use vstd::prelude::*;
use crate::record::{first_line_bounds, lines, next_record, split_record, Scan};
use crate::stats::Summary;
use crate::table::Table;
use crate::tally::{tally, tally_counts, tally_push};

verus! {

/// Why a range could not be read.
#[derive(Clone, Copy, Debug)]
pub enum ParseError<'a> {
    /// A line holds no separator.
    MissingSeparator { line: &'a [u8] },
    /// The text behind a separator is no reading.
    BadReading { text: &'a [u8] },
}

/// `read` can answer `out` when it is given `text`.
pub open spec fn reads<F: Fn(&[u8]) -> Option<i64>>(read: F, text: Seq<u8>, out: Option<i64>) -> bool {
    exists|s: &[u8]| s@ == text && #[trigger] read.ensures((s,), out)
}

/// `line` is a record whose reading `read` can take to be `reading`.
pub open spec fn reads_line<F: Fn(&[u8]) -> Option<i64>>(read: F, line: Seq<u8>, reading: i64) -> bool {
    match split_record(line) {
        Some((name, text)) => reads(read, text, Some(reading)),
        None => false,
    }
}

/// `read` can take the lines, one by one, to be records with these readings.
pub open spec fn reads_all<F: Fn(&[u8]) -> Option<i64>>(
    read: F,
    lines: Seq<Seq<u8>>,
    readings: Seq<i64>,
) -> bool {
    &&& lines.len() == readings.len()
    &&& forall|i: int| 0 <= i < lines.len() ==> reads_line(read, #[trigger] lines[i], readings[i])
}

/// The records that the lines are with these readings: of each line the name
/// before its separator, and its reading.
pub open spec fn records(lines: Seq<Seq<u8>>, readings: Seq<i64>) -> Seq<(Seq<u8>, i64)> {
    Seq::new(lines.len(), |i: int| (split_record(lines[i]).unwrap().0, readings[i]))
}

/// `error` says what is wrong with `line`: it holds no separator, or `read` can
/// answer that the text behind its separator is no reading.
pub open spec fn fails_at<F: Fn(&[u8]) -> Option<i64>>(read: F, line: Seq<u8>, error: ParseError) -> bool {
    match error {
        ParseError::MissingSeparator { line: shown } => shown@ == line && split_record(line) is None,
        ParseError::BadReading { text } => match split_record(line) {
            Some((name, behind)) => text@ == behind && reads(read, behind, None),
            None => false,
        },
    }
}

/// What reading the lines with `read` may come to: a table of all of them, or
/// the error of the first line that is no record.
pub open spec fn parses_to<F: Fn(&[u8]) -> Option<i64>>(
    read: F,
    lines: Seq<Seq<u8>>,
    out: Result<Map<Seq<u8>, Summary>, ParseError>,
) -> bool {
    match out {
        Ok(table) => exists|readings: Seq<i64>|
            #![trigger reads_all(read, lines, readings)]
            reads_all(read, lines, readings) && table == tally(records(lines, readings)),
        Err(error) => exists|readings: Seq<i64>|
            #![trigger reads_all(read, lines.take(readings.len() as int), readings)]
            readings.len() < lines.len() && reads_all(read, lines.take(readings.len() as int), readings)
                && fails_at(read, lines[readings.len() as int], error),
    }
}

/// `read` answers texts of the same bytes alike, whenever it is asked.
pub open spec fn steady<F: Fn(&[u8]) -> Option<i64>>(read: F) -> bool {
    forall|s: &[u8], t: &[u8], x: Option<i64>, y: Option<i64>|
        s@ == t@ && #[trigger] read.ensures((s,), x) && #[trigger] read.ensures((t,), y) ==> x == y
}

/// With a steady `read`, reading the same lines comes to the same: the same
/// table, or the same error.
pub proof fn parse_determined<F: Fn(&[u8]) -> Option<i64>>(
    read: F,
    lines: Seq<Seq<u8>>,
    a: Result<Map<Seq<u8>, Summary>, ParseError>,
    b: Result<Map<Seq<u8>, Summary>, ParseError>,
)
    requires
        steady(read),
        parses_to(read, lines, a),
        parses_to(read, lines, b),
    ensures
        a == b,
{
    let ra = witness(read, lines, a);
    let rb = witness(read, lines, b);
    let na = ra.len() as int;
    let nb = rb.len() as int;
    let shared = if na <= nb { na } else { nb };
    assert forall|i: int| 0 <= i < shared implies ra[i] == rb[i] by {
        assert(lines.take(na)[i] == lines[i] && lines.take(nb)[i] == lines[i]);
    }
    if na < nb {
        assert(lines.take(nb)[na] == lines[na]);
    }
    if nb < na {
        assert(lines.take(na)[nb] == lines[nb]);
    }
    assert(ra =~= rb);
    match (a, b) {
        (Err(ParseError::MissingSeparator { line: la }), Err(ParseError::MissingSeparator { line: lb })) => {
            assert(la =~= lb);
        },
        (Err(ParseError::BadReading { text: ta }), Err(ParseError::BadReading { text: tb })) => {
            assert(ta =~= tb);
        },
        _ => {},
    }
}

/// Readings that show what `parses_to` claims: all of them where the outcome is
/// a table, those of the lines before the failing one where it is an error.
pub open spec fn witness<F: Fn(&[u8]) -> Option<i64>>(
    read: F,
    lines: Seq<Seq<u8>>,
    out: Result<Map<Seq<u8>, Summary>, ParseError>,
) -> Seq<i64> {
    match out {
        Ok(table) => choose|readings: Seq<i64>|
            #![trigger reads_all(read, lines, readings)]
            reads_all(read, lines, readings) && table == tally(records(lines, readings)),
        Err(error) => choose|readings: Seq<i64>|
            #![trigger reads_all(read, lines.take(readings.len() as int), readings)]
            readings.len() < lines.len() && reads_all(read, lines.take(readings.len() as int), readings)
                && fails_at(read, lines[readings.len() as int], error),
    }
}

/// Reads the records of `[start, end)` into a table, stopping at the first
/// line that is no record.
///
/// A range that does not lie in the buffer holds no line. Every station of the
/// table has a reading, and none has more readings than the range has lines.
pub fn parse_chunk<'a, F: Fn(&[u8]) -> Option<i64>>(start: usize, end: usize, buf: &'a [u8], read: &F) -> (out:
    Result<Table<'a>, ParseError<'a>>)
    requires
        forall|text: &[u8]| #[trigger] read.requires((text,)),
    ensures
        parses_to(
            *read,
            lines(buf@, start as int, end as int),
            match out {
                Ok(table) => Ok(table@),
                Err(error) => Err(error),
            },
        ),
        match out {
            Ok(table) => forall|k: Seq<u8>| #[trigger]
                table@.contains_key(k) ==> 1 <= table@[k].count <= lines(
                    buf@,
                    start as int,
                    end as int,
                ).len(),
            Err(_) => true,
        },
{
    let ghost all = lines(buf@, start as int, end as int);
    let mut table = Table::new();
    let ghost mut readings: Seq<i64> = Seq::empty();
    let mut pos: usize = start;
    loop
        invariant
            forall|text: &[u8]| #[trigger] read.requires((text,)),
            all == lines(buf@, start as int, end as int),
            start <= pos,
            pos <= end || pos == start,
            readings.len() <= all.len(),
            readings.len() <= pos - start,
            all == all.take(readings.len() as int) + lines(buf@, pos as int, end as int),
            reads_all(*read, all.take(readings.len() as int), readings),
            table@ == tally(records(all.take(readings.len() as int), readings)),
        decreases end - pos,
    {
        let ghost done = all.take(readings.len() as int);
        match next_record(buf, pos, end) {
            Scan::Done => {
                proof {
                    tally_counts(records(all, readings));
                }
                return Ok(table);
            },
            Scan::Malformed { line } => {
                return Err(ParseError::MissingSeparator { line });
            },
            Scan::Record { key, value, next } => {
                match read(value) {
                    None => {
                        return Err(ParseError::BadReading { text: value });
                    },
                    Some(reading) => {
                        proof {
                            tally_counts(records(done, readings));
                        }
                        table.observe(key, reading);
                        proof {
                            let grown = readings.push(reading);
                            let more = all.take(grown.len() as int);
                            assert(records(more, grown) =~= records(done, readings).push(
                                (key@, reading),
                            ));
                            tally_push(records(done, readings), key@, reading);
                            assert(reads_all(*read, more, grown));
                            readings = grown;
                        }
                        pos = next;
                    },
                }
            },
        }
    }
}

} // verus!
