//! Writing the summary of a table as one line.

use vstd::prelude::*;
use crate::listing::ranking;
use crate::stats::{Stats, Summary};
use crate::table::{all_seen, summaries, Table};

verus! {

/// The byte `=`.
pub const EQUALS: u8 = 61;

/// The byte `,`.
pub const COMMA: u8 = 44;

/// The byte of a blank.
pub const BLANK: u8 = 32;

/// One station as text: its name, `=`, and its summary.
pub open spec fn entry_text(entry: (Seq<u8>, Summary)) -> Seq<u8> {
    entry.0 + seq![EQUALS] + entry.1.text()
}

/// The stations of `l` as one line: each as text, a comma and a blank between
/// two of them, nothing before the first or behind the last.
pub open spec fn report_text(l: Seq<(Seq<u8>, Summary)>) -> Seq<u8>
    decreases l.len(),
{
    if l.len() == 0 {
        Seq::empty()
    } else if l.len() == 1 {
        entry_text(l[0])
    } else {
        report_text(l.drop_last()) + seq![COMMA, BLANK] + entry_text(l.last())
    }
}

/// Writes the stations of `items` as one line, in the order given.
pub fn render_entries(items: &[(&[u8], Stats)]) -> (line: Vec<u8>)
    requires
        forall|i: int| 0 <= i < items@.len() ==> (#[trigger] items@[i]).1@.count > 0,
    ensures
        line@ == report_text(summaries(items@)),
{
    let ghost rows = summaries(items@);
    let mut line: Vec<u8> = Vec::new();
    let mut i: usize = 0;
    while i < items.len()
        invariant
            0 <= i <= items@.len(),
            rows == summaries(items@),
            forall|i: int| 0 <= i < items@.len() ==> (#[trigger] items@[i]).1@.count > 0,
            line@ == report_text(rows.subrange(0, i as int)),
        decreases items@.len() - i,
    {
        if i > 0 {
            line.push(COMMA);
            line.push(BLANK);
        }
        let name = items[i].0;
        let stats = items[i].1;
        line.extend_from_slice(name);
        line.push(EQUALS);
        stats.render_into(&mut line);
        proof {
            assert(rows.subrange(0, i + 1).drop_last() =~= rows.subrange(0, i as int));
        }
        i = i + 1;
    }
    assert(rows.subrange(0, i as int) =~= rows);
    line
}

/// Writes the summary of `table` as one line, the stations in the order of
/// their names: `name=min/mean/max, name=min/mean/max`.
pub fn report(table: &Table) -> (line: Vec<u8>)
    requires
        all_seen(table@),
    ensures
        line@ == report_text(ranking(table@)),
{
    let items = table.sorted_entries();
    proof {
        let rows = summaries(items@);
        assert forall|i: int| 0 <= i < items@.len() implies (#[trigger] items@[i]).1@.count > 0 by {
            assert(table@.contains_key(rows[i].0) && table@[rows[i].0] == rows[i].1);
        }
    }
    render_entries(items.as_slice())
}

} // verus!
