//! What a table holds after a run of records, and how tables of parts of a
//! run add up.

use vstd::prelude::*;
use crate::stats::Summary;
use crate::table::{all_seen, merged, summary_of};

verus! {

/// The table after the records, each a station's name and one reading, were
/// taken in one by one.
pub open spec fn tally(records: Seq<(Seq<u8>, i64)>) -> Map<Seq<u8>, Summary>
    decreases records.len(),
{
    if records.len() == 0 {
        Map::empty()
    } else {
        let before = tally(records.drop_last());
        let name = records.last().0;
        before.insert(name, summary_of(before, name).update(records.last().1 as int))
    }
}

/// Every summary of `m` has a minimum of at most `i64::MAX` and a maximum of at
/// least `i64::MIN`, as what every accumulator stands for has.
pub open spec fn bounded(m: Map<Seq<u8>, Summary>) -> bool {
    forall|k: Seq<u8>| #[trigger]
        m.contains_key(k) ==> m[k].min <= i64::MAX && m[k].max >= i64::MIN
}

/// One more record changes the table as taking in its reading does.
pub proof fn tally_push(records: Seq<(Seq<u8>, i64)>, name: Seq<u8>, reading: i64)
    ensures
        tally(records.push((name, reading))) == tally(records).insert(
            name,
            summary_of(tally(records), name).update(reading as int),
        ),
{
    assert(records.push((name, reading)).drop_last() =~= records);
}

/// In the table of a run every station has at least one reading and at most
/// as many as the run has records, and its extremes are readings of the run.
pub proof fn tally_counts(records: Seq<(Seq<u8>, i64)>)
    ensures
        all_seen(tally(records)),
        bounded(tally(records)),
        forall|k: Seq<u8>| #[trigger]
            tally(records).contains_key(k) ==> tally(records)[k].count <= records.len(),
    decreases records.len(),
{
    if records.len() > 0 {
        tally_counts(records.drop_last());
    }
}

/// The table of a run is the table of its first part merged with the table of
/// the rest, wherever the run is cut.
pub proof fn tally_concat(a: Seq<(Seq<u8>, i64)>, b: Seq<(Seq<u8>, i64)>)
    ensures
        tally(a + b) == merged(tally(a), tally(b)),
    decreases b.len(),
{
    if b.len() > 0 {
        let front = b.drop_last();
        let name = b.last().0;
        let reading = b.last().1;
        assert(a + b =~= (a + front).push((name, reading)));
        tally_push(a + front, name, reading);
        tally_concat(a, front);
    }
}

/// Merging with a table without stations changes nothing, whichever side it
/// is on.
pub proof fn merged_identity(m: Map<Seq<u8>, Summary>)
    requires
        bounded(m),
    ensures
        merged(m, Map::empty()) == m,
        merged(Map::empty(), m) == m,
{
}

/// Merging tables does not depend on how they are grouped.
pub proof fn merged_associative(a: Map<Seq<u8>, Summary>, b: Map<Seq<u8>, Summary>, c: Map<Seq<u8>, Summary>)
    requires
        bounded(a),
        bounded(b),
        bounded(c),
    ensures
        merged(merged(a, b), c) == merged(a, merged(b, c)),
{
}

/// Merging tables does not depend on their order.
pub proof fn merged_commutative(a: Map<Seq<u8>, Summary>, b: Map<Seq<u8>, Summary>)
    requires
        bounded(a),
        bounded(b),
    ensures
        merged(a, b) == merged(b, a),
{
}

} // verus!
