//! Listing what a table holds, station by station, in the order of the names.

use vstd::prelude::*;
use crate::order::{key_order, precedes, precedes_asymmetric, precedes_total};

verus! {

/// The items with each name replaced by its bytes.
pub open spec fn named<V>(items: Seq<(&[u8], V)>) -> Seq<(Seq<u8>, V)> {
    Seq::new(items.len(), |i: int| (items[i].0@, items[i].1))
}

/// `l` lists `m`: every item is an entry of `m`, no name occurs twice, and
/// every entry of `m` is among the items.
pub open spec fn lists<V>(l: Seq<(Seq<u8>, V)>, m: Map<Seq<u8>, V>) -> bool {
    &&& forall|i: int| 0 <= i < l.len() ==> m.contains_key((#[trigger] l[i]).0) && m[l[i].0] == l[i].1
    &&& forall|i: int, j: int| 0 <= i < j < l.len() ==> (#[trigger] l[i]).0 != (#[trigger] l[j]).0
    &&& forall|k: Seq<u8>| #[trigger]
        m.contains_key(k) ==> exists|i: int| 0 <= i < l.len() && (#[trigger] l[i]).0 == k
}

/// Each name of `l` comes before all the names behind it.
pub open spec fn ascending<V>(l: Seq<(Seq<u8>, V)>) -> bool {
    forall|i: int, j: int| 0 <= i < j < l.len() ==> precedes((#[trigger] l[i]).0, (#[trigger] l[j]).0)
}

/// `l` lists `m` in the order of the names.
pub open spec fn ranks<V>(l: Seq<(Seq<u8>, V)>, m: Map<Seq<u8>, V>) -> bool {
    lists(l, m) && ascending(l)
}

/// The entries of `m` in the order of their names, where `m` has entries for
/// finitely many names.
pub open spec fn ranking<V>(m: Map<Seq<u8>, V>) -> Seq<(Seq<u8>, V)> {
    choose|l: Seq<(Seq<u8>, V)>| ranks(l, m)
}

/// A table has one listing in the order of the names: whatever order its
/// entries were met in, ranking them gives the same sequence.
pub proof fn ranking_unique<V>(l: Seq<(Seq<u8>, V)>, m: Map<Seq<u8>, V>)
    requires
        ranks(l, m),
    ensures
        l == ranking(m),
{
    ranked_alike(l, ranking(m), m);
}

/// Two listings of one table in the order of the names are the same.
pub proof fn ranked_alike<V>(a: Seq<(Seq<u8>, V)>, b: Seq<(Seq<u8>, V)>, m: Map<Seq<u8>, V>)
    requires
        ranks(a, m),
        ranks(b, m),
    ensures
        a == b,
    decreases a.len(),
{
    if a.len() == 0 {
        if b.len() > 0 {
            assert(m.contains_key(b[0].0));
        }
    } else {
        // Each first name is somewhere in the other listing, so neither comes
        // before the other: the listings begin alike.
        precedes_asymmetric(a[0].0, b[0].0);
        lemma_rest_ranks(a, m);
        lemma_rest_ranks(b, m);
        ranked_alike(a.subrange(1, a.len() as int), b.subrange(1, b.len() as int), m.remove(a[0].0));
        assert(a =~= seq![a[0]] + a.subrange(1, a.len() as int));
    }
}

/// Behind its first item a ranked listing ranks the table without that item's
/// station.
proof fn lemma_rest_ranks<V>(l: Seq<(Seq<u8>, V)>, m: Map<Seq<u8>, V>)
    requires
        ranks(l, m),
        l.len() > 0,
    ensures
        ranks(l.subrange(1, l.len() as int), m.remove(l[0].0)),
{
    let rest = l.subrange(1, l.len() as int);
    let less = m.remove(l[0].0);
    assert forall|k: Seq<u8>| #[trigger] less.contains_key(k) implies exists|i: int|
        0 <= i < rest.len() && (#[trigger] rest[i]).0 == k by {
        let at = choose|i: int| 0 <= i < l.len() && (#[trigger] l[i]).0 == k;
        assert(rest[at - 1] == l[at]);
    }
}

/// A listing whose items were put in an order where no name comes before one
/// ahead of it ranks the table.
pub proof fn lemma_sorted_ranks<V>(before: Seq<(Seq<u8>, V)>, after: Seq<(Seq<u8>, V)>, m: Map<Seq<u8>, V>)
    requires
        lists(before, m),
        before.to_multiset() == after.to_multiset(),
        forall|i: int, j: int|
            0 <= i < j < after.len() ==> !precedes((#[trigger] after[j]).0, (#[trigger] after[i]).0),
    ensures
        ranks(after, m),
{
    before.to_multiset_ensures();
    after.to_multiset_ensures();
    // Every item behind the sort was an item before it.
    assert forall|i: int| 0 <= i < after.len() implies m.contains_key((#[trigger] after[i]).0)
        && m[after[i].0] == after[i].1 by {
        assert(after.to_multiset().count(after[i]) > 0);
    }
    // No item occurred twice before the sort, so none does behind it, and two
    // items of one name would be one item twice.
    assert(before.no_duplicates());
    before.lemma_multiset_has_no_duplicates();
    after.lemma_multiset_has_no_duplicates_conv();
    // Every item before the sort is an item behind it.
    assert forall|k: Seq<u8>| #[trigger] m.contains_key(k) implies exists|i: int|
        0 <= i < after.len() && (#[trigger] after[i]).0 == k by {
        let p = choose|p: int| 0 <= p < before.len() && (#[trigger] before[p]).0 == k;
        assert(before.to_multiset().count(before[p]) > 0);
    }
    assert forall|i: int, j: int| 0 <= i < j < after.len() implies precedes(
        (#[trigger] after[i]).0,
        (#[trigger] after[j]).0,
    ) by {
        precedes_total(after[i].0, after[j].0);
    }
}

/// `slice::sort_unstable_by` puts the items in the order that `key_order`
/// gives their names: the same items, and behind the call no name comes before
/// one ahead of it. `key_order` is a total order, as the sort asks.
#[verifier::external_body]
pub(crate) fn sort_by_name<'a, V>(items: &mut Vec<(&'a [u8], V)>)
    ensures
        named(final(items)@).to_multiset() == named(old(items)@).to_multiset(),
        forall|i: int, j: int|
            0 <= i < j < final(items)@.len() ==> !precedes(
                (#[trigger] final(items)@[j]).0@,
                (#[trigger] final(items)@[i]).0@,
            ),
{
    items.sort_unstable_by(|a, b| key_order(a.0, b.0));
}

} // verus!
