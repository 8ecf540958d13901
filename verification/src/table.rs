//! The statistics of every station seen so far, keyed by the station's name.
//!
//! The table is a hash map of `fxhash` whose keys are slices of the buffer.
//! vstd describes `HashMap` for the key types and hashers that it has a model
//! of; byte slices under the Fx hasher are not among them. So what the map's
//! methods do is stated here, over `held`, and taken on trust: names are told
//! apart by their bytes, as `Hash` and `Eq` of a slice do.

use vstd::prelude::*;
use fxhash::FxHashMap;
use fxhash::FxHasher;
use std::collections::hash_map::Entry;
use vstd::std_specs::hash::EntrySpecFns;
use crate::listing::{lemma_sorted_ranks, lists, named, ranking, ranking_unique, ranks, sort_by_name};
use crate::order::precedes;
use crate::stats::{Stats, Summary};
use crate::tally::bounded;

verus! {

/// The hasher of `fxhash`, taken as it is.
#[verifier::external_type_specification]
#[verifier::external_body]
pub struct ExFxHasher(FxHasher);

/// The maker of default hashers of `std`, taken as it is.
#[verifier::external_type_specification]
#[verifier::external_body]
#[verifier::reject_recursive_types(H)]
pub struct ExBuildHasherDefault<H>(std::hash::BuildHasherDefault<H>);

/// The entries of a hash map keyed by station names: each name, by its bytes,
/// with the accumulator stored under it.
pub uninterp spec fn held(map: &FxHashMap<&[u8], Stats>) -> Map<Seq<u8>, Stats>;

/// `FxHashMap::default` makes a map without entries.
#[verifier::external_body]
fn map_new<'a>() -> (map: FxHashMap<&'a [u8], Stats>)
    ensures
        held(&map).dom() == Set::<Seq<u8>>::empty(),
{
    FxHashMap::default()
}

/// `HashMap::entry` finds the place of `key`: the entry holds the accumulator
/// stored under these bytes, or nothing where the map has none. No other
/// entry changes, and what the entry is left with is what the map then holds
/// under `key`.
#[verifier::external_body]
fn map_entry<'m, 'a>(map: &'m mut FxHashMap<&'a [u8], Stats>, key: &'a [u8]) -> (entry: Entry<
    'm,
    &'a [u8],
    Stats,
>)
    ensures
        entry.value() == held(old(map)).get(key@),
        held(final(map)) == (match entry.final_value() {
            Some(stats) => held(old(map)).insert(key@, stats),
            None => held(old(map)).remove(key@),
        }),
{
    map.entry(key)
}

/// `HashMap::get` looks a name up by its bytes and hands out the accumulator
/// stored under them.
#[verifier::external_body]
fn map_get<'m>(map: &'m FxHashMap<&[u8], Stats>, key: &[u8]) -> (found: Option<&'m Stats>)
    ensures
        match found {
            Some(stats) => held(map).contains_key(key@) && *stats == held(map)[key@],
            None => !held(map).contains_key(key@),
        },
{
    map.get(key)
}

/// `HashMap::iter` visits every entry once, in an order that is not fixed;
/// collected, the entries list the map.
#[verifier::external_body]
fn map_entries<'a>(map: &FxHashMap<&'a [u8], Stats>) -> (items: Vec<(&'a [u8], Stats)>)
    ensures
        lists(named(items@), held(map)),
{
    map.iter().map(|(key, stats)| (*key, *stats)).collect()
}

/// The summary that `m` holds for `key`: that of no readings where it holds
/// none.
pub open spec fn summary_of(m: Map<Seq<u8>, Summary>, key: Seq<u8>) -> Summary {
    if m.contains_key(key) {
        m[key]
    } else {
        Summary::empty()
    }
}

/// Every station of `m` has at least one reading.
pub open spec fn all_seen(m: Map<Seq<u8>, Summary>) -> bool {
    forall|k: Seq<u8>| #[trigger] m.contains_key(k) ==> m[k].count >= 1
}

/// Both tables in one: a station of both has the readings of both, any other
/// station what its table held.
pub open spec fn merged(a: Map<Seq<u8>, Summary>, b: Map<Seq<u8>, Summary>) -> Map<
    Seq<u8>,
    Summary,
> {
    Map::new(
        |k: Seq<u8>| a.contains_key(k) || b.contains_key(k),
        |k: Seq<u8>|
            if b.contains_key(k) {
                summary_of(a, k).merge(b[k])
            } else {
                a[k]
            },
    )
}

/// The items with each name replaced by its bytes and each accumulator by what
/// it stands for.
pub open spec fn summaries(items: Seq<(&[u8], Stats)>) -> Seq<(Seq<u8>, Summary)> {
    Seq::new(items.len(), |i: int| (items[i].0@, items[i].1@))
}

/// Items that list the accumulators of a map list what the accumulators
/// stand for.
proof fn lemma_listed_summaries(items: Seq<(&[u8], Stats)>, held: Map<Seq<u8>, Stats>)
    requires
        lists(named(items), held),
    ensures
        lists(summaries(items), held.map_values(|s: Stats| s@)),
{
    let rows = summaries(items);
    let listed = named(items);
    let m = held.map_values(|s: Stats| s@);
    assert forall|i: int| 0 <= i < rows.len() implies m.contains_key((#[trigger] rows[i]).0) && m[rows[i].0]
        == rows[i].1 by {
        assert(listed[i] == (items[i].0@, items[i].1));
    }
    assert forall|i: int, j: int| 0 <= i < j < rows.len() implies (#[trigger] rows[i]).0 != (
    #[trigger] rows[j]).0 by {
        assert(listed[i].0 == rows[i].0 && listed[j].0 == rows[j].0);
    }
    assert forall|k: Seq<u8>| #[trigger] m.contains_key(k) implies exists|i: int|
        0 <= i < rows.len() && (#[trigger] rows[i]).0 == k by {
        let at = choose|i: int| 0 <= i < listed.len() && (#[trigger] listed[i]).0 == k;
        assert(rows[at].0 == k);
    }
}

/// A table from station names to their running statistics.
#[derive(Debug)]
pub struct Table<'a> {
    map: FxHashMap<&'a [u8], Stats>,
}

impl<'a> View for Table<'a> {
    type V = Map<Seq<u8>, Summary>;

    closed spec fn view(&self) -> Map<Seq<u8>, Summary> {
        held(&self.map).map_values(|s: Stats| s@)
    }
}

impl<'a> Table<'a> {
    /// What a table holds are summaries of accumulators, so each has a minimum
    /// of at most `i64::MAX` and a maximum of at least `i64::MIN`.
    pub proof fn view_is_bounded(self)
        ensures
            bounded(self@),
    {
        assert forall|k: Seq<u8>| #[trigger] self@.contains_key(k) implies self@[k].min <= i64::MAX
            && self@[k].max >= i64::MIN by {
            held(&self.map)[k].view_in_range();
        }
    }

    /// A table without stations.
    pub fn new() -> (table: Table<'a>)
        ensures
            table@ == Map::<Seq<u8>, Summary>::empty(),
    {
        let table = Table { map: map_new() };
        table
    }

    /// The statistics of the station `key`, where the table has the station.
    pub fn get(&self, key: &[u8]) -> (found: Option<Stats>)
        ensures
            match found {
                Some(stats) => self@.contains_key(key@) && stats@ == self@[key@],
                None => !self@.contains_key(key@),
            },
    {
        match map_get(&self.map, key) {
            Some(stats) => Some(*stats),
            None => None,
        }
    }

    /// The stations with their statistics, each station once, in no fixed
    /// order.
    pub fn entries(&self) -> (items: Vec<(&'a [u8], Stats)>)
        ensures
            lists(summaries(items@), self@),
    {
        let items = map_entries(&self.map);
        proof {
            lemma_listed_summaries(items@, held(&self.map));
        }
        items
    }

    /// The stations with their statistics, in the order of their names.
    pub fn sorted_entries(&self) -> (items: Vec<(&'a [u8], Stats)>)
        ensures
            ranks(summaries(items@), self@),
            summaries(items@) == ranking(self@),
    {
        let mut items = map_entries(&self.map);
        let ghost met = items@;
        sort_by_name(&mut items);
        proof {
            let held = held(&self.map);
            let sorted = named(items@);
            lemma_sorted_ranks(named(met), sorted, held);
            lemma_listed_summaries(items@, held);
            let rows = summaries(items@);
            assert forall|i: int, j: int| 0 <= i < j < rows.len() implies precedes(
                (#[trigger] rows[i]).0,
                (#[trigger] rows[j]).0,
            ) by {
                assert(precedes(sorted[i].0, sorted[j].0));
            }
            ranking_unique(rows, self@);
        }
        items
    }

    /// Takes in one reading of the station `key`.
    pub fn observe(&mut self, key: &'a [u8], reading: i64)
        requires
            summary_of(old(self)@, key@).count < u64::MAX,
        ensures
            final(self)@ == old(self)@.insert(key@, summary_of(old(self)@, key@).update(reading as int)),
            all_seen(old(self)@) ==> all_seen(final(self)@),
    {
        let slot = map_entry(&mut self.map, key).or_insert(Stats::default());
        slot.update(reading);
    }
}

/// For every station of `source` the readings of both tables are few enough
/// to be counted together.
pub open spec fn countable(target: Map<Seq<u8>, Summary>, source: Map<Seq<u8>, Summary>) -> bool {
    forall|k: Seq<u8>| #[trigger]
        source.contains_key(k) ==> summary_of(target, k).count + source[k].count <= u64::MAX
}

/// Whether `merge` can take `source` into `target`.
pub fn mergeable(target: &Table, source: &Table) -> (ok: bool)
    ensures
        ok == countable(target@, source@),
{
    let items = source.entries();
    let mut i: usize = 0;
    while i < items.len()
        invariant
            0 <= i <= items@.len(),
            lists(summaries(items@), source@),
            forall|j: int|
                0 <= j < i ==> summary_of(target@, (#[trigger] summaries(items@)[j]).0).count
                    + summaries(items@)[j].1.count <= u64::MAX,
        decreases items@.len() - i,
    {
        let stats = items[i].1;
        assert(summaries(items@)[i as int] == (items@[i as int].0@, stats@));
        let more = stats.count();
        match target.get(items[i].0) {
            Some(have) => {
                if have.count() > u64::MAX - more {
                    return false;
                }
            },
            None => {},
        }
        i = i + 1;
    }
    assert forall|k: Seq<u8>| #[trigger] source@.contains_key(k) implies summary_of(target@, k).count
        + source@[k].count <= u64::MAX by {
        // The station is among the items, and every item was weighed.
        let at = choose|j: int| 0 <= j < items@.len() && (#[trigger] summaries(items@)[j]).0 == k;
        assert(summaries(items@)[at].1 == source@[k]);
    }
    true
}

/// Takes into `target` all that `source` has seen.
pub fn merge<'a>(target: &mut Table<'a>, source: &Table<'a>)
    requires
        countable(old(target)@, source@),
    ensures
        final(target)@ == merged(old(target)@, source@),
        all_seen(old(target)@) && all_seen(source@) ==> all_seen(final(target)@),
{
    let items = map_entries(&source.map);
    let ghost before = target@;
    let ghost mut seen: Set<Seq<u8>> = Set::empty();
    let mut i: usize = 0;
    while i < items.len()
        invariant
            0 <= i <= items@.len(),
            lists(named(items@), held(&source.map)),
            countable(before, source@),
            forall|j: int| 0 <= j < i ==> seen.contains((#[trigger] named(items@)[j]).0),
            forall|j: int| i <= j < items@.len() ==> !seen.contains((#[trigger] named(items@)[j]).0),
            forall|k: Seq<u8>| #[trigger] seen.contains(k) ==> source@.contains_key(k),
            target@ == merged(before, source@.restrict(seen)),
        decreases items@.len() - i,
    {
        let key = items[i].0;
        let stats = items[i].1;
        let ghost current = target@;
        assert(named(items@)[i as int] == (key@, stats));
        assert(source@.contains_key(key@) && source@[key@] == stats@);
        assert(summary_of(current, key@) == summary_of(before, key@));
        let slot = map_entry(&mut target.map, key).or_insert(Stats::default());
        slot.merge(&stats);
        proof {
            seen = seen.insert(key@);
            assert(target@ =~= current.insert(key@, summary_of(current, key@).merge(stats@)));
        }
        i = i + 1;
    }
}

} // verus!
