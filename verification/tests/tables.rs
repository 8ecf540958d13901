use station_stats::order::key_order;
use station_stats::report::{render_entries, report};
use station_stats::stats::Stats;
use station_stats::table::{merge, mergeable, Table};
use std::cmp::Ordering;

fn fields(stats: &Stats) -> (i64, i64, i128, u64) {
    (stats.min(), stats.max(), stats.sum(), stats.count())
}

fn listed(table: &Table) -> Vec<(Vec<u8>, (i64, i64, i128, u64))> {
    table.sorted_entries().iter().map(|(name, stats)| (name.to_vec(), fields(stats))).collect()
}

fn table_of<'a>(records: &[(&'a [u8], i64)]) -> Table<'a> {
    let mut table = Table::new();
    for (name, reading) in records {
        table.observe(name, *reading);
    }
    table
}

#[test]
fn new_table_is_empty() {
    let table = Table::new();
    assert!(table.sorted_entries().is_empty());
    assert!(table.get(b"Berlin").is_none());
    assert_eq!(report(&table), b"".to_vec());
}

#[test]
fn observe_makes_and_updates_entries() {
    let mut table = Table::new();
    table.observe(b"Hamburg", 120);
    assert_eq!(fields(&table.get(b"Hamburg").unwrap()), (120, 120, 120, 1));
    assert!(table.get(b"Berlin").is_none());
    table.observe(b"Berlin", 55);
    table.observe(b"Hamburg", 80);
    assert_eq!(fields(&table.get(b"Hamburg").unwrap()), (80, 120, 200, 2));
    assert_eq!(fields(&table.get(b"Berlin").unwrap()), (55, 55, 55, 1));
}

#[test]
fn names_are_told_apart_by_their_bytes() {
    let one = b"Bonn".to_vec();
    let other = b"Bonn".to_vec();
    let mut table = Table::new();
    table.observe(&one, 10);
    table.observe(&other, 30);
    assert_eq!(listed(&table), vec![(b"Bonn".to_vec(), (10, 30, 40, 2))]);
}

#[test]
fn entries_hold_every_station_once() {
    let table = table_of(&[(b"b", 1), (b"a", 2), (b"b", 3), (b"c", 4), (b"a", 5)]);
    let mut met: Vec<(Vec<u8>, (i64, i64, i128, u64))> =
        table.entries().iter().map(|(name, stats)| (name.to_vec(), fields(stats))).collect();
    met.sort();
    assert_eq!(
        met,
        vec![(b"a".to_vec(), (2, 5, 7, 2)), (b"b".to_vec(), (1, 3, 4, 2)), (b"c".to_vec(), (4, 4, 4, 1))]
    );
}

#[test]
fn sorted_entries_are_in_byte_order() {
    let table = table_of(&[
        (b"b", 1),
        (b"ab", 2),
        (b"a", 3),
        (b"B", 4),
        (b"", 5),
        (b"\xc3\x84", 6),
        (b"abc", 7),
        (b"a", 8),
    ]);
    let names: Vec<Vec<u8>> = listed(&table).into_iter().map(|(name, _)| name).collect();
    assert_eq!(
        names,
        vec![
            b"".to_vec(),
            b"B".to_vec(),
            b"a".to_vec(),
            b"ab".to_vec(),
            b"abc".to_vec(),
            b"b".to_vec(),
            b"\xc3\x84".to_vec()
        ]
    );
}

#[test]
fn sorted_entries_do_not_depend_on_the_order_of_arrival() {
    let names: Vec<Vec<u8>> = (0..200u32).map(|i| format!("station-{}", i * 7919 % 200).into_bytes()).collect();
    let mut forward = Table::new();
    for (i, name) in names.iter().enumerate() {
        forward.observe(name, i as i64);
    }
    let mut backward = Table::new();
    for (i, name) in names.iter().enumerate().rev() {
        backward.observe(name, i as i64);
    }
    assert_eq!(listed(&forward), listed(&backward));
    assert_eq!(listed(&forward).len(), 200);
}

#[test]
fn merge_takes_in_every_entry_of_the_source() {
    let mut target = table_of(&[(b"Hamburg", 120), (b"Berlin", 55)]);
    let source = table_of(&[(b"Hamburg", 80), (b"Bonn", -7), (b"Hamburg", 10)]);
    merge(&mut target, &source);
    assert_eq!(
        listed(&target),
        vec![
            (b"Berlin".to_vec(), (55, 55, 55, 1)),
            (b"Bonn".to_vec(), (-7, -7, -7, 1)),
            (b"Hamburg".to_vec(), (10, 120, 210, 3)),
        ]
    );
    assert_eq!(listed(&source).len(), 2);
}

#[test]
fn merge_with_an_empty_table_changes_nothing() {
    let mut target = table_of(&[(b"Hamburg", 120), (b"Berlin", 55)]);
    let before = listed(&target);
    merge(&mut target, &Table::new());
    assert_eq!(listed(&target), before);
    let mut empty = Table::new();
    merge(&mut empty, &target);
    assert_eq!(listed(&empty), before);
}

#[test]
fn merge_of_tables_is_associative() {
    let a = [(&b"x"[..], 1), (&b"y"[..], 2)];
    let b = [(&b"y"[..], 30), (&b"z"[..], -4)];
    let c = [(&b"x"[..], 500), (&b"z"[..], 6), (&b"w"[..], 0)];
    let mut left = table_of(&a);
    merge(&mut left, &table_of(&b));
    merge(&mut left, &table_of(&c));
    let mut tail = table_of(&b);
    merge(&mut tail, &table_of(&c));
    let mut right = table_of(&a);
    merge(&mut right, &tail);
    assert_eq!(listed(&left), listed(&right));
}

#[test]
fn key_order_is_byte_by_byte() {
    assert_eq!(key_order(b"a", b"b"), Ordering::Less);
    assert_eq!(key_order(b"b", b"a"), Ordering::Greater);
    assert_eq!(key_order(b"abc", b"abc"), Ordering::Equal);
    assert_eq!(key_order(b"ab", b"abc"), Ordering::Less);
    assert_eq!(key_order(b"abc", b"ab"), Ordering::Greater);
    assert_eq!(key_order(b"", b""), Ordering::Equal);
    assert_eq!(key_order(b"", b"a"), Ordering::Less);
    assert_eq!(key_order(b"Z", b"a"), Ordering::Less);
    assert_eq!(key_order(b"a\xff", b"b"), Ordering::Less);
    assert_eq!(key_order(b"\x7f", b"\x80"), Ordering::Less);
}

#[test]
fn key_order_agrees_with_the_order_of_slices() {
    let names: [&[u8]; 7] = [b"", b"a", b"ab", b"b", b"B", b"\xc3\x84", b"abc"];
    for a in names {
        for b in names {
            assert_eq!(key_order(a, b), a.cmp(b));
        }
    }
}

#[test]
fn report_joins_the_stations_with_comma_and_blank() {
    let table = table_of(&[(b"Hamburg", 120), (b"Berlin", 55), (b"Hamburg", 80), (b"Berlin", 142)]);
    assert_eq!(report(&table), b"Berlin=5.5/9.9/14.2, Hamburg=8.0/10.0/12.0".to_vec());
}

#[test]
fn report_of_one_station_has_no_separator() {
    assert_eq!(report(&table_of(&[(b"X", 30)])), b"X=3.0/3.0/3.0".to_vec());
}

#[test]
fn render_entries_keeps_the_order_given() {
    let mut a = Stats::default();
    a.update(-15);
    let mut b = Stats::default();
    b.update(20);
    b.update(21);
    let items: Vec<(&[u8], Stats)> = vec![(b"z", a), (b"a", b)];
    assert_eq!(render_entries(&items), b"z=-1.5/-1.5/-1.5, a=2.0/2.1/2.1".to_vec());
    assert_eq!(render_entries(&[]), b"".to_vec());
}

#[test]
fn mergeable_says_when_the_counts_fit() {
    let mut a = table_of(&[(b"x", 1), (b"y", 5)]);
    let mut b = table_of(&[(b"x", 2)]);
    let (mut in_a, mut in_b) = (1u128, 1u128);
    let mut merges = 0;
    while in_a + in_b <= u64::MAX as u128 {
        assert!(mergeable(&a, &b));
        merge(&mut a, &b);
        in_a += in_b;
        assert_eq!(a.get(b"x").unwrap().count() as u128, in_a);
        std::mem::swap(&mut a, &mut b);
        std::mem::swap(&mut in_a, &mut in_b);
        merges += 1;
    }
    assert_eq!(merges, 91);
    assert!(!mergeable(&a, &b));
    assert!(!mergeable(&b, &a));
    assert!(mergeable(&a, &table_of(&[(b"y", 1), (b"z", 1)])));
    assert!(mergeable(&a, &Table::new()));
}
