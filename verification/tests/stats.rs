use station_stats::decimal::push_tenths;
use station_stats::stats::Stats;

fn seen(readings: &[i64]) -> Stats {
    let mut stats = Stats::default();
    for reading in readings {
        stats.update(*reading);
    }
    stats
}

fn fields(stats: &Stats) -> (i64, i64, i128, u64) {
    (stats.min(), stats.max(), stats.sum(), stats.count())
}

fn tenths(value: i64) -> String {
    let mut out = Vec::new();
    push_tenths(&mut out, value);
    String::from_utf8(out).unwrap()
}

#[test]
fn default_has_seen_nothing() {
    assert_eq!(fields(&Stats::default()), (i64::MAX, i64::MIN, 0, 0));
}

#[test]
fn update_tracks_min_max_sum_count() {
    let stats = seen(&[120, -35, 80]);
    assert_eq!(fields(&stats), (-35, 120, 165, 3));
}

#[test]
fn update_with_one_reading() {
    assert_eq!(fields(&seen(&[30])), (30, 30, 30, 1));
}

#[test]
fn update_with_the_widest_readings() {
    let stats = seen(&[i64::MAX, i64::MIN, i64::MAX]);
    assert_eq!(fields(&stats), (i64::MIN, i64::MAX, i64::MAX as i128 - 1, 3));
}

#[test]
fn merge_adds_up() {
    let mut a = seen(&[120, 80]);
    a.merge(&seen(&[55, 142, -10]));
    assert_eq!(fields(&a), (-10, 142, 387, 5));
}

#[test]
fn merge_is_associative() {
    let (a, b, c) = (seen(&[1, 70]), seen(&[-400]), seen(&[9, 9, 1000]));
    let mut left = a;
    left.merge(&b);
    left.merge(&c);
    let mut tail = b;
    tail.merge(&c);
    let mut right = a;
    right.merge(&tail);
    assert_eq!(fields(&left), fields(&right));
    assert_eq!(fields(&left), (-400, 1000, 689, 6));
}

#[test]
fn merge_is_commutative() {
    let (a, b) = (seen(&[1, 70]), seen(&[-400]));
    let mut ab = a;
    ab.merge(&b);
    let mut ba = b;
    ba.merge(&a);
    assert_eq!(fields(&ab), fields(&ba));
}

#[test]
fn merge_with_default_changes_nothing() {
    let a = seen(&[55, 142]);
    let mut left = a;
    left.merge(&Stats::default());
    assert_eq!(fields(&left), fields(&a));
    let mut right = Stats::default();
    right.merge(&a);
    assert_eq!(fields(&right), fields(&a));
}

#[test]
fn merge_of_two_defaults_is_default() {
    let mut a = Stats::default();
    a.merge(&Stats::default());
    assert_eq!(fields(&a), fields(&Stats::default()));
}

#[test]
fn mean_is_exact_where_it_divides() {
    assert_eq!(seen(&[120, 80]).mean(), 100);
    assert_eq!(seen(&[30]).mean(), 30);
}

#[test]
fn mean_rounds_a_half_away_from_zero() {
    // 19.7 / 2 = 9.85, -0.5 / 2 = -0.25
    assert_eq!(seen(&[55, 142]).mean(), 99);
    assert_eq!(seen(&[-2, -3]).mean(), -3);
    assert_eq!(seen(&[2, 3]).mean(), 3);
}

#[test]
fn mean_rounds_to_the_nearest() {
    // 1.0 / 3 = 0.33.., 2.0 / 3 = 0.66.., and below zero
    assert_eq!(seen(&[10, 0, 0]).mean(), 3);
    assert_eq!(seen(&[10, 10, 0]).mean(), 7);
    assert_eq!(seen(&[-10, 0, 0]).mean(), -3);
    assert_eq!(seen(&[-10, -10, 0]).mean(), -7);
}

#[test]
fn mean_of_the_widest_readings() {
    assert_eq!(seen(&[i64::MIN, i64::MIN]).mean(), i64::MIN);
    assert_eq!(seen(&[i64::MAX, i64::MAX, i64::MAX]).mean(), i64::MAX);
    assert_eq!(seen(&[i64::MIN, i64::MAX]).mean(), -1);
}

#[test]
fn tenths_are_written_with_one_digit() {
    assert_eq!(tenths(0), "0.0");
    assert_eq!(tenths(5), "0.5");
    assert_eq!(tenths(-5), "-0.5");
    assert_eq!(tenths(120), "12.0");
    assert_eq!(tenths(-999), "-99.9");
    assert_eq!(tenths(1005), "100.5");
}

#[test]
fn tenths_of_the_widest_readings() {
    assert_eq!(tenths(i64::MAX), "922337203685477580.7");
    assert_eq!(tenths(i64::MIN), "-922337203685477580.8");
}

#[test]
fn render_writes_min_mean_max() {
    assert_eq!(seen(&[55, 142]).render(), b"5.5/9.9/14.2".to_vec());
    assert_eq!(seen(&[30]).render(), b"3.0/3.0/3.0".to_vec());
    assert_eq!(seen(&[-123, 7]).render(), b"-12.3/-5.8/0.7".to_vec());
}

#[test]
fn render_into_appends() {
    let mut out = b"X=".to_vec();
    seen(&[120, 80]).render_into(&mut out);
    assert_eq!(out, b"X=8.0/10.0/12.0".to_vec());
}
