use station_stats::record::{next_record, Scan};

fn record(buf: &[u8], pos: usize, end: usize) -> (Vec<u8>, Vec<u8>, usize) {
    match next_record(buf, pos, end) {
        Scan::Record { key, value, next } => (key.to_vec(), value.to_vec(), next),
        other => panic!("no record: {:?}", other),
    }
}

#[test]
fn reads_the_first_record() {
    let buf = b"Hamburg;12.0\nBerlin;5.5\n";
    assert_eq!(record(buf, 0, buf.len()), (b"Hamburg".to_vec(), b"12.0".to_vec(), 13));
    assert_eq!(record(buf, 13, buf.len()), (b"Berlin".to_vec(), b"5.5".to_vec(), 24));
    assert!(matches!(next_record(buf, 24, buf.len()), Scan::Done));
}

#[test]
fn last_line_needs_no_newline() {
    let buf = b"X;3.0";
    assert_eq!(record(buf, 0, 5), (b"X".to_vec(), b"3.0".to_vec(), 5));
    assert!(matches!(next_record(buf, 5, 5), Scan::Done));
}

#[test]
fn empty_lines_are_passed_over() {
    let buf = b"\n\na;1\n\n\nb;2\n\n";
    assert_eq!(record(buf, 0, buf.len()), (b"a".to_vec(), b"1".to_vec(), 6));
    assert_eq!(record(buf, 6, buf.len()), (b"b".to_vec(), b"2".to_vec(), 12));
    assert!(matches!(next_record(buf, 12, buf.len()), Scan::Done));
}

#[test]
fn splits_at_the_first_separator() {
    let buf = b"a;b;c\n";
    assert_eq!(record(buf, 0, buf.len()), (b"a".to_vec(), b"b;c".to_vec(), 6));
}

#[test]
fn name_or_reading_may_be_empty() {
    assert_eq!(record(b";7\n", 0, 3), (b"".to_vec(), b"7".to_vec(), 3));
    assert_eq!(record(b"k;\n", 0, 3), (b"k".to_vec(), b"".to_vec(), 3));
}

#[test]
fn line_without_separator_is_malformed() {
    let buf = b"a;1\nNoSeparatorHere\nb;2\n";
    match next_record(buf, 4, buf.len()) {
        Scan::Malformed { line } => assert_eq!(line, b"NoSeparatorHere"),
        other => panic!("not malformed: {:?}", other),
    }
}

#[test]
fn a_range_stops_at_its_end() {
    let buf = b"a;1\nb;2\n";
    assert_eq!(record(buf, 0, 3), (b"a".to_vec(), b"1".to_vec(), 3));
    assert!(matches!(next_record(buf, 3, 3), Scan::Done));
    // A range that ends inside a line reads the line up to that end.
    assert_eq!(record(buf, 4, 6), (b"b".to_vec(), b"".to_vec(), 6));
}

#[test]
fn a_range_outside_the_buffer_holds_nothing() {
    let buf = b"a;1\n";
    assert!(matches!(next_record(buf, 5, 4), Scan::Done));
    assert!(matches!(next_record(buf, 0, 5), Scan::Done));
    assert!(matches!(next_record(buf, 4, 4), Scan::Done));
    assert!(matches!(next_record(b"", 0, 0), Scan::Done));
}

#[test]
fn carriage_return_stays_in_the_reading() {
    let buf = b"a;1\r\n";
    assert_eq!(record(buf, 0, buf.len()), (b"a".to_vec(), b"1\r".to_vec(), 5));
}
