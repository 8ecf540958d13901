use station_stats::chunker::chunk;
use station_stats::scan::find_byte;

const SAMPLE: &[u8] = b"Hamburg;12.0\nBerlin;5.5\nHamburg;8.0\nBerlin;14.2\n";

fn assert_line_partition(buf: &[u8], chunks: &[(usize, usize)]) {
    assert_eq!(chunks[0].0, 0);
    assert_eq!(chunks[chunks.len() - 1].1, buf.len());
    for (start, end) in chunks {
        assert!(*start <= *end + 1);
        assert!(*end == buf.len() || buf[*end] == b'\n');
    }
    for pair in chunks.windows(2) {
        assert_eq!(pair[1].0, pair[0].1 + 1);
    }
}

#[test]
fn one_chunk_covers_the_buffer() {
    assert_eq!(chunk(SAMPLE, 1), vec![(0, 48)]);
}

#[test]
fn two_chunks_meet_at_a_newline() {
    // 48 / 2 = 24: the byte at 24 is inside the third line, which ends at 35.
    assert_eq!(chunk(SAMPLE, 2), vec![(0, 35), (36, 48)]);
}

#[test]
fn a_tentative_end_on_a_newline_stays() {
    let buf = b"ab\ncd\nef\n";
    // 9 / 3 = 3: the first newline at or behind 3 is at 5, behind 6 + 3 at 9.
    assert_eq!(chunk(buf, 3), vec![(0, 5), (6, 9), (10, 9)]);
}

#[test]
fn more_chunks_than_lines_leaves_empty_chunks() {
    let chunks = chunk(b"a;1\nb;2\n", 5);
    assert_eq!(chunks, vec![(0, 3), (4, 7), (8, 8), (9, 8), (9, 8)]);
    assert_line_partition(b"a;1\nb;2\n", &chunks);
}

#[test]
fn empty_buffer_gives_empty_chunks() {
    assert_eq!(chunk(b"", 1), vec![(0, 0)]);
    assert_eq!(chunk(b"", 3), vec![(0, 0), (1, 0), (1, 0)]);
}

#[test]
fn buffer_without_final_newline_ends_the_last_chunk() {
    let buf = b"a;1\nb;2\nc;3";
    let chunks = chunk(buf, 2);
    assert_eq!(chunks, vec![(0, 7), (8, 11)]);
    assert_line_partition(buf, &chunks);
}

#[test]
fn buffer_without_any_newline_is_one_chunk() {
    assert_eq!(chunk(b"X;3.0", 4), vec![(0, 5), (6, 5), (6, 5), (6, 5)]);
}

#[test]
fn chunks_partition_the_buffer_for_every_degree() {
    for cores in 1..=60 {
        let chunks = chunk(SAMPLE, cores);
        assert_eq!(chunks.len(), cores);
        assert_line_partition(SAMPLE, &chunks);
    }
}

#[test]
fn every_byte_lies_in_one_chunk() {
    for cores in 1..=10 {
        let chunks = chunk(SAMPLE, cores);
        for at in 0..SAMPLE.len() {
            let owners = chunks.iter().filter(|(start, end)| *start <= at && at <= *end).count();
            assert_eq!(owners, 1);
        }
    }
}

#[test]
fn find_byte_finds_the_first_in_the_window() {
    let buf = b"a;b;c\nd";
    assert_eq!(find_byte(buf, b';', 0, buf.len()), 1);
    assert_eq!(find_byte(buf, b';', 2, buf.len()), 3);
    assert_eq!(find_byte(buf, b'\n', 0, buf.len()), 5);
}

#[test]
fn find_byte_stops_at_the_end_of_the_window() {
    let buf = b"a;b;c\nd";
    assert_eq!(find_byte(buf, b'\n', 0, 5), 5);
    assert_eq!(find_byte(buf, b';', 4, 7), 7);
    assert_eq!(find_byte(buf, b'a', 3, 3), 3);
}

#[test]
fn a_cut_inside_a_character_moves_to_the_newline() {
    let buf = "Zürich;1.0\nÄänekoski;2.0\nŁódź;3.0\n".as_bytes();
    for cores in 1..=buf.len() {
        let chunks = chunk(buf, cores);
        assert_line_partition(buf, &chunks);
        for (start, end) in chunks {
            if start <= end {
                assert!(std::str::from_utf8(&buf[start..end]).is_ok());
            }
        }
    }
}
