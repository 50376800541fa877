use iobeam::range::{parse_range_header, ByteRange};

fn partial(offset: usize, length: usize) -> ByteRange {
    ByteRange::Partial { offset, length }
}

#[test]
fn closed_range_is_served_as_named() {
    assert_eq!(parse_range_header("bytes=0-99", 1000), partial(0, 100));
    assert_eq!(parse_range_header("bytes=10-10", 1000), partial(10, 1));
}

#[test]
fn open_ended_range_runs_to_the_end() {
    assert_eq!(parse_range_header("bytes=500-", 1000), partial(500, 500));
}

#[test]
fn suffix_range_takes_the_last_bytes() {
    assert_eq!(parse_range_header("bytes=-100", 1000), partial(900, 100));
    assert_eq!(parse_range_header("bytes=-2000", 1000), partial(0, 1000));
}

#[test]
fn range_past_the_end_is_clipped() {
    assert_eq!(parse_range_header("bytes=900-5000", 1000), partial(900, 100));
}

#[test]
fn unsatisfiable_ranges() {
    assert_eq!(parse_range_header("bytes=1000-", 1000), ByteRange::Unsatisfiable);
    assert_eq!(parse_range_header("bytes=5-2", 1000), ByteRange::Unsatisfiable);
    assert_eq!(parse_range_header("bytes=0-1,2-3", 1000), ByteRange::Unsatisfiable);
    assert_eq!(parse_range_header("items=0-1", 1000), ByteRange::Unsatisfiable);
    assert_eq!(parse_range_header("bytes=-0", 1000), ByteRange::Unsatisfiable);
    assert_eq!(parse_range_header("bytes=5", 1000), ByteRange::Unsatisfiable);
    assert_eq!(parse_range_header("bytes=a-5", 1000), ByteRange::Unsatisfiable);
    assert_eq!(parse_range_header("bytes=0-5x", 1000), ByteRange::Unsatisfiable);
    assert_eq!(parse_range_header("bytes=-5-", 1000), ByteRange::Unsatisfiable);
    assert_eq!(parse_range_header("", 1000), ByteRange::Unsatisfiable);
}

#[test]
fn empty_file_has_no_satisfiable_range() {
    assert_eq!(parse_range_header("bytes=0-", 0), ByteRange::Unsatisfiable);
    assert_eq!(parse_range_header("bytes=-5", 0), ByteRange::Unsatisfiable);
}

#[test]
fn whitespace_and_plus_signs_are_accepted_where_rust_parsing_accepts_them() {
    assert_eq!(parse_range_header("  bytes= 10 - 20 \t", 1000), partial(10, 11));
    assert_eq!(parse_range_header("bytes=+5-+6", 1000), partial(5, 2));
    assert_eq!(parse_range_header("\u{3000}bytes=1-2\u{a0}", 1000), partial(1, 2));
}

#[test]
fn numbers_beyond_usize_are_rejected() {
    assert_eq!(
        parse_range_header("bytes=0-99999999999999999999999", 1000),
        ByteRange::Unsatisfiable
    );
    assert_eq!(
        parse_range_header(&format!("bytes=0-{}", usize::MAX), 1000),
        partial(0, 1000)
    );
}

#[test]
fn a_partial_range_lies_inside_the_file() {
    for value in ["bytes=0-", "bytes=-1", "bytes=999-999", "bytes=3-", "bytes=-999999"] {
        for size in [1usize, 2, 999, 1000, 5000] {
            if let ByteRange::Partial { offset, length } = parse_range_header(value, size) {
                assert!(length >= 1);
                assert!(offset + length <= size);
            }
        }
    }
}

#[test]
fn an_omitted_end_means_the_last_byte() {
    for e in ["9", "10", "99999"] {
        assert_eq!(parse_range_header("bytes=3-", 10), parse_range_header(&format!("bytes=3-{}", e), 10));
    }
    assert_eq!(parse_range_header("bytes=3-", 10), partial(3, 7));
}

#[test]
fn surrounding_whitespace_is_ignored() {
    assert_eq!(parse_range_header("  bytes=2-4\t ", 10), parse_range_header("bytes=2-4", 10));
    assert_eq!(parse_range_header(" \u{3000}bytes=-3\n", 10), partial(7, 3));
}
