use mini_download_serve::range::{parse_range, RangeKind};

#[test]
fn no_header_is_the_whole_file() {
    assert_eq!(parse_range(None, 100), RangeKind::Full);
}

#[test]
fn a_span_of_bytes() {
    assert_eq!(parse_range(Some("bytes=0-9"), 100), RangeKind::Part(0, 10));
    assert_eq!(parse_range(Some("bytes=10-19"), 100), RangeKind::Part(10, 10));
    assert_eq!(parse_range(Some("bytes=5-5"), 100), RangeKind::Part(5, 1));
    assert_eq!(parse_range(Some("bytes=0-99"), 100), RangeKind::Part(0, 100));
}

#[test]
fn a_span_is_cut_at_the_end_of_the_file() {
    assert_eq!(parse_range(Some("bytes=90-500"), 100), RangeKind::Part(90, 10));
    assert_eq!(parse_range(Some("bytes=99-99"), 100), RangeKind::Part(99, 1));
    assert_eq!(
        parse_range(Some("bytes=99-18446744073709551615"), 100),
        RangeKind::Part(99, 1)
    );
}

#[test]
fn an_open_span_runs_to_the_end() {
    assert_eq!(parse_range(Some("bytes=0-"), 100), RangeKind::Part(0, 100));
    assert_eq!(parse_range(Some("bytes=42-"), 100), RangeKind::Part(42, 58));
    assert_eq!(parse_range(Some("bytes=99-"), 100), RangeKind::Part(99, 1));
}

#[test]
fn a_suffix_is_the_last_bytes() {
    assert_eq!(parse_range(Some("bytes=-10"), 100), RangeKind::Part(90, 10));
    assert_eq!(parse_range(Some("bytes=-500"), 100), RangeKind::Part(0, 100));
    assert_eq!(parse_range(Some("bytes=-0"), 100), RangeKind::Full);
    assert_eq!(parse_range(Some("bytes=-5"), 0), RangeKind::Part(0, 0));
}

#[test]
fn a_start_behind_the_end_is_refused() {
    assert_eq!(parse_range(Some("bytes=100-"), 100), RangeKind::Unsatisfiable);
    assert_eq!(parse_range(Some("bytes=100-200"), 100), RangeKind::Unsatisfiable);
    assert_eq!(parse_range(Some("bytes=0-"), 0), RangeKind::Unsatisfiable);
    assert_eq!(parse_range(Some("bytes=100-x"), 100), RangeKind::Unsatisfiable);
}

#[test]
fn several_ranges_are_the_whole_file() {
    assert_eq!(parse_range(Some("bytes=0-1,5-6"), 100), RangeKind::Full);
    assert_eq!(parse_range(Some("bytes=200-,"), 100), RangeKind::Full);
}

#[test]
fn a_span_that_ends_before_it_starts_is_the_whole_file() {
    assert_eq!(parse_range(Some("bytes=9-3"), 100), RangeKind::Full);
}

#[test]
fn malformed_ranges_are_the_whole_file() {
    for h in [
        "",
        "bytes",
        "bytes=",
        "bytes=7",
        "bytes=-",
        "bytes=a-b",
        "bytes=1-b",
        "bytes=--5",
        "bytes=- 5",
        "bytes=0x1-2",
        "bytes=18446744073709551616-",
        "items=0-9",
        "Bytes=0-9",
        " bytes=0-9",
    ] {
        assert_eq!(parse_range(Some(h), 100), RangeKind::Full, "{h:?}");
    }
}

#[test]
fn white_space_is_put_up_with() {
    assert_eq!(parse_range(Some("bytes= 3 - 7 "), 100), RangeKind::Part(3, 5));
    assert_eq!(parse_range(Some("bytes=\t3-\t"), 100), RangeKind::Part(3, 97));
    assert_eq!(parse_range(Some("bytes= -5 "), 100), RangeKind::Part(95, 5));
    assert_eq!(parse_range(Some("bytes=\u{3000}3-7\u{a0}"), 100), RangeKind::Part(3, 5));
}

#[test]
fn one_plus_sign_is_put_up_with() {
    assert_eq!(parse_range(Some("bytes=+3-+7"), 100), RangeKind::Part(3, 5));
    assert_eq!(parse_range(Some("bytes=-+5"), 100), RangeKind::Part(95, 5));
    assert_eq!(parse_range(Some("bytes=++3-7"), 100), RangeKind::Full);
    assert_eq!(parse_range(Some("bytes=+-7"), 100), RangeKind::Full);
}
