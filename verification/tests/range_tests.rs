use audio_range::range::{parse_range_header, RangeError, RangeSpec};

#[test]
fn parse_bounded_range() {
    assert_eq!(
        parse_range_header(b"bytes=0-499"),
        Ok(RangeSpec::Explicit { start: 0, end: Some(499) })
    );
}

#[test]
fn parse_open_range() {
    assert_eq!(
        parse_range_header(b"bytes=9990-"),
        Ok(RangeSpec::Explicit { start: 9990, end: None })
    );
}

#[test]
fn parse_suffix_range() {
    assert_eq!(parse_range_header(b"bytes=-500"), Ok(RangeSpec::Suffix { count: 500 }));
}

#[test]
fn parse_keeps_leading_zeros_value() {
    assert_eq!(
        parse_range_header(b"bytes=007-010"),
        Ok(RangeSpec::Explicit { start: 7, end: Some(10) })
    );
}

#[test]
fn parse_largest_start() {
    assert_eq!(
        parse_range_header(b"bytes=18446744073709551615-"),
        Ok(RangeSpec::Explicit { start: u64::MAX, end: None })
    );
}

#[test]
fn multi_range_is_unsupported() {
    assert_eq!(parse_range_header(b"bytes=0-5,10-15"), Err(RangeError::Unsupported));
}

#[test]
fn malformed_headers_are_unsupported() {
    assert_eq!(parse_range_header(b""), Err(RangeError::Unsupported));
    assert_eq!(parse_range_header(b"bytes="), Err(RangeError::Unsupported));
    assert_eq!(parse_range_header(b"bytes=-"), Err(RangeError::Unsupported));
    assert_eq!(parse_range_header(b"bytes=5"), Err(RangeError::Unsupported));
    assert_eq!(parse_range_header(b"bytes=abc"), Err(RangeError::Unsupported));
    assert_eq!(parse_range_header(b"bytes=1-2-3"), Err(RangeError::Unsupported));
    assert_eq!(parse_range_header(b"items=0-5"), Err(RangeError::Unsupported));
    assert_eq!(parse_range_header(b"bytes= 0-5"), Err(RangeError::Unsupported));
}

#[test]
fn oversized_bound_is_unsupported() {
    // One past u64::MAX.
    assert_eq!(
        parse_range_header(b"bytes=18446744073709551616-"),
        Err(RangeError::Unsupported)
    );
    assert_eq!(
        parse_range_header(b"bytes=-99999999999999999999"),
        Err(RangeError::Unsupported)
    );
}
