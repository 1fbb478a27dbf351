use audio_range::headers::{decimal_string, plan_request, response_head};
use audio_range::range::RangeError;
use audio_range::resolve::{Disposition, ResolvedSpan};

#[test]
fn decimal_rendering_is_exact() {
    assert_eq!(decimal_string(0), "0");
    assert_eq!(decimal_string(7), "7");
    assert_eq!(decimal_string(10), "10");
    assert_eq!(decimal_string(8192), "8192");
    assert_eq!(decimal_string(10_000), "10000");
    assert_eq!(decimal_string(u64::MAX), "18446744073709551615");
}

#[test]
fn full_head_is_200_with_length() {
    let h = response_head(&Ok(Disposition::Full), 10_000);
    assert_eq!(h.status, 200);
    assert_eq!(h.content_length, Some(10_000));
    assert_eq!(h.content_range, None);
    assert!(h.accept_ranges);
}

#[test]
fn partial_head_is_206_with_content_range() {
    let span = ResolvedSpan { start: 9_990, end: 9_999, total: 10_000 };
    let h = response_head(&Ok(Disposition::Partial(span)), 10_000);
    assert_eq!(h.status, 206);
    assert_eq!(h.content_length, Some(10));
    assert_eq!(h.content_range.as_deref(), Some("bytes 9990-9999/10000"));
    assert!(h.accept_ranges);
}

#[test]
fn rejected_head_is_416_without_body() {
    let h = response_head(&Err(RangeError::Unsatisfiable), 10_000);
    assert_eq!(h.status, 416);
    assert_eq!(h.content_length, None);
    assert_eq!(h.content_range.as_deref(), Some("bytes */10000"));
}

#[test]
fn plan_without_header_serves_full() {
    let p = plan_request(None, 10_000);
    assert_eq!(p.disposition, Some(Disposition::Full));
    assert_eq!(p.head.status, 200);
    assert_eq!(p.head.content_length, Some(10_000));
    assert_eq!(p.head.content_range, None);
}

#[test]
fn plan_for_tail_range_is_206() {
    let p = plan_request(Some(b"bytes=9990-"), 10_000);
    assert_eq!(
        p.disposition,
        Some(Disposition::Partial(ResolvedSpan { start: 9_990, end: 9_999, total: 10_000 }))
    );
    assert_eq!(p.head.status, 206);
    assert_eq!(p.head.content_length, Some(10));
    assert_eq!(p.head.content_range.as_deref(), Some("bytes 9990-9999/10000"));
}

#[test]
fn plan_past_end_is_416() {
    let p = plan_request(Some(b"bytes=20000-"), 10_000);
    assert_eq!(p.disposition, None);
    assert_eq!(p.head.status, 416);
    assert_eq!(p.head.content_length, None);
    assert_eq!(p.head.content_range.as_deref(), Some("bytes */10000"));
}

#[test]
fn plan_for_malformed_header_is_416() {
    let p = plan_request(Some(b"bytes=nonsense"), 10_000);
    assert_eq!(p.disposition, None);
    assert_eq!(p.head.status, 416);
    assert_eq!(p.head.content_range.as_deref(), Some("bytes */10000"));
}

#[test]
fn plan_for_suffix_of_whole_asset() {
    let p = plan_request(Some(b"bytes=-20000"), 10_000);
    assert_eq!(
        p.disposition,
        Some(Disposition::Partial(ResolvedSpan { start: 0, end: 9_999, total: 10_000 }))
    );
    assert_eq!(p.head.status, 206);
    assert_eq!(p.head.content_length, Some(10_000));
    assert_eq!(p.head.content_range.as_deref(), Some("bytes 0-9999/10000"));
}
