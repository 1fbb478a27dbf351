use audio_range::range::{RangeError, RangeSpec};
use audio_range::resolve::{resolve, Disposition, ResolvedSpan};

#[test]
fn absent_range_serves_full() {
    assert_eq!(resolve(None, 10_000), Ok(Disposition::Full));
}

#[test]
fn absent_range_serves_full_even_when_empty() {
    assert_eq!(resolve(None, 0), Ok(Disposition::Full));
}

#[test]
fn valid_explicit_range_kept_exactly() {
    assert_eq!(
        resolve(Some(RangeSpec::Explicit { start: 200, end: Some(999) }), 10_000),
        Ok(Disposition::Partial(ResolvedSpan { start: 200, end: 999, total: 10_000 }))
    );
}

#[test]
fn overshooting_end_is_clamped() {
    assert_eq!(
        resolve(Some(RangeSpec::Explicit { start: 0, end: Some(20_000) }), 10_000),
        Ok(Disposition::Partial(ResolvedSpan { start: 0, end: 9_999, total: 10_000 }))
    );
}

#[test]
fn open_end_runs_to_last_byte() {
    assert_eq!(
        resolve(Some(RangeSpec::Explicit { start: 9_990, end: None }), 10_000),
        Ok(Disposition::Partial(ResolvedSpan { start: 9_990, end: 9_999, total: 10_000 }))
    );
}

#[test]
fn start_at_total_is_unsatisfiable() {
    assert_eq!(
        resolve(Some(RangeSpec::Explicit { start: 10_000, end: None }), 10_000),
        Err(RangeError::Unsatisfiable)
    );
}

#[test]
fn start_past_total_is_unsatisfiable() {
    assert_eq!(
        resolve(Some(RangeSpec::Explicit { start: 20_000, end: Some(30_000) }), 10_000),
        Err(RangeError::Unsatisfiable)
    );
}

#[test]
fn inverted_range_is_unsatisfiable() {
    assert_eq!(
        resolve(Some(RangeSpec::Explicit { start: 5, end: Some(3) }), 10_000),
        Err(RangeError::Unsatisfiable)
    );
}

#[test]
fn suffix_takes_last_bytes() {
    assert_eq!(
        resolve(Some(RangeSpec::Suffix { count: 10 }), 10_000),
        Ok(Disposition::Partial(ResolvedSpan { start: 9_990, end: 9_999, total: 10_000 }))
    );
}

#[test]
fn oversized_suffix_clamps_to_whole_asset() {
    assert_eq!(
        resolve(Some(RangeSpec::Suffix { count: 20_000 }), 10_000),
        Ok(Disposition::Partial(ResolvedSpan { start: 0, end: 9_999, total: 10_000 }))
    );
}

#[test]
fn suffix_of_exactly_total_covers_whole_asset() {
    assert_eq!(
        resolve(Some(RangeSpec::Suffix { count: 7 }), 7),
        Ok(Disposition::Partial(ResolvedSpan { start: 0, end: 6, total: 7 }))
    );
}

#[test]
fn empty_suffix_is_unsatisfiable() {
    assert_eq!(resolve(Some(RangeSpec::Suffix { count: 0 }), 10_000), Err(RangeError::Unsatisfiable));
}

#[test]
fn any_range_on_empty_asset_is_unsatisfiable() {
    assert_eq!(
        resolve(Some(RangeSpec::Explicit { start: 0, end: Some(0) }), 0),
        Err(RangeError::Unsatisfiable)
    );
    assert_eq!(resolve(Some(RangeSpec::Suffix { count: 5 }), 0), Err(RangeError::Unsatisfiable));
}
