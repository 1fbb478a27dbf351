//! Resolving a range specification against an asset's total length.
//!
//! The resolver decides, for one request, whether to serve the whole asset,
//! a concrete sub-span of it, or a 416 rejection. It is a pure function of
//! the specification and the total length.

use vstd::prelude::*;
use crate::range::{RangeError, RangeSpec};

verus! {

/// A concrete byte span the server commits to returning: `start` and `end`
/// are inclusive absolute offsets into an asset of `total` bytes.
#[derive(Clone, Copy, Debug, PartialEq, Eq)]
pub struct ResolvedSpan {
    pub start: u64,
    pub end: u64,
    pub total: u64,
}

impl ResolvedSpan {
    /// The invariant every resolved span satisfies: a non-empty interval
    /// that lies wholly inside the asset.
    pub open spec fn wf(self) -> bool {
        self.start <= self.end < self.total
    }

    /// How many bytes the span covers.
    pub open spec fn byte_count(self) -> int {
        self.end - self.start + 1
    }
}

/// How a request is to be answered: the whole asset (status 200) or one
/// sub-span of it (status 206).
#[derive(Clone, Copy, Debug, PartialEq, Eq)]
pub enum Disposition {
    Full,
    Partial(ResolvedSpan),
}

impl Disposition {
    /// Well-formedness against the asset the disposition was resolved for.
    pub open spec fn wf(self, total: u64) -> bool {
        match self {
            Disposition::Full => true,
            Disposition::Partial(span) => span.wf() && span.total == total,
        }
    }

    /// Absolute offset of the first byte to serve.
    pub open spec fn first_offset(self) -> int {
        match self {
            Disposition::Full => 0,
            Disposition::Partial(span) => span.start as int,
        }
    }

    /// Number of bytes to serve out of an asset of `total` bytes.
    pub open spec fn span_len(self, total: u64) -> int {
        match self {
            Disposition::Full => total as int,
            Disposition::Partial(span) => span.byte_count(),
        }
    }
}

/// The resolution rules as one mathematical function.
///
/// - An absent range serves the whole asset.
/// - An explicit range starting at or past the end is unsatisfiable; an
///   overshooting or absent end is clamped to the last byte; a start beyond
///   the (clamped) end is unsatisfiable.
/// - A suffix takes the last `count` bytes, clamped to the whole asset; an
///   empty suffix, or any suffix of an empty asset, is unsatisfiable.
pub open spec fn resolve_spec(range: Option<RangeSpec>, total: u64) -> Result<
    Disposition,
    RangeError,
> {
    match range {
        None => Ok(Disposition::Full),
        Some(RangeSpec::Explicit { start, end }) => {
            if start >= total {
                Err(RangeError::Unsatisfiable)
            } else {
                let last = match end {
                    None => (total - 1) as u64,
                    Some(e) => if e >= total {
                        (total - 1) as u64
                    } else {
                        e
                    },
                };
                if start > last {
                    Err(RangeError::Unsatisfiable)
                } else {
                    Ok(Disposition::Partial(ResolvedSpan { start, end: last, total }))
                }
            }
        },
        Some(RangeSpec::Suffix { count }) => {
            if count == 0 || total == 0 {
                Err(RangeError::Unsatisfiable)
            } else {
                let first = if count >= total {
                    0u64
                } else {
                    (total - count) as u64
                };
                Ok(
                    Disposition::Partial(
                        ResolvedSpan { start: first, end: (total - 1) as u64, total },
                    ),
                )
            }
        },
    }
}

/// Resolve `range` against an asset of `total` bytes.
///
/// Returns the disposition the resolution rules prescribe; any `Ok` span is
/// well-formed, so downstream code may treat it as the sole source of truth
/// for what to serve.
pub fn resolve(range: Option<RangeSpec>, total: u64) -> (r: Result<Disposition, RangeError>)
    ensures
        r == resolve_spec(range, total),
        r matches Ok(d) ==> d.wf(total),
{
    match range {
        None => Ok(Disposition::Full),
        Some(RangeSpec::Explicit { start, end }) => {
            if start >= total {
                Err(RangeError::Unsatisfiable)
            } else {
                let last: u64 = match end {
                    None => total - 1,
                    Some(e) => if e >= total {
                        total - 1
                    } else {
                        e
                    },
                };
                if start > last {
                    Err(RangeError::Unsatisfiable)
                } else {
                    Ok(Disposition::Partial(ResolvedSpan { start, end: last, total }))
                }
            }
        },
        Some(RangeSpec::Suffix { count }) => {
            if count == 0 || total == 0 {
                Err(RangeError::Unsatisfiable)
            } else {
                let first: u64 = if count >= total {
                    0
                } else {
                    total - count
                };
                Ok(Disposition::Partial(ResolvedSpan { start: first, end: total - 1, total }))
            }
        },
    }
}

/// An absent range always resolves to serving the whole asset.
pub proof fn law_absent_range_is_full(total: u64)
    ensures
        resolve_spec(None, total) == Ok::<Disposition, RangeError>(Disposition::Full),
{
}

/// Any explicit request of a valid span `start <= end < total` resolves to
/// exactly that span.
pub proof fn law_valid_explicit_is_identity(start: u64, end: u64, total: u64)
    requires
        start <= end < total,
    ensures
        resolve_spec(Some(RangeSpec::Explicit { start, end: Some(end) }), total)
            == Ok::<Disposition, RangeError>(
            Disposition::Partial(ResolvedSpan { start, end, total }),
        ),
{
}

/// Any explicit request starting at or past the end of the asset is
/// unsatisfiable, whatever its end bound.
pub proof fn law_start_past_end_unsatisfiable(start: u64, end: Option<u64>, total: u64)
    requires
        start >= total,
    ensures
        resolve_spec(Some(RangeSpec::Explicit { start, end }), total)
            == Err::<Disposition, RangeError>(RangeError::Unsatisfiable),
{
}

/// A suffix asking for at least the whole of a non-empty asset is clamped
/// to the whole asset, not rejected.
pub proof fn law_oversized_suffix_clamped(count: u64, total: u64)
    requires
        count >= total,
        total > 0,
    ensures
        resolve_spec(Some(RangeSpec::Suffix { count }), total)
            == Ok::<Disposition, RangeError>(
            Disposition::Partial(ResolvedSpan { start: 0, end: (total - 1) as u64, total }),
        ),
{
}

} // verus!
