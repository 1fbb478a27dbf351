//! Response status and headers for a resolved request.
//!
//! Status 200 with `Content-Length` for a full response, 206 with
//! `Content-Range: bytes start-end/total` for a partial one, 416 with
//! `Content-Range: bytes */total` and no body for a rejected range.
//! `Accept-Ranges: bytes` is always advertised.

use vstd::prelude::*;
use vstd::string::StringExecFns;
use crate::range::{
    header_matches, lemma_header_matches_unique, parse_range_header, RangeError, RangeSpec,
};
use crate::resolve::{resolve, resolve_spec, Disposition};

verus! {

/// The character for one decimal digit.
pub open spec fn digit_char(d: nat) -> char
    recommends
        d < 10,
{
    if d == 0 {
        '0'
    } else if d == 1 {
        '1'
    } else if d == 2 {
        '2'
    } else if d == 3 {
        '3'
    } else if d == 4 {
        '4'
    } else if d == 5 {
        '5'
    } else if d == 6 {
        '6'
    } else if d == 7 {
        '7'
    } else if d == 8 {
        '8'
    } else {
        '9'
    }
}

/// The decimal digits of `n`, most significant first, with no leading
/// zeros; zero itself is the single digit `0`.
pub open spec fn decimal_digits(n: nat) -> Seq<char>
    decreases n,
{
    if n < 10 {
        seq![digit_char(n)]
    } else {
        decimal_digits(n / 10).push(digit_char(n % 10))
    }
}

/// One decimal digit as a string slice.
fn digit_str(d: u64) -> (s: &'static str)
    requires
        d < 10,
    ensures
        s@ == seq![digit_char(d as nat)],
{
    let s: &'static str = if d == 0 {
        "0"
    } else if d == 1 {
        "1"
    } else if d == 2 {
        "2"
    } else if d == 3 {
        "3"
    } else if d == 4 {
        "4"
    } else if d == 5 {
        "5"
    } else if d == 6 {
        "6"
    } else if d == 7 {
        "7"
    } else if d == 8 {
        "8"
    } else {
        "9"
    };
    proof {
        reveal_strlit("0");
        reveal_strlit("1");
        reveal_strlit("2");
        reveal_strlit("3");
        reveal_strlit("4");
        reveal_strlit("5");
        reveal_strlit("6");
        reveal_strlit("7");
        reveal_strlit("8");
        reveal_strlit("9");
        assert(s@ =~= seq![digit_char(d as nat)]);
    }
    s
}

/// Render `n` in decimal.
pub fn decimal_string(n: u64) -> (s: String)
    ensures
        s@ == decimal_digits(n as nat),
    decreases n,
{
    if n < 10 {
        String::from_str(digit_str(n))
    } else {
        let mut s = decimal_string(n / 10);
        s.append(digit_str(n % 10));
        proof {
            assert(s@ =~= decimal_digits((n / 10) as nat).push(digit_char((n % 10) as nat)));
        }
        s
    }
}

/// The value of a `Content-Range` header for a partial response:
/// `bytes start-end/total`.
pub open spec fn content_range_partial(start: u64, end: u64, total: u64) -> Seq<char> {
    seq!['b', 'y', 't', 'e', 's', ' '] + decimal_digits(start as nat) + seq!['-']
        + decimal_digits(end as nat) + seq!['/'] + decimal_digits(total as nat)
}

/// The value of a `Content-Range` header for a rejected range:
/// `bytes */total`.
pub open spec fn content_range_rejected(total: u64) -> Seq<char> {
    seq!['b', 'y', 't', 'e', 's', ' ', '*', '/'] + decimal_digits(total as nat)
}

/// Status line and headers of one response.
#[derive(Debug, PartialEq, Eq)]
pub struct ResponseHead {
    /// 200, 206 or 416.
    pub status: u16,
    /// Value of `Content-Length`; absent on a rejected range, whose
    /// response has no body.
    pub content_length: Option<u64>,
    /// Value of `Content-Range`, where one is owed.
    pub content_range: Option<String>,
    /// Whether `Accept-Ranges: bytes` is advertised; always true here.
    pub accept_ranges: bool,
}

/// What the head of a response must say for a given resolution outcome.
pub open spec fn head_describes(
    h: ResponseHead,
    outcome: Result<Disposition, RangeError>,
    total: u64,
) -> bool {
    &&& h.accept_ranges
    &&& match outcome {
        Ok(Disposition::Full) => {
            &&& h.status == 200
            &&& h.content_length == Some(total)
            &&& h.content_range is None
        },
        Ok(Disposition::Partial(span)) => {
            &&& h.status == 206
            &&& (match h.content_length {
                Some(n) => n as int == span.byte_count(),
                None => false,
            })
            &&& (match h.content_range {
                Some(v) => v@ == content_range_partial(span.start, span.end, span.total),
                None => false,
            })
        },
        Err(_) => {
            &&& h.status == 416
            &&& h.content_length is None
            &&& (match h.content_range {
                Some(v) => v@ == content_range_rejected(total),
                None => false,
            })
        },
    }
}

/// Build the status and headers owed for a resolution outcome against an
/// asset of `total` bytes.
pub fn response_head(outcome: &Result<Disposition, RangeError>, total: u64) -> (h: ResponseHead)
    requires
        (outcome matches Ok(d) ==> d.wf(total)),
    ensures
        head_describes(h, *outcome, total),
{
    match outcome {
        Ok(Disposition::Full) => ResponseHead {
            status: 200,
            content_length: Some(total),
            content_range: None,
            accept_ranges: true,
        },
        Ok(Disposition::Partial(span)) => {
            let mut v = String::from_str("bytes ");
            v.append(decimal_string(span.start).as_str());
            v.append("-");
            v.append(decimal_string(span.end).as_str());
            v.append("/");
            v.append(decimal_string(span.total).as_str());
            proof {
                reveal_strlit("bytes ");
                reveal_strlit("-");
                reveal_strlit("/");
                assert(v@ =~= content_range_partial(span.start, span.end, span.total));
            }
            ResponseHead {
                status: 206,
                content_length: Some(span.end - span.start + 1),
                content_range: Some(v),
                accept_ranges: true,
            }
        },
        Err(_) => {
            let mut v = String::from_str("bytes */");
            v.append(decimal_string(total).as_str());
            proof {
                reveal_strlit("bytes */");
                assert(v@ =~= content_range_rejected(total));
            }
            ResponseHead {
                status: 416,
                content_length: None,
                content_range: Some(v),
                accept_ranges: true,
            }
        },
    }
}

/// Everything decided about one request before any byte is served: the
/// head to send, and the disposition to stream — absent exactly when the
/// head is a 416 and there is no body.
pub struct RequestPlan {
    pub head: ResponseHead,
    pub disposition: Option<Disposition>,
}

/// What a plan must say for a given resolution outcome.
pub open spec fn plan_describes(
    p: RequestPlan,
    outcome: Result<Disposition, RangeError>,
    total: u64,
) -> bool {
    &&& head_describes(p.head, outcome, total)
    &&& match outcome {
        Ok(d) => p.disposition == Some(d) && d.wf(total),
        Err(_) => p.disposition is None,
    }
}

/// Decide one whole request: parse the `Range` header, if any, resolve it
/// against the asset's length, and build the response head.
///
/// An absent header serves the asset in full; a header that is not a
/// single well-formed `bytes=` range is rejected as unsupported, and the
/// plan is a bodyless 416.
pub fn plan_request(header: Option<&[u8]>, total: u64) -> (p: RequestPlan)
    ensures
        match header {
            None => plan_describes(p, resolve_spec(None, total), total),
            Some(h) => {
                &&& (forall|rs: RangeSpec| !header_matches(h@, rs)) ==> plan_describes(
                    p,
                    Err(RangeError::Unsupported),
                    total,
                )
                &&& forall|rs: RangeSpec| header_matches(h@, rs) ==> plan_describes(
                    p,
                    resolve_spec(Some(rs), total),
                    total,
                )
            },
        },
{
    match header {
        None => {
            let outcome = resolve(None, total);
            let head = response_head(&outcome, total);
            match outcome {
                Ok(d) => RequestPlan { head, disposition: Some(d) },
                Err(_) => RequestPlan { head, disposition: None },
            }
        },
        Some(h) => match parse_range_header(h) {
            Ok(first) => {
                let outcome = resolve(Some(first), total);
                let head = response_head(&outcome, total);
                let p = match outcome {
                    Ok(d) => RequestPlan { head, disposition: Some(d) },
                    Err(_) => RequestPlan { head, disposition: None },
                };
                proof {
                    assert forall|rs: RangeSpec| header_matches(h@, rs) implies plan_describes(
                        p,
                        resolve_spec(Some(rs), total),
                        total,
                    ) by {
                        lemma_header_matches_unique(h@, rs, first);
                    }
                }
                p
            },
            Err(e) => {
                let outcome: Result<Disposition, RangeError> = Err(e);
                let head = response_head(&outcome, total);
                RequestPlan { head, disposition: None }
            },
        },
    }
}

} // verus!
