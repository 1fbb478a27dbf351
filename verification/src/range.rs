//! The HTTP `Range` request header: its grammar and its parser.
//!
//! A header names at most one contiguous span, `bytes=start-end`,
//! `bytes=start-` or `bytes=-count`. Multi-range headers and anything else
//! that does not fit this grammar are rejected as unsupported.

use vstd::prelude::*;

verus! {

/// A client-supplied byte-range specification, the payload of a
/// `Range: bytes=...` request header.
#[derive(Clone, Copy, Debug, PartialEq, Eq)]
pub enum RangeSpec {
    /// `bytes=start-end` (both bounds inclusive) or, with `end` absent,
    /// `bytes=start-` meaning "from `start` to the end of the asset".
    Explicit { start: u64, end: Option<u64> },
    /// `bytes=-count`: the final `count` bytes of the asset.
    Suffix { count: u64 },
}

/// Why a range request cannot be honored. Either way the response is a 416
/// with a `Content-Range: bytes */<total>` header and no body.
#[derive(Clone, Copy, Debug, PartialEq, Eq)]
pub enum RangeError {
    /// The requested span does not intersect the asset's actual extent
    /// (start at or past the end, empty suffix, or start beyond end).
    Unsatisfiable,
    /// The header is not a single well-formed `bytes=` range: several
    /// comma-separated spans, a malformed spec, or a bound too large to
    /// represent.
    Unsupported,
}

/// ASCII `'-'`.
pub const DASH: u8 = 45;

/// ASCII `'0'`.
pub const DIGIT_ZERO: u8 = 48;

/// ASCII `'9'`.
pub const DIGIT_NINE: u8 = 57;

/// Whether `b` is an ASCII decimal digit.
pub open spec fn is_ascii_digit(b: u8) -> bool {
    DIGIT_ZERO <= b && b <= DIGIT_NINE
}

/// Whether every byte of `s` is an ASCII decimal digit.
pub open spec fn all_ascii_digits(s: Seq<u8>) -> bool {
    forall|i: int| 0 <= i < s.len() ==> is_ascii_digit(#[trigger] s[i])
}

/// Numeric value of one digit byte.
pub open spec fn digit_value(b: u8) -> nat
    recommends
        is_ascii_digit(b),
{
    (b - DIGIT_ZERO) as nat
}

/// Value of a digit string read in base ten, most significant digit first.
/// Leading zeros are permitted and do not change the value.
pub open spec fn decimal_value(s: Seq<u8>) -> nat
    recommends
        all_ascii_digits(s),
    decreases s.len(),
{
    if s.len() == 0 {
        0
    } else {
        decimal_value(s.drop_last()) * 10 + digit_value(s.last())
    }
}

/// The six bytes of `"bytes="`, the required prefix of every range header.
pub open spec fn bytes_unit_prefix() -> Seq<u8> {
    seq![98u8, 121u8, 116u8, 101u8, 115u8, 61u8]
}

/// Whether `body` (the header after `"bytes="`) is a suffix spec `-digits`
/// whose value is `count`.
pub open spec fn suffix_matches(body: Seq<u8>, count: u64) -> bool {
    &&& body.len() >= 2
    &&& body[0] == DASH
    &&& all_ascii_digits(body.skip(1))
    &&& decimal_value(body.skip(1)) == count as nat
}

/// Whether `body` is an explicit spec `digits-` or `digits-digits` with the
/// dash at index `k` and the stated bounds.
pub open spec fn explicit_matches_at(body: Seq<u8>, start: u64, end: Option<u64>, k: int) -> bool {
    &&& 1 <= k < body.len()
    &&& body[k] == DASH
    &&& all_ascii_digits(body.subrange(0, k))
    &&& decimal_value(body.subrange(0, k)) == start as nat
    &&& match end {
        None => k == body.len() - 1,
        Some(e) => {
            &&& k < body.len() - 1
            &&& all_ascii_digits(body.skip(k + 1))
            &&& decimal_value(body.skip(k + 1)) == e as nat
        },
    }
}

/// Whether `body` is an explicit spec with the stated bounds, wherever its
/// dash stands.
pub open spec fn explicit_matches(body: Seq<u8>, start: u64, end: Option<u64>) -> bool {
    exists|k: int| explicit_matches_at(body, start, end, k)
}

/// Whether the whole header `h` is a well-formed single-range `bytes=` spec
/// that denotes `r`. This is the grammar the parser recognizes.
pub open spec fn header_matches(h: Seq<u8>, r: RangeSpec) -> bool {
    &&& h.len() > 6
    &&& h.subrange(0, 6) == bytes_unit_prefix()
    &&& match r {
        RangeSpec::Explicit { start, end } => explicit_matches(h.skip(6), start, end),
        RangeSpec::Suffix { count } => suffix_matches(h.skip(6), count),
    }
}

/// Extending a digit string by one digit multiplies its value by ten and
/// adds the digit.
proof fn lemma_decimal_value_step(s: Seq<u8>, from: int, i: int)
    requires
        0 <= from <= i < s.len(),
    ensures
        decimal_value(s.subrange(from, i + 1)) == decimal_value(s.subrange(from, i)) * 10
            + digit_value(s[i]),
{
    let longer = s.subrange(from, i + 1);
    assert(longer.drop_last() =~= s.subrange(from, i));
    assert(longer.last() == s[i]);
}

/// A digit string's value is at least the value of any of its prefixes.
proof fn lemma_decimal_value_prefix_le(s: Seq<u8>, n: int)
    requires
        0 <= n <= s.len(),
    ensures
        decimal_value(s.subrange(0, n)) <= decimal_value(s),
    decreases s.len() - n,
{
    if n == s.len() {
        assert(s.subrange(0, n) =~= s);
    } else {
        let shorter = s.subrange(0, s.len() - 1);
        assert(shorter =~= s.drop_last());
        lemma_decimal_value_prefix_le(shorter, n);
        assert(shorter.subrange(0, n) =~= s.subrange(0, n));
        assert(decimal_value(s) == decimal_value(s.drop_last()) * 10 + digit_value(s.last()));
    }
}

/// Parse the digit string `s[from..to]` as a base-ten `u64`.
///
/// Returns its value exactly when every byte in the window is a digit and
/// the value fits in a `u64`; an empty window parses to zero.
fn parse_decimal(s: &[u8], from: usize, to: usize) -> (r: Option<u64>)
    requires
        from <= to <= s@.len(),
    ensures
        match r {
            Some(v) => all_ascii_digits(s@.subrange(from as int, to as int)) && decimal_value(
                s@.subrange(from as int, to as int),
            ) == v as nat,
            None => !all_ascii_digits(s@.subrange(from as int, to as int)) || decimal_value(
                s@.subrange(from as int, to as int),
            ) > u64::MAX,
        },
{
    let mut i: usize = from;
    let mut acc: u64 = 0;
    while i < to
        invariant
            from <= i <= to <= s@.len(),
            all_ascii_digits(s@.subrange(from as int, i as int)),
            acc as nat == decimal_value(s@.subrange(from as int, i as int)),
        decreases to - i,
    {
        let b = s[i];
        if b < DIGIT_ZERO || b > DIGIT_NINE {
            proof {
                let window = s@.subrange(from as int, to as int);
                assert(window[i - from] == s@[i as int]);
                assert(!is_ascii_digit(window[i - from]));
            }
            return None;
        }
        let d = (b - DIGIT_ZERO) as u64;
        if acc > (u64::MAX - d) / 10 {
            proof {
                let next = s@.subrange(from as int, i + 1);
                lemma_decimal_value_step(s@, from as int, i as int);
                assert(acc * 10 + d > u64::MAX) by (nonlinear_arith)
                    requires
                        acc > (u64::MAX - d) / 10,
                        d <= 9,
                ;
                assert(decimal_value(next) > u64::MAX);
                let window = s@.subrange(from as int, to as int);
                lemma_decimal_value_prefix_le(window, i + 1 - from);
                assert(window.subrange(0, i + 1 - from) =~= next);
            }
            return None;
        }
        proof {
            lemma_decimal_value_step(s@, from as int, i as int);
            assert(acc * 10 + d <= u64::MAX) by (nonlinear_arith)
                requires
                    acc <= (u64::MAX - d) / 10,
                    d <= 9,
            ;
            assert(s@.subrange(from as int, i + 1).drop_last() =~= s@.subrange(
                from as int,
                i as int,
            ));
        }
        acc = acc * 10 + d;
        i = i + 1;
    }
    assert(s@.subrange(from as int, i as int) =~= s@.subrange(from as int, to as int));
    Some(acc)
}

/// After the prefix, the byte at `m` is neither a digit nor a dash, and
/// everything before it is digits: the scan's reason to give up.
spec fn bad_byte_at(h: Seq<u8>, m: int) -> bool {
    &&& 6 <= m < h.len()
    &&& !is_ascii_digit(h[m])
    &&& h[m] != DASH
    &&& forall|j: int| 6 <= j < m ==> is_ascii_digit(#[trigger] h[j])
}

/// A header whose tail is all digits holds no dash, so nothing matches.
proof fn lemma_no_match_all_digits(h: Seq<u8>)
    requires
        h.len() > 6,
        forall|j: int| 6 <= j < h.len() ==> is_ascii_digit(#[trigger] h[j]),
    ensures
        forall|rs: RangeSpec| !header_matches(h, rs),
{
    let body = h.skip(6);
    assert forall|rs: RangeSpec| !header_matches(h, rs) by {
        if header_matches(h, rs) {
            match rs {
                RangeSpec::Suffix { count } => {
                    assert(body[0] == h[6]);
                    assert(is_ascii_digit(h[6]));
                },
                RangeSpec::Explicit { start, end } => {
                    let k = choose|k: int| explicit_matches_at(body, start, end, k);
                    assert(body[k] == h[k + 6]);
                    assert(is_ascii_digit(h[k + 6]));
                },
            }
        }
    }
}

/// A header with a byte that is neither digit nor dash, digits before it,
/// matches nothing.
proof fn lemma_no_match_bad_byte(h: Seq<u8>, m: int)
    requires
        h.len() > 6,
        bad_byte_at(h, m),
    ensures
        forall|rs: RangeSpec| !header_matches(h, rs),
{
    let body = h.skip(6);
    assert forall|rs: RangeSpec| !header_matches(h, rs) by {
        if header_matches(h, rs) {
            match rs {
                RangeSpec::Suffix { count } => {
                    if m == 6 {
                        assert(body[0] == h[6]);
                    } else {
                        assert(body.skip(1)[m - 7] == h[m]);
                        assert(is_ascii_digit(h[m]));
                    }
                },
                RangeSpec::Explicit { start, end } => {
                    let k = choose|k: int| explicit_matches_at(body, start, end, k);
                    if k + 6 < m {
                        assert(body[k] == h[k + 6]);
                        assert(is_ascii_digit(h[k + 6]));
                    } else if k + 6 == m {
                        assert(body[k] == h[m]);
                    } else {
                        assert(body.subrange(0, k)[m - 6] == h[m]);
                        assert(is_ascii_digit(h[m]));
                    }
                },
            }
        }
    }
}

/// No suffix spec matches a header whose first body byte is a digit.
proof fn lemma_no_suffix_digit_first(h: Seq<u8>)
    requires
        h.len() > 6,
        is_ascii_digit(h[6]),
    ensures
        forall|count: u64| !suffix_matches(h.skip(6), count),
{
    let body = h.skip(6);
    assert forall|count: u64| !suffix_matches(body, count) by {
        if suffix_matches(body, count) {
            assert(body[0] == h[6]);
        }
    }
}

/// No explicit spec matches a header whose first body byte is the dash.
proof fn lemma_no_explicit_dash_first(h: Seq<u8>)
    requires
        h.len() > 6,
        h[6] == DASH,
    ensures
        forall|start: u64, end: Option<u64>| !explicit_matches(h.skip(6), start, end),
{
    let body = h.skip(6);
    assert forall|start: u64, end: Option<u64>| !explicit_matches(body, start, end) by {
        if explicit_matches(body, start, end) {
            let k = choose|k: int| explicit_matches_at(body, start, end, k);
            assert(body.subrange(0, k)[0] == body[0]);
            assert(body[0] == h[6]);
        }
    }
}

/// If the scan found the first dash at `k0`, every explicit match puts its
/// dash exactly there.
proof fn lemma_explicit_forced(h: Seq<u8>, k0: int, start: u64, end: Option<u64>)
    requires
        6 <= k0 < h.len(),
        h[k0] == DASH,
        forall|j: int| 6 <= j < k0 ==> is_ascii_digit(#[trigger] h[j]),
        explicit_matches(h.skip(6), start, end),
    ensures
        explicit_matches_at(h.skip(6), start, end, k0 - 6),
{
    let body = h.skip(6);
    let k = choose|k: int| explicit_matches_at(body, start, end, k);
    if k + 6 < k0 {
        assert(body[k] == h[k + 6]);
        assert(is_ascii_digit(h[k + 6]));
    } else if k + 6 > k0 {
        assert(body.subrange(0, k)[k0 - 6] == h[k0]);
    }
}

/// A well-formed header denotes exactly one range specification: the
/// parser's result is the only one its grammar admits.
pub proof fn lemma_header_matches_unique(h: Seq<u8>, a: RangeSpec, b: RangeSpec)
    requires
        header_matches(h, a),
        header_matches(h, b),
    ensures
        a == b,
{
    let body = h.skip(6);
    match (a, b) {
        (RangeSpec::Suffix { count: c1 }, RangeSpec::Suffix { count: c2 }) => {
            assert(c1 as nat == decimal_value(body.skip(1)));
        },
        (RangeSpec::Suffix { count: c1 }, RangeSpec::Explicit { start, end }) => {
            let k = choose|k: int| explicit_matches_at(body, start, end, k);
            assert(body.subrange(0, k)[0] == body[0]);
        },
        (RangeSpec::Explicit { start, end }, RangeSpec::Suffix { count: c2 }) => {
            let k = choose|k: int| explicit_matches_at(body, start, end, k);
            assert(body.subrange(0, k)[0] == body[0]);
        },
        (
            RangeSpec::Explicit { start: s1, end: e1 },
            RangeSpec::Explicit { start: s2, end: e2 },
        ) => {
            let k1 = choose|k: int| explicit_matches_at(body, s1, e1, k);
            let k2 = choose|k: int| explicit_matches_at(body, s2, e2, k);
            if k1 < k2 {
                assert(body.subrange(0, k2)[k1] == body[k1]);
                assert(is_ascii_digit(body[k1]));
            } else if k2 < k1 {
                assert(body.subrange(0, k1)[k2] == body[k2]);
                assert(is_ascii_digit(body[k2]));
            }
            assert(k1 == k2);
            assert(s1 as nat == decimal_value(body.subrange(0, k1)));
            assert(s2 as nat == decimal_value(body.subrange(0, k1)));
            match (e1, e2) {
                (None, None) => {},
                (None, Some(y)) => {
                    assert(k1 == body.len() - 1);
                },
                (Some(x), None) => {
                    assert(k1 == body.len() - 1);
                },
                (Some(x), Some(y)) => {
                    assert(x as nat == decimal_value(body.skip(k1 + 1)));
                    assert(y as nat == decimal_value(body.skip(k1 + 1)));
                },
            }
        },
    }
}

/// Find the dash that separates the bounds: scan past the prefix over
/// digits up to the first dash.
fn find_dash(header: &[u8]) -> (r: Option<usize>)
    requires
        6 <= header@.len(),
    ensures
        match r {
            Some(k) => {
                &&& 6 <= k < header@.len()
                &&& header@[k as int] == DASH
                &&& forall|j: int| 6 <= j < k ==> is_ascii_digit(#[trigger] header@[j])
            },
            None => (forall|j: int|
                6 <= j < header@.len() ==> is_ascii_digit(#[trigger] header@[j])) || (exists|
                m: int,
            | bad_byte_at(header@, m)),
        },
{
    let n = header.len();
    let mut i: usize = 6;
    while i < n
        invariant
            6 <= i <= n,
            n == header@.len(),
            forall|j: int| 6 <= j < i ==> is_ascii_digit(#[trigger] header@[j]),
        decreases n - i,
    {
        let b = header[i];
        if b == DASH {
            return Some(i);
        }
        if b < DIGIT_ZERO || b > DIGIT_NINE {
            assert(bad_byte_at(header@, i as int));
            return None;
        }
        i = i + 1;
    }
    None
}

/// Parse a `Range` header into the single range specification it denotes.
///
/// Succeeds exactly on a header of the form `bytes=start-`, `bytes=start-end`
/// or `bytes=-count` whose bounds fit in a `u64`, and returns exactly the
/// denoted specification. Everything else — several comma-separated spans,
/// a malformed spec, an oversized bound — is rejected as unsupported.
pub fn parse_range_header(header: &[u8]) -> (r: Result<RangeSpec, RangeError>)
    ensures
        match r {
            Ok(rs) => header_matches(header@, rs),
            Err(e) => {
                &&& e == RangeError::Unsupported
                &&& forall|rs: RangeSpec| !header_matches(header@, rs)
            },
        },
{
    let n = header.len();
    if n < 8 {
        proof {
            assert forall|rs: RangeSpec| !header_matches(header@, rs) by {
                if header_matches(header@, rs) {
                    let body = header@.skip(6);
                    match rs {
                        RangeSpec::Suffix { count } => {
                            assert(body.len() >= 2);
                        },
                        RangeSpec::Explicit { start, end } => {
                            let k = choose|k: int| explicit_matches_at(body, start, end, k);
                            assert(1 <= k < body.len());
                        },
                    }
                }
            }
        }
        return Err(RangeError::Unsupported);
    }
    if header[0] != 98 || header[1] != 121 || header[2] != 116 || header[3] != 101 || header[4]
        != 115 || header[5] != 61 {
        proof {
            assert forall|rs: RangeSpec| !header_matches(header@, rs) by {
                if header_matches(header@, rs) {
                    let p = header@.subrange(0, 6);
                    assert(p[0] == header@[0] && p[1] == header@[1] && p[2] == header@[2] && p[3]
                        == header@[3] && p[4] == header@[4] && p[5] == header@[5]);
                }
            }
        }
        return Err(RangeError::Unsupported);
    }
    proof {
        assert(header@.subrange(0, 6) =~= bytes_unit_prefix());
    }
    let k = match find_dash(header) {
        Some(k) => k,
        None => {
            proof {
                if forall|j: int| 6 <= j < header@.len() ==> is_ascii_digit(#[trigger] header@[j]) {
                    lemma_no_match_all_digits(header@);
                } else {
                    let m = choose|m: int| bad_byte_at(header@, m);
                    lemma_no_match_bad_byte(header@, m);
                }
            }
            return Err(RangeError::Unsupported);
        },
    };
    if k == 6 {
        // Suffix form: `bytes=-count`.
        match parse_decimal(header, 7, n) {
            Some(count) => {
                proof {
                    let body = header@.skip(6);
                    assert(body.skip(1) =~= header@.subrange(7, n as int));
                    assert(body[0] == header@[6]);
                    assert(suffix_matches(body, count));
                }
                Ok(RangeSpec::Suffix { count })
            },
            None => {
                proof {
                    lemma_no_explicit_dash_first(header@);
                    let body = header@.skip(6);
                    assert forall|rs: RangeSpec| !header_matches(header@, rs) by {
                        if header_matches(header@, rs) {
                            match rs {
                                RangeSpec::Suffix { count } => {
                                    assert(body.skip(1) =~= header@.subrange(7, n as int));
                                    assert(decimal_value(header@.subrange(7, n as int))
                                        == count as nat);
                                },
                                RangeSpec::Explicit { start, end } => {},
                            }
                        }
                    }
                }
                Err(RangeError::Unsupported)
            },
        }
    } else {
        // Explicit form: `bytes=start-` or `bytes=start-end`.
        proof {
            assert(is_ascii_digit(header@[6]));
            lemma_no_suffix_digit_first(header@);
            assert(all_ascii_digits(header@.subrange(6, k as int))) by {
                assert forall|j: int|
                    0 <= j < k - 6 implies is_ascii_digit(
                    #[trigger] header@.subrange(6, k as int)[j],
                ) by {
                    assert(header@.subrange(6, k as int)[j] == header@[6 + j]);
                }
            }
        }
        match parse_decimal(header, 6, k) {
            None => {
                proof {
                    let body = header@.skip(6);
                    assert(decimal_value(header@.subrange(6, k as int)) > u64::MAX);
                    assert forall|rs: RangeSpec| !header_matches(header@, rs) by {
                        if header_matches(header@, rs) {
                            match rs {
                                RangeSpec::Suffix { count } => {},
                                RangeSpec::Explicit { start, end } => {
                                    lemma_explicit_forced(header@, k as int, start, end);
                                    assert(body.subrange(0, k - 6) =~= header@.subrange(
                                        6,
                                        k as int,
                                    ));
                                },
                            }
                        }
                    }
                }
                Err(RangeError::Unsupported)
            },
            Some(start) => {
                proof {
                    assert(header@.skip(6).subrange(0, k - 6) =~= header@.subrange(6, k as int));
                }
                if k + 1 == n {
                    proof {
                        let body = header@.skip(6);
                        assert(explicit_matches_at(body, start, None, k - 6));
                    }
                    Ok(RangeSpec::Explicit { start, end: None })
                } else {
                    match parse_decimal(header, k + 1, n) {
                        Some(end) => {
                            proof {
                                let body = header@.skip(6);
                                assert(body.skip(k - 6 + 1) =~= header@.subrange(
                                    k + 1,
                                    n as int,
                                ));
                                assert(explicit_matches_at(body, start, Some(end), k - 6));
                            }
                            Ok(RangeSpec::Explicit { start, end: Some(end) })
                        },
                        None => {
                            proof {
                                let body = header@.skip(6);
                                assert forall|rs: RangeSpec| !header_matches(header@, rs) by {
                                    if header_matches(header@, rs) {
                                        match rs {
                                            RangeSpec::Suffix { count } => {},
                                            RangeSpec::Explicit { start: s2, end: e2 } => {
                                                lemma_explicit_forced(header@, k as int, s2, e2);
                                                match e2 {
                                                    None => {
                                                        assert(k - 6 == body.len() - 1);
                                                    },
                                                    Some(e) => {
                                                        assert(body.skip(k - 6 + 1)
                                                            =~= header@.subrange(k + 1, n as int));
                                                        assert(decimal_value(
                                                            header@.subrange(k + 1, n as int),
                                                        ) == e as nat);
                                                    },
                                                }
                                            },
                                        }
                                    }
                                }
                            }
                            Err(RangeError::Unsupported)
                        },
                    }
                }
            },
        }
    }
}

} // verus!
