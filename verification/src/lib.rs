//! Byte-range resolution and chunked-streaming engine for serving single
//! files over HTTP.
//!
//! The crate parses an HTTP `Range` request header, resolves it against the
//! total length of an asset, decides between a full (200) and a partial (206)
//! response — or rejects an unsatisfiable range (416) — and plans the
//! delivery of the selected span as a sequence of bounded-size chunks, so
//! that serving a large file never needs more than one chunk in memory at a
//! time.

pub mod headers;
pub mod range;
pub mod resolve;
pub mod stream;
