//! Chunked delivery of a resolved span.
//!
//! A stream is planned as a sequence of bounded-size chunks covering the
//! span exactly: every chunk but the last has the configured chunk size, so
//! serving a span of any length needs only one chunk in memory at a time.
//! The state machine here decides which bytes to read next; performing the
//! read is the caller's business, so the same plan drives an in-memory
//! source and a file read loop alike.

use vstd::prelude::*;
use crate::range::{RangeError, RangeSpec};
use crate::resolve::{resolve_spec, Disposition, ResolvedSpan};

verus! {

/// Default chunk size: 8 KiB.
pub const DEFAULT_CHUNK_SIZE: usize = 8192;

/// The lengths of the chunks that deliver a span of `len` bytes with chunks
/// of at most `chunk_size` bytes: full chunks, then the remainder, if any.
pub open spec fn chunk_sizes(len: int, chunk_size: int) -> Seq<int>
    recommends
        0 <= len,
        1 <= chunk_size,
    decreases len,
{
    if len <= 0 || chunk_size <= 0 {
        Seq::empty()
    } else if len <= chunk_size {
        seq![len]
    } else {
        seq![chunk_size] + chunk_sizes(len - chunk_size, chunk_size)
    }
}

/// Sum of a sequence of lengths.
pub open spec fn sum_of(s: Seq<int>) -> int
    decreases s.len(),
{
    if s.len() == 0 {
        0
    } else {
        s.first() + sum_of(s.drop_first())
    }
}

/// The chunk lengths of a span sum to exactly the span's length: chunked
/// delivery neither truncates nor pads.
pub proof fn lemma_chunk_sizes_sum(len: int, chunk_size: int)
    requires
        0 <= len,
        1 <= chunk_size,
    ensures
        sum_of(chunk_sizes(len, chunk_size)) == len,
    decreases len,
{
    if len == 0 {
        assert(sum_of(Seq::<int>::empty()) == 0);
    } else if len <= chunk_size {
        let s = seq![len];
        assert(s.drop_first() =~= Seq::<int>::empty());
        assert(sum_of(Seq::<int>::empty()) == 0);
        assert(sum_of(s) == s.first() + sum_of(s.drop_first()));
    } else {
        lemma_chunk_sizes_sum(len - chunk_size, chunk_size);
        let rest = chunk_sizes(len - chunk_size, chunk_size);
        let s = seq![chunk_size] + rest;
        assert(s.first() == chunk_size);
        assert(s.drop_first() =~= rest);
        assert(sum_of(s) == s.first() + sum_of(s.drop_first()));
    }
}

/// Every chunk of a span is non-empty and at most `chunk_size` long, and
/// every chunk except the last is exactly `chunk_size` long.
pub proof fn lemma_chunk_sizes_shape(len: int, chunk_size: int)
    requires
        0 <= len,
        1 <= chunk_size,
    ensures
        forall|i: int|
            0 <= i < chunk_sizes(len, chunk_size).len() ==> 0 < #[trigger] chunk_sizes(
                len,
                chunk_size,
            )[i] <= chunk_size,
        forall|i: int|
            0 <= i < chunk_sizes(len, chunk_size).len() - 1 ==> #[trigger] chunk_sizes(
                len,
                chunk_size,
            )[i] == chunk_size,
    decreases len,
{
    if len == 0 {
    } else if len <= chunk_size {
    } else {
        lemma_chunk_sizes_shape(len - chunk_size, chunk_size);
        let rest = chunk_sizes(len - chunk_size, chunk_size);
        let s = seq![chunk_size] + rest;
        assert forall|i: int| 0 <= i < s.len() implies 0 < #[trigger] s[i] <= chunk_size by {
            if i > 0 {
                assert(s[i] == rest[i - 1]);
            }
        }
        assert forall|i: int| 0 <= i < s.len() - 1 implies #[trigger] s[i] == chunk_size by {
            if i > 0 {
                assert(s[i] == rest[i - 1]);
            }
        }
    }
}

/// Per-request delivery state: the read cursor and the end of the resolved
/// span, both absolute file offsets. Owned by one request's delivery loop;
/// nothing is shared between requests.
#[derive(Clone, Copy, Debug, PartialEq, Eq)]
pub struct StreamState {
    /// Absolute offset of the next byte to read.
    pub cursor: u64,
    /// One past the absolute offset of the last byte of the span.
    pub limit: u64,
    /// Upper bound on the length of each emitted chunk.
    pub chunk_size: usize,
}

/// One planned read: `len` bytes at absolute offset `offset`.
#[derive(Clone, Copy, Debug, PartialEq, Eq)]
pub struct ChunkRead {
    pub offset: u64,
    pub len: usize,
}

impl StreamState {
    /// The state invariant: the cursor never passes the end of the span,
    /// and chunks are non-empty.
    pub open spec fn wf(self) -> bool {
        self.cursor <= self.limit && self.chunk_size >= 1
    }

    /// Bytes of the span not yet emitted.
    pub open spec fn remaining(self) -> int {
        self.limit - self.cursor
    }

    /// Lengths of the chunks still to be emitted.
    pub open spec fn plan(self) -> Seq<int> {
        chunk_sizes(self.remaining(), self.chunk_size as int)
    }

    /// Hand out the next read of the plan and advance the cursor past it,
    /// or report the span complete. The emitted reads have strictly
    /// increasing offsets and cover the span gaplessly.
    pub fn next_read(&mut self) -> (r: Option<ChunkRead>)
        requires
            old(self).wf(),
        ensures
            final(self).wf(),
            final(self).limit == old(self).limit,
            final(self).chunk_size == old(self).chunk_size,
            match r {
                None => old(self).remaining() == 0 && *final(self) == *old(self),
                Some(read) => {
                    &&& old(self).remaining() > 0
                    &&& read.offset == old(self).cursor
                    &&& read.len as int == if old(self).remaining() <= old(self).chunk_size as int {
                        old(self).remaining()
                    } else {
                        old(self).chunk_size as int
                    }
                    &&& final(self).cursor == old(self).cursor + read.len
                    &&& old(self).plan() == seq![read.len as int] + final(self).plan()
                },
            },
    {
        if self.cursor == self.limit {
            None
        } else {
            let gap = self.limit - self.cursor;
            let len: usize = if gap < self.chunk_size as u64 {
                gap as usize
            } else {
                self.chunk_size
            };
            let read = ChunkRead { offset: self.cursor, len };
            self.cursor = self.cursor + len as u64;
            proof {
                if old(self).remaining() <= old(self).chunk_size as int {
                    assert(old(self).plan() == seq![read.len as int] + final(self).plan()) by {
                        assert(final(self).plan() =~= Seq::<int>::empty());
                        assert(old(self).plan() =~= seq![read.len as int] + Seq::<int>::empty());
                    }
                }
            }
            Some(read)
        }
    }
}

/// Set up delivery of `disposition` for an asset of `total` bytes: the
/// cursor starts at the first byte of the span and the whole span is still
/// to be emitted.
pub fn open_stream(disposition: &Disposition, total: u64, chunk_size: usize) -> (s: StreamState)
    requires
        disposition.wf(total),
        chunk_size >= 1,
    ensures
        s.wf(),
        s.chunk_size == chunk_size,
        s.cursor == disposition.first_offset(),
        s.remaining() == disposition.span_len(total),
{
    match disposition {
        Disposition::Full => StreamState { cursor: 0, limit: total, chunk_size },
        Disposition::Partial(span) => StreamState {
            cursor: span.start,
            limit: span.end + 1,
            chunk_size,
        },
    }
}

/// Concatenation of a sequence of byte chunks, in emission order.
pub open spec fn concat_bytes(chunks: Seq<Seq<u8>>) -> Seq<u8>
    decreases chunks.len(),
{
    if chunks.len() == 0 {
        Seq::empty()
    } else {
        concat_bytes(chunks.drop_last()) + chunks.last()
    }
}

/// Appending one chunk appends its bytes to the concatenation.
pub proof fn lemma_concat_bytes_push(chunks: Seq<Seq<u8>>, c: Seq<u8>)
    ensures
        concat_bytes(chunks.push(c)) == concat_bytes(chunks) + c,
{
    assert(chunks.push(c).drop_last() =~= chunks);
    assert(chunks.push(c).last() == c);
}

/// A concatenation starting with a non-empty chunk starts with that
/// chunk's first byte.
proof fn lemma_concat_bytes_first(chunks: Seq<Seq<u8>>)
    requires
        chunks.len() > 0,
        chunks[0].len() > 0,
    ensures
        concat_bytes(chunks).len() > 0,
        concat_bytes(chunks)[0] == chunks[0][0],
    decreases chunks.len(),
{
    if chunks.len() == 1 {
        assert(chunks.drop_last() =~= Seq::<Seq<u8>>::empty());
        assert(concat_bytes(chunks) =~= concat_bytes(Seq::<Seq<u8>>::empty()) + chunks.last());
        assert(chunks.last() == chunks[0]);
    } else {
        let front = chunks.drop_last();
        assert(front[0] == chunks[0]);
        lemma_concat_bytes_first(front);
    }
}

/// Read the next chunk of the span out of an in-memory byte source, or
/// report the span complete. The chunk is exactly the next planned slice of
/// the source.
pub fn read_chunk(source: &[u8], state: &mut StreamState) -> (r: Option<Vec<u8>>)
    requires
        old(state).wf(),
        old(state).limit as int <= source@.len(),
    ensures
        final(state).wf(),
        final(state).limit == old(state).limit,
        final(state).chunk_size == old(state).chunk_size,
        match r {
            None => old(state).remaining() == 0 && *final(state) == *old(state),
            Some(chunk) => {
                &&& old(state).remaining() > 0
                &&& chunk@.len() as int == if old(state).remaining() <= old(
                    state,
                ).chunk_size as int {
                    old(state).remaining()
                } else {
                    old(state).chunk_size as int
                }
                &&& chunk@ == source@.subrange(
                    old(state).cursor as int,
                    old(state).cursor + chunk@.len(),
                )
                &&& final(state).cursor == old(state).cursor + chunk@.len()
                &&& old(state).plan() == seq![chunk@.len() as int] + final(state).plan()
            },
        },
{
    let read = match state.next_read() {
        None => {
            return None;
        },
        Some(read) => read,
    };
    let mut chunk: Vec<u8> = Vec::new();
    let n = source.len();
    proof {
        assert(read.offset as int + read.len as int <= n as int);
    }
    let offset = read.offset as usize;
    let mut j: usize = 0;
    while j < read.len
        invariant
            offset as int == read.offset as int,
            offset + read.len <= n,
            n == source@.len(),
            j <= read.len,
            chunk@ =~= source@.subrange(offset as int, offset + j),
        decreases read.len - j,
    {
        chunk.push(source[offset + j]);
        assert(chunk@ =~= source@.subrange(offset as int, offset + j + 1));
        j = j + 1;
    }
    Some(chunk)
}

/// Deliver the whole resolved span out of an in-memory byte source as a
/// vector of chunks.
///
/// The concatenation of the chunks is exactly the resolved slice of the
/// source, and the chunk lengths are exactly the planned ones: every chunk
/// but possibly the last is `chunk_size` long.
pub fn collect_chunks(source: &[u8], disposition: &Disposition, chunk_size: usize) -> (chunks: Vec<
    Vec<u8>,
>)
    requires
        chunk_size >= 1,
        disposition.wf(source@.len() as u64),
    ensures
        concat_bytes(chunks@.map_values(|c: Vec<u8>| c@)) == source@.subrange(
            disposition.first_offset(),
            disposition.first_offset() + disposition.span_len(source@.len() as u64),
        ),
        chunks@.map_values(|c: Vec<u8>| c@.len() as int) == chunk_sizes(
            disposition.span_len(source@.len() as u64),
            chunk_size as int,
        ),
{
    let total = source.len() as u64;
    let mut state = open_stream(disposition, total, chunk_size);
    let mut chunks: Vec<Vec<u8>> = Vec::new();
    let ghost full_plan = state.plan();
    let ghost first = state.cursor as int;
    proof {
        assert(total == source@.len() as u64);
        assert(state.limit as int <= source@.len());
    }
    while state.cursor < state.limit
        invariant
            state.wf(),
            state.chunk_size == chunk_size,
            state.limit as int <= source@.len(),
            state.limit as int == first + disposition.span_len(source@.len() as u64),
            0 <= first <= state.cursor as int,
            state.cursor as int <= state.limit as int,
            first == disposition.first_offset(),
            full_plan =~= chunks@.map_values(|c: Vec<u8>| c@.len() as int) + state.plan(),
            concat_bytes(chunks@.map_values(|c: Vec<u8>| c@)) =~= source@.subrange(
                first,
                state.cursor as int,
            ),
        decreases state.limit - state.cursor,
    {
        let ghost before = state;
        let ghost lens_before = chunks@.map_values(|c: Vec<u8>| c@.len() as int);
        let ghost views_before = chunks@.map_values(|c: Vec<u8>| c@);
        match read_chunk(source, &mut state) {
            None => {
                proof {
                    assert(false);
                }
            },
            Some(chunk) => {
                proof {
                    lemma_concat_bytes_push(views_before, chunk@);
                    assert(chunks@.push(chunk).map_values(|c: Vec<u8>| c@) =~= views_before.push(
                        chunk@,
                    ));
                    assert(chunks@.push(chunk).map_values(|c: Vec<u8>| c@.len() as int)
                        =~= lens_before.push(chunk@.len() as int));
                    assert(lens_before.push(chunk@.len() as int) + state.plan() =~= lens_before + (
                    seq![chunk@.len() as int] + state.plan()));
                    assert(source@.subrange(first, before.cursor as int) + source@.subrange(
                        before.cursor as int,
                        before.cursor + chunk@.len(),
                    ) =~= source@.subrange(first, before.cursor + chunk@.len()));
                }
                chunks.push(chunk);
            },
        }
    }
    proof {
        assert(state.plan() =~= Seq::<int>::empty());
        assert(full_plan =~= chunks@.map_values(|c: Vec<u8>| c@.len() as int));
    }
    chunks
}

/// Chunked delivery is exact: for any span length and any chunk size, the
/// planned chunk lengths sum to the span length, every chunk is non-empty
/// and bounded by the chunk size, and every chunk but the last is full.
pub proof fn law_chunk_plan_exact(len: int, chunk_size: int)
    requires
        0 <= len,
        1 <= chunk_size,
    ensures
        sum_of(chunk_sizes(len, chunk_size)) == len,
        forall|i: int|
            0 <= i < chunk_sizes(len, chunk_size).len() ==> 0 < #[trigger] chunk_sizes(
                len,
                chunk_size,
            )[i] <= chunk_size,
        forall|i: int|
            0 <= i < chunk_sizes(len, chunk_size).len() - 1 ==> #[trigger] chunk_sizes(
                len,
                chunk_size,
            )[i] == chunk_size,
{
    lemma_chunk_sizes_sum(len, chunk_size);
    lemma_chunk_sizes_shape(len, chunk_size);
}

/// An absent range serves the whole asset, and its chunked delivery emits
/// exactly `total` bytes.
pub proof fn law_full_delivery(total: u64, chunk_size: usize)
    requires
        chunk_size >= 1,
    ensures
        resolve_spec(None, total) == Ok::<Disposition, RangeError>(Disposition::Full),
        sum_of(chunk_sizes(total as int, chunk_size as int)) == total as int,
{
    lemma_chunk_sizes_sum(total as int, chunk_size as int);
}

/// A valid explicit range resolves to exactly its own span, and the chunked
/// delivery of that span emits exactly `end - start + 1` bytes.
pub proof fn law_partial_delivery(start: u64, end: u64, total: u64, chunk_size: usize)
    requires
        start <= end < total,
        chunk_size >= 1,
    ensures
        resolve_spec(Some(RangeSpec::Explicit { start, end: Some(end) }), total) == Ok::<
            Disposition,
            RangeError,
        >(Disposition::Partial(ResolvedSpan { start, end, total })),
        sum_of(chunk_sizes(end - start + 1, chunk_size as int)) == end - start + 1,
{
    lemma_chunk_sizes_sum(end - start + 1, chunk_size as int);
}

/// The first byte a partial delivery emits is the source byte at `start`:
/// whenever the emitted chunks concatenate to the resolved slice, the first
/// byte of the first chunk is the byte at offset `start` of the source.
pub proof fn law_partial_first_byte(chunks: Seq<Seq<u8>>, src: Seq<u8>, start: u64, end: u64)
    requires
        start <= end < src.len(),
        concat_bytes(chunks) == src.subrange(start as int, end + 1),
        chunks.len() > 0,
        chunks[0].len() > 0,
    ensures
        chunks[0][0] == src[start as int],
{
    lemma_concat_bytes_first(chunks);
    assert(src.subrange(start as int, end + 1)[0] == src[start as int]);
}

} // verus!
