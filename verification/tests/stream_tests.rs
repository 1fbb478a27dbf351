use audio_range::resolve::{Disposition, ResolvedSpan};
use audio_range::stream::{collect_chunks, open_stream, read_chunk, ChunkRead, DEFAULT_CHUNK_SIZE};

fn asset(n: usize) -> Vec<u8> {
    (0..n).map(|i| (i % 251) as u8).collect()
}

#[test]
fn full_asset_in_default_chunks() {
    let source = asset(10_000);
    let chunks = collect_chunks(&source, &Disposition::Full, DEFAULT_CHUNK_SIZE);
    assert_eq!(chunks.len(), 2);
    assert_eq!(chunks[0].len(), 8192);
    assert_eq!(chunks[1].len(), 1808);
    let total: usize = chunks.iter().map(|c| c.len()).sum();
    assert_eq!(total, 10_000);
    let joined: Vec<u8> = chunks.concat();
    assert_eq!(joined, source);
}

#[test]
fn partial_span_in_chunks() {
    let source = asset(10_000);
    let span = ResolvedSpan { start: 9_990, end: 9_999, total: 10_000 };
    let chunks = collect_chunks(&source, &Disposition::Partial(span), DEFAULT_CHUNK_SIZE);
    assert_eq!(chunks.len(), 1);
    assert_eq!(chunks[0].len(), 10);
    assert_eq!(chunks[0].as_slice(), &source[9_990..]);
    assert_eq!(chunks[0][0], source[9_990]);
}

#[test]
fn exact_multiple_has_no_short_chunk() {
    let source = asset(16_384);
    let chunks = collect_chunks(&source, &Disposition::Full, DEFAULT_CHUNK_SIZE);
    assert_eq!(chunks.len(), 2);
    assert_eq!(chunks[0].len(), 8192);
    assert_eq!(chunks[1].len(), 8192);
}

#[test]
fn only_last_chunk_is_short() {
    let source = asset(100);
    let span = ResolvedSpan { start: 10, end: 89, total: 100 };
    let chunks = collect_chunks(&source, &Disposition::Partial(span), 32);
    assert_eq!(chunks.iter().map(|c| c.len()).collect::<Vec<_>>(), vec![32, 32, 16]);
    let joined: Vec<u8> = chunks.concat();
    assert_eq!(joined.as_slice(), &source[10..90]);
}

#[test]
fn empty_asset_yields_no_chunks() {
    let source: Vec<u8> = Vec::new();
    let chunks = collect_chunks(&source, &Disposition::Full, DEFAULT_CHUNK_SIZE);
    assert_eq!(chunks.len(), 0);
}

#[test]
fn reads_have_increasing_offsets_and_cover_span() {
    let span = ResolvedSpan { start: 5, end: 24, total: 100 };
    let mut state = open_stream(&Disposition::Partial(span), 100, 8);
    let mut reads: Vec<ChunkRead> = Vec::new();
    while let Some(read) = state.next_read() {
        reads.push(read);
    }
    assert_eq!(reads.len(), 3);
    assert_eq!(reads[0], ChunkRead { offset: 5, len: 8 });
    assert_eq!(reads[1], ChunkRead { offset: 13, len: 8 });
    assert_eq!(reads[2], ChunkRead { offset: 21, len: 4 });
    let total: usize = reads.iter().map(|r| r.len).sum();
    assert_eq!(total as u64, span.end - span.start + 1);
}

#[test]
fn stopped_consumer_reads_nothing_further() {
    // A consumer that stops pulling mid-span: the state stands still and no
    // byte past the cursor is ever read unless asked for.
    let source = asset(10_000);
    let mut state = open_stream(&Disposition::Full, 10_000, 1024);
    let first = read_chunk(&source, &mut state).expect("span is not empty");
    assert_eq!(first.len(), 1024);
    let cursor_after_one = state.cursor;
    assert_eq!(cursor_after_one, 1024);
    // The consumer walks away here; dropping the state is all that is left,
    // and nothing was read beyond one chunk boundary.
    drop(state);
}

#[test]
fn read_chunk_reports_end_of_span() {
    let source = asset(16);
    let span = ResolvedSpan { start: 4, end: 7, total: 16 };
    let mut state = open_stream(&Disposition::Partial(span), 16, 8);
    let only = read_chunk(&source, &mut state).expect("one chunk");
    assert_eq!(only.as_slice(), &source[4..8]);
    assert!(read_chunk(&source, &mut state).is_none());
    assert!(read_chunk(&source, &mut state).is_none());
}
