use bytes::Bytes;
use chunkstore::chunker::{ChunkPoll, ChunkStream, MAX_CHUNK_SIZE};

/// Drives a chunker as an upload does: polls until input is needed, feeds
/// the next fragment, and drains after the end of the body.
fn chunk_all(fragments: &[&[u8]]) -> Vec<Bytes> {
    let mut chunker = ChunkStream::new();
    let mut out = Vec::new();
    let mut next = 0;
    loop {
        match chunker.poll_next() {
            ChunkPoll::Chunk(chunk) => out.push(chunk),
            ChunkPoll::Finished => return out,
            ChunkPoll::NeedInput => {
                if next < fragments.len() {
                    chunker.push(fragments[next]);
                    next += 1;
                } else {
                    chunker.end();
                }
            }
        }
    }
}

fn pattern(len: usize) -> Vec<u8> {
    (0..len).map(|i| (i % 251) as u8).collect()
}

fn joined(chunks: &[Bytes]) -> Vec<u8> {
    let mut all = Vec::new();
    for chunk in chunks {
        all.extend_from_slice(chunk);
    }
    all
}

#[test]
fn max_chunk_size_is_64_mib() {
    assert_eq!(MAX_CHUNK_SIZE, 64 * 1024 * 1024);
}

#[test]
fn empty_body_gives_no_chunk() {
    assert_eq!(chunk_all(&[]).len(), 0);
    assert_eq!(chunk_all(&[b"", b""]).len(), 0);
}

#[test]
fn one_byte_gives_one_chunk_of_one_byte() {
    let chunks = chunk_all(&[b"x"]);
    assert_eq!(chunks.len(), 1);
    assert_eq!(&chunks[0][..], b"x");
}

#[test]
fn small_fragments_are_joined_in_order() {
    let chunks = chunk_all(&[b"hello", b", ", b"", b"world"]);
    assert_eq!(chunks.len(), 1);
    assert_eq!(&chunks[0][..], b"hello, world");
}

#[test]
fn body_of_exactly_max_gives_one_full_chunk() {
    let data = pattern(MAX_CHUNK_SIZE);
    let chunks = chunk_all(&[&data]);
    assert_eq!(chunks.len(), 1);
    assert_eq!(chunks[0].len(), MAX_CHUNK_SIZE);
    assert!(chunks[0][..] == data[..]);
}

#[test]
fn body_of_max_plus_one_gives_a_full_chunk_and_one_byte() {
    let data = pattern(MAX_CHUNK_SIZE + 1);
    let chunks = chunk_all(&[&data]);
    assert_eq!(chunks.len(), 2);
    assert_eq!(chunks[0].len(), MAX_CHUNK_SIZE);
    assert_eq!(chunks[1].len(), 1);
    assert!(chunks[0][..] == data[..MAX_CHUNK_SIZE]);
    assert_eq!(chunks[1][0], data[MAX_CHUNK_SIZE]);
}

#[test]
fn fragments_that_straddle_the_limit_are_cut_at_the_limit() {
    let data = pattern(2 * MAX_CHUNK_SIZE + 12345);
    let step = 7 * 1024 * 1024 + 13;
    let fragments: Vec<&[u8]> = data.chunks(step).collect();
    let chunks = chunk_all(&fragments);
    assert_eq!(chunks.len(), 3);
    assert_eq!(chunks[0].len(), MAX_CHUNK_SIZE);
    assert_eq!(chunks[1].len(), MAX_CHUNK_SIZE);
    assert_eq!(chunks[2].len(), 12345);
    assert!(joined(&chunks) == data);
}

#[test]
fn a_full_chunk_is_handed_out_before_the_body_ends() {
    let data = pattern(MAX_CHUNK_SIZE + 5);
    let mut chunker = ChunkStream::new();
    assert!(matches!(chunker.poll_next(), ChunkPoll::NeedInput));
    chunker.push(&data);
    match chunker.poll_next() {
        ChunkPoll::Chunk(chunk) => assert_eq!(chunk.len(), MAX_CHUNK_SIZE),
        _ => panic!("a full chunk was due"),
    }
    // five bytes are held back until more arrives or the body ends
    assert!(matches!(chunker.poll_next(), ChunkPoll::NeedInput));
    chunker.end();
    match chunker.poll_next() {
        ChunkPoll::Chunk(chunk) => assert_eq!(&chunk[..], &data[MAX_CHUNK_SIZE..]),
        _ => panic!("the remainder was due"),
    }
    assert!(matches!(chunker.poll_next(), ChunkPoll::Finished));
    assert!(matches!(chunker.poll_next(), ChunkPoll::Finished));
}

#[test]
fn a_failed_body_ends_the_chunks() {
    let mut chunker = ChunkStream::new();
    chunker.push(b"partial");
    chunker.fail();
    assert!(matches!(chunker.poll_next(), ChunkPoll::Finished));
    chunker.push(b"more");
    chunker.end();
    assert!(matches!(chunker.poll_next(), ChunkPoll::Finished));
}

#[test]
fn fragments_after_the_end_are_ignored() {
    let mut chunker = ChunkStream::new();
    chunker.push(b"abc");
    chunker.end();
    chunker.push(b"def");
    match chunker.poll_next() {
        ChunkPoll::Chunk(chunk) => assert_eq!(&chunk[..], b"abc"),
        _ => panic!("the remainder was due"),
    }
    assert!(matches!(chunker.poll_next(), ChunkPoll::Finished));
}

#[test]
fn chunk_count_is_the_length_over_the_limit_rounded_up() {
    for (len, expected) in [
        (0usize, 0usize),
        (1, 1),
        (MAX_CHUNK_SIZE - 1, 1),
        (MAX_CHUNK_SIZE, 1),
        (MAX_CHUNK_SIZE + 1, 2),
    ] {
        let data = vec![7u8; len];
        let chunks = chunk_all(&[&data]);
        assert_eq!(chunks.len(), expected, "length {}", len);
        let total: usize = chunks.iter().map(|c| c.len()).sum();
        assert_eq!(total, len);
    }
}
