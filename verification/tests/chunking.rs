//! The chunker alone: losslessness and line alignment.
use keystats::chunker::Chunker;

fn chunks_of(input: &[u8], read_size: usize) -> Vec<Vec<u8>> {
    let mut chunker = Chunker::new();
    let mut out = Vec::new();
    let mut pos = 0;
    while pos < input.len() {
        let end = if pos + read_size < input.len() { pos + read_size } else { input.len() };
        if let Some(chunk) = chunker.push(&input[pos..end]) {
            out.push(chunk);
        }
        pos = end;
    }
    if let Some(chunk) = chunker.finish() {
        out.push(chunk);
    }
    out
}

#[test]
fn concatenation_reproduces_input() {
    let input = b"alpha;1.0\nbeta;2.0\nlast line without newline";
    for read_size in [1, 2, 3, 5, 8, 100] {
        let chunks = chunks_of(input, read_size);
        let mut glued: Vec<u8> = Vec::new();
        for c in &chunks {
            glued.extend_from_slice(c);
        }
        assert_eq!(glued, input.to_vec());
    }
}

#[test]
fn non_final_chunks_end_at_newline() {
    let input = b"a;1\nbb;2.5\nccc;3.25\ndd;4\ne;5";
    for read_size in [1, 2, 4, 7] {
        let chunks = chunks_of(input, read_size);
        for (i, c) in chunks.iter().enumerate() {
            assert!(!c.is_empty());
            if i + 1 < chunks.len() {
                assert_eq!(*c.last().unwrap(), b'\n');
            }
        }
    }
}

#[test]
fn push_returns_chunk_only_on_newline() {
    let mut chunker = Chunker::new();
    assert!(chunker.push(b"abc").is_none());
    assert!(chunker.push(b"def").is_none());
    let c = chunker.push(b";1\nx").unwrap();
    assert_eq!(c, b"abcdef;1\n".to_vec());
    let last = chunker.finish().unwrap();
    assert_eq!(last, b"x".to_vec());
}

#[test]
fn empty_stream_emits_nothing() {
    let mut chunker = Chunker::new();
    assert!(chunker.push(b"").is_none());
    assert!(chunker.finish().is_none());
}
