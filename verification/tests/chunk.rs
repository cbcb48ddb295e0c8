use av1an::chunk::{can_be_chunks, splits_to_chunks, Chunk};

fn parts(chunks: &[Chunk]) -> Vec<(usize, usize, usize)> {
    chunks.iter().map(|c| (c.index, c.start, c.end)).collect()
}

#[test]
fn longest_chunk_comes_first() {
    let chunks = splits_to_chunks(100, &[0, 10, 70]);
    assert_eq!(parts(&chunks), vec![(1, 10, 69), (2, 70, 99), (0, 0, 9)]);
}

#[test]
fn no_splits_no_chunks() {
    assert!(splits_to_chunks(100, &[]).is_empty());
    assert!(splits_to_chunks(0, &[]).is_empty());
}

#[test]
fn single_chunk() {
    assert_eq!(parts(&splits_to_chunks(1, &[0])), vec![(0, 0, 0)]);
    assert_eq!(parts(&splits_to_chunks(5, &[10])), vec![(0, 10, 4)]);
}

#[test]
fn every_frame_is_in_one_chunk() {
    let splits: Vec<usize> = (0..50).map(|i| i * i + 3).collect();
    let chunks = splits_to_chunks(3000, &splits);
    assert_eq!(chunks.len(), splits.len());
    for frame in 3..3000 {
        assert_eq!(chunks.iter().filter(|c| c.start <= frame && frame <= c.end).count(), 1);
    }
    for pair in chunks.windows(2) {
        assert!(pair[0].end - pair[0].start >= pair[1].end - pair[1].start);
    }
    for (i, split) in splits.iter().enumerate() {
        assert!(chunks.iter().any(|c| c.index == i && c.start == *split));
    }
}

#[test]
fn splits_that_can_be_chunks() {
    assert!(can_be_chunks(100, &[0, 10, 70]));
    assert!(can_be_chunks(0, &[]));
    assert!(can_be_chunks(5, &[10]));
    assert!(!can_be_chunks(0, &[0]));
    assert!(!can_be_chunks(100, &[0, 10, 10]));
    assert!(!can_be_chunks(100, &[0, 70, 10]));
    assert!(!can_be_chunks(70, &[0, 10, 70]));
}
