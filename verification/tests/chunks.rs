use potsweep::chunk::{chunk_range, ChunkError, ChunkRange};

#[test]
fn chunk_id_zero_is_rejected() {
    assert_eq!(chunk_range(100, 48, 0), Err(ChunkError::IdZero));
}

#[test]
fn chunk_id_above_count_is_rejected() {
    assert_eq!(chunk_range(100, 48, 49), Err(ChunkError::IdAboveCount));
    assert_eq!(chunk_range(100, 48, 1000), Err(ChunkError::IdAboveCount));
}

#[test]
fn first_and_last_chunks() {
    assert_eq!(chunk_range(96, 48, 1), Ok(ChunkRange { start: 0, end: 1 }));
    assert_eq!(chunk_range(96, 48, 48), Ok(ChunkRange { start: 94, end: 95 }));
}

#[test]
fn production_cut_is_exact() {
    // 306*306*16 over 48 chunks cuts evenly: 31212 points each.
    let total = 1_498_176u32;
    let r = chunk_range(total, 48, 1).unwrap();
    assert_eq!((r.start, r.end), (0, 31_211));
    let r = chunk_range(total, 48, 48).unwrap();
    assert_eq!((r.start, r.end), (total - 31_212, total - 1));
}

#[test]
fn chunks_are_disjoint_ordered_and_drop_the_remainder() {
    // 100 points in 48 chunks of 2: the last 100 - 48*2 = 4 points are
    // dropped by policy.
    let total = 100u32;
    let count = 48u32;
    let mut covered = 0u32;
    let mut prev_end: Option<u32> = None;
    for id in 1..=count {
        let r = chunk_range(total, count, id).unwrap();
        assert!(r.start <= r.end);
        if let Some(e) = prev_end {
            assert_eq!(r.start, e + 1);
        } else {
            assert_eq!(r.start, 0);
        }
        covered += r.end - r.start + 1;
        prev_end = Some(r.end);
    }
    assert_eq!(prev_end, Some(95));
    assert_eq!(covered, 96);
    assert_eq!(total - covered, 4);
}
