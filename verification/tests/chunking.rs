use query_embeddings::chunks::chunk_bounds;

#[test]
fn chunk_bounds_cover_range_in_order() {
    let bounds = chunk_bounds(10, 3);
    assert_eq!(bounds, vec![(0, 4), (4, 8), (8, 10)]);
}

#[test]
fn chunk_bounds_single_chunk() {
    assert_eq!(chunk_bounds(7, 1), vec![(0, 7)]);
}

#[test]
fn chunk_bounds_exact_division() {
    assert_eq!(chunk_bounds(6, 3), vec![(0, 2), (2, 4), (4, 6)]);
}

#[test]
fn chunk_bounds_more_chunks_than_queries() {
    let bounds = chunk_bounds(3, 5);
    assert_eq!(bounds, vec![(0, 1), (1, 2), (2, 3), (3, 3), (3, 3)]);
}

#[test]
fn chunk_bounds_empty_range() {
    let bounds = chunk_bounds(0, 4);
    assert_eq!(bounds, vec![(0, 0), (0, 0), (0, 0), (0, 0)]);
}

#[test]
fn chunked_processing_preserves_count_and_order() {
    // processing chunk by chunk must reproduce the whole input, whatever
    // the chunk count
    let data: Vec<u64> = (0..17).map(|i| i * i).collect();
    for chunk_count in [1usize, 2, 3, 5, 16, 17, 100] {
        let mut out: Vec<u64> = Vec::new();
        for (start, end) in chunk_bounds(data.len(), chunk_count) {
            let chunk: Vec<u64> = data[start..end].to_vec();
            out.extend(chunk);
        }
        assert_eq!(out, data);
    }
}
