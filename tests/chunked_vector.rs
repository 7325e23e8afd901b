use kmer_colors::chunked_vector::{ChunkedVector, ChunkedVectorPool};

#[test]
fn chunks_fill_and_clear() {
    let pool = ChunkedVectorPool::new(4);
    let mut v: ChunkedVector<u8> = ChunkedVector::new(pool);
    assert_eq!(v.current_size_left, 4);
    v.push_contiguous(&1);
    v.push_contiguous_slice(&[2, 3]);
    assert_eq!(v.current_size_left, 1);
    v.ensure_reserve(3);
    assert_eq!(v.chunks.len(), 2);
    assert_eq!(v.current_size_left, 4);
    v.write_all(&[4, 5, 6]);
    assert_eq!(v.current_size_left, 1);
    v.ensure_reserve(6);
    assert_eq!(v.current_size_left, 6);
    assert_eq!(v.chunks[0].data, vec![1, 2, 3]);
    assert_eq!(v.chunks[1].data, vec![4, 5, 6]);
    v.clear();
    assert_eq!(v.chunks.len(), 1);
    assert!(v.chunks[0].data.is_empty());
    assert_eq!(v.current_size_left, 4);
}
