use rustc_utils::unicode::range_search;

#[test]
fn lookup_in_a_small_table() {
    // Two chunks of two buckets each; chunk 0 holds words 0 and 1, chunk 1
    // holds word 0 and the canonicalised word 2.
    let chunk_idx_map: [u8; 2] = [0, 1];
    let bitset_chunk_idx: [[u8; 2]; 2] = [[0, 1], [0, 2]];
    let canonical: [u64; 2] = [0b1010, 1 << 63];
    // Word 2: word 1 inverted, then rotated left by one.
    let canonicalized: [(u8, u8); 1] = [(1, 0x80 | 1)];
    // Bucket 0 (code points 0..64) uses word 0.
    assert!(range_search(1, &chunk_idx_map, (9, 0), &bitset_chunk_idx, &canonical, &canonicalized));
    assert!(!range_search(2, &chunk_idx_map, (9, 0), &bitset_chunk_idx, &canonical, &canonicalized));
    assert!(range_search(3, &chunk_idx_map, (9, 0), &bitset_chunk_idx, &canonical, &canonicalized));
    // Bucket 1 (64..128) uses word 1: only bit 63.
    assert!(range_search(127, &chunk_idx_map, (9, 0), &bitset_chunk_idx, &canonical, &canonicalized));
    assert!(!range_search(64, &chunk_idx_map, (9, 0), &bitset_chunk_idx, &canonical, &canonicalized));
    // Bucket 3 (192..256) uses word 2 = rotl(!(1 << 63), 1): all bits but bit 0.
    assert!(!range_search(192, &chunk_idx_map, (9, 0), &bitset_chunk_idx, &canonical, &canonicalized));
    assert!(range_search(193, &chunk_idx_map, (9, 0), &bitset_chunk_idx, &canonical, &canonicalized));
    // Chunks past the map: only the last chunk index maps (to chunk 0).
    assert!(range_search(9 * 128 + 1, &chunk_idx_map, (9, 0), &bitset_chunk_idx, &canonical, &canonicalized));
    assert!(!range_search(8 * 128 + 1, &chunk_idx_map, (9, 0), &bitset_chunk_idx, &canonical, &canonicalized));
}
