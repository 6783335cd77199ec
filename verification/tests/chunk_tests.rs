use keyring_cursed::chunk::{chunks_needed, max_chunk_size};

#[test]
fn test_chunks_needed() {
    let chunk_size = max_chunk_size();

    assert_eq!(chunks_needed(0), 1);
    assert_eq!(chunks_needed(1), 1);
    assert_eq!(chunks_needed(chunk_size), 1);
    assert_eq!(chunks_needed(chunk_size + 1), 2);
    assert_eq!(chunks_needed(chunk_size * 3), 3);
    assert_eq!(chunks_needed(chunk_size * 3 + 1), 4);
}

#[test]
fn test_max_chunk_size_is_positive() {
    assert!(max_chunk_size() > 0);
    assert!(max_chunk_size() >= 1000); // Should be at least 1KB usable
}

#[test]
fn root_max_chunk_size_matches_sizer() {
    assert_eq!(keyring_cursed::max_chunk_size(), max_chunk_size());
}
