use exifmv::hashing::{hash_contents, hash_mode, HashMode, StreamingHash, HASH_BUFFER_SIZE, STREAMING_THRESHOLD};

#[test]
fn hash_known_values() {
    assert_eq!(hash_contents(b""), 0x2D06800538D394C2);
    assert_eq!(hash_contents(b"TEST"), xxhash_rust::xxh3::xxh3_64(b"TEST"));
    assert_ne!(hash_contents(b"TEST"), hash_contents(b"tEST"));
}

#[test]
fn streaming_equals_whole() {
    let data: Vec<u8> = (0..300_000u32).map(|i| (i * 7 + i / 13) as u8).collect();
    let mut h = StreamingHash::new();
    for chunk in data.chunks(HASH_BUFFER_SIZE) {
        h.update(chunk);
    }
    assert_eq!(h.digest(), hash_contents(&data));
    let empty = StreamingHash::new();
    assert_eq!(empty.digest(), hash_contents(b""));
}

#[test]
fn hash_mode_threshold() {
    assert_eq!(STREAMING_THRESHOLD, 64 * 1024 * 1024);
    assert_eq!(HASH_BUFFER_SIZE, 64 * 1024);
    assert_eq!(hash_mode(0), HashMode::WholeFile);
    assert_eq!(hash_mode(STREAMING_THRESHOLD), HashMode::WholeFile);
    assert_eq!(hash_mode(STREAMING_THRESHOLD + 1), HashMode::Streaming);
}
