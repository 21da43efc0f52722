use sealant_capture::chunk::{
    chunk_bytes, chunks_of, sha256_hex, ChunkId, MAX_CHUNK_SIZE, MIN_CHUNK_SIZE,
};

fn pseudo_random(len: usize, seed: u64) -> Vec<u8> {
    let mut x = seed;
    (0..len)
        .map(|_| {
            x ^= x << 13;
            x ^= x >> 7;
            x ^= x << 17;
            (x & 0xff) as u8
        })
        .collect()
}

#[test]
fn small_file_is_one_chunk_and_empty_is_none() {
    let data = b"hello world".to_vec();
    let chunks = chunk_bytes(&data);
    assert_eq!(chunks.len(), 1);
    assert_eq!(chunks[0].data, data);
    assert_eq!(chunks[0].id, ChunkId::of(&data));
    assert!(chunk_bytes(&[]).is_empty());
}

#[test]
fn chunk_sizes_respect_bounds_and_concatenate_back() {
    let data = pseudo_random(10 * 1024 * 1024, 7);
    let chunks = chunk_bytes(&data);
    assert!(chunks.len() > 2);
    for (i, c) in chunks.iter().enumerate() {
        assert!(c.data.len() <= MAX_CHUNK_SIZE);
        if i + 1 < chunks.len() {
            assert!(c.data.len() >= MIN_CHUNK_SIZE);
        }
    }
    let joined: Vec<u8> = chunks.iter().flat_map(|c| c.data.iter().copied()).collect();
    assert_eq!(joined, data);
}

#[test]
fn append_only_changes_the_tail_chunk() {
    let mut data = pseudo_random(9_500_000, 11);
    let before = chunk_bytes(&data);
    data.extend_from_slice(&pseudo_random(6 * 1024, 99));
    let after = chunk_bytes(&data);
    let before_ids: std::collections::HashSet<_> = before.iter().map(|c| c.id).collect();
    let new: Vec<_> = after.iter().filter(|c| !before_ids.contains(&c.id)).collect();
    assert!(new.len() <= 2, "expected at most two new chunks, got {}", new.len());
}

#[test]
fn chunk_id_round_trips_hex_and_serde() {
    let id = ChunkId::of(b"x");
    assert_eq!(ChunkId::parse(&id.to_hex()), Some(id));
    let json = serde_json::to_string(&id.to_hex()).unwrap();
    assert_eq!(json, format!("\"{}\"", id.to_hex()));
    let text: String = serde_json::from_str(&json).unwrap();
    let back: ChunkId = ChunkId::parse(&text).unwrap();
    assert_eq!(back, id);
    assert!(ChunkId::parse("zz").is_none());
}

#[test]
fn digests_are_those_of_the_standard() {
    assert_eq!(
        sha256_hex(b""),
        "e3b0c44298fc1c149afbf4c8996fb92427ae41e4649b934ca495991b7852b855"
    );
    assert_eq!(
        sha256_hex(b"abc"),
        "ba7816bf8f01cfea414140de5dae2223b00361a396177a9cb410ff61f20015ad"
    );
    assert_eq!(ChunkId::of(b"abc").to_hex(), sha256_hex(b"abc"));
}

#[test]
fn a_hex_form_has_sixty_four_digits_of_either_case() {
    let id = ChunkId::of(b"abc");
    assert_eq!(ChunkId::parse(&id.to_hex().to_uppercase()), Some(id));
    assert_eq!(ChunkId::parse(&id.to_hex()[2..]), None);
    assert_eq!(ChunkId::parse(&"g".repeat(64)), None);
    assert_eq!(ChunkId::parse(""), None);
    assert_eq!(ChunkId::from_bytes([171; 32]).to_hex(), "ab".repeat(32));
}

#[test]
fn a_file_of_the_minimum_size_is_one_chunk() {
    let data = pseudo_random(MIN_CHUNK_SIZE, 3);
    let chunks = chunk_bytes(&data);
    assert_eq!(chunks.len(), 1);
    assert_eq!(chunks[0].data, data);
}

#[test]
fn pieces_get_the_ids_of_their_bytes() {
    let chunks = chunks_of(vec![b"a".to_vec(), Vec::new(), b"b".to_vec()]);
    assert_eq!(chunks.len(), 3);
    assert_eq!(chunks[0].id, ChunkId::of(b"a"));
    assert_eq!(chunks[1].id, ChunkId::of(b""));
    assert_eq!(chunks[2].data, b"b".to_vec());
}
