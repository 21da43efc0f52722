use sealant_capture::chunk::{sha256_hex, ChunkId};
use sealant_capture::pack::{
    compress_chunk, decompress_chunk, parse_trailer, FinishedPack, PackBuilder, PackError,
    PackIndexEntry, PackReader, PackWriter, MAX_PACK_BYTES, PACK_MAGIC,
};

fn pseudo_random(len: usize, seed: u64) -> Vec<u8> {
    let mut x = seed;
    (0..len)
        .map(|_| {
            x ^= x << 13;
            x ^= x >> 7;
            x ^= x << 17;
            (x >> 24 & 0xff) as u8
        })
        .collect()
}

/// The index of a pack: through the trailer to the JSON that it leads to.
fn parse_index(bytes: &[u8]) -> Result<Vec<PackIndexEntry>, PackError> {
    let (offset, len) = parse_trailer(bytes, bytes.len() as u64)?;
    let json = &bytes[offset as usize..(offset + len) as usize];
    let value: serde_json::Value = serde_json::from_slice(json).expect("index is json");
    Ok(value
        .as_array()
        .expect("a list")
        .iter()
        .map(|e| PackIndexEntry {
            hash: ChunkId::parse(e["hash"].as_str().expect("hash")).expect("hex"),
            offset: e["offset"].as_u64().expect("offset"),
            length: e["length"].as_u64().expect("length"),
            size: e["size"].as_u64().expect("size"),
        })
        .collect())
}

fn read(bytes: &[u8], reader: &PackReader, id: &ChunkId) -> Result<Option<Vec<u8>>, PackError> {
    reader.read_from(id, bytes)
}

fn open(p: &FinishedPack) -> PackReader {
    PackReader::open(&parse_index(&p.data).expect("index"))
}

fn fields(e: &PackIndexEntry) -> (ChunkId, u64, u64, u64) {
    (e.hash, e.offset, e.length, e.size)
}

#[test]
fn round_trip_and_trailer_layout() {
    let mut b = PackBuilder::new(MAX_PACK_BYTES);
    let a = b"aaaaaaaaaaaaaaaaaaaaaaaaaaaaaaaaaaaaaaaaaaaaaaaaaaaaaaaaaaaa".to_vec();
    let c = pseudo_random(300_000, 3);
    assert!(b.add(ChunkId::of(&a), &a).is_ok());
    assert!(b.add(ChunkId::of(&c), &c).is_ok());
    assert!(b.add(ChunkId::of(&a), &a).is_ok()); // duplicate ignored
    let packs = b.finish();
    assert_eq!(packs.len(), 1);
    let p = &packs[0];
    assert_eq!(p.entries.len(), 2);
    let bytes = &p.data;
    assert_eq!(bytes.len() as u64, p.bytes);
    assert_eq!(&bytes[bytes.len() - 8..], &PACK_MAGIC);
    assert_eq!(sha256_hex(bytes), p.sha256);
    let index: Vec<_> = parse_index(bytes).unwrap_or_default().iter().map(fields).collect();
    let entries: Vec<_> = p.entries.iter().map(fields).collect();
    assert_eq!(index, entries);

    let r = open(p);
    assert_eq!(read(bytes, &r, &ChunkId::of(&a)).ok().flatten(), Some(a));
    assert_eq!(read(bytes, &r, &ChunkId::of(&c)).ok().flatten(), Some(c));
    assert!(matches!(read(bytes, &r, &ChunkId::of(b"nope")), Ok(None)));
}

#[test]
fn spills_into_a_second_pack_past_the_cap() {
    // Incompressible chunks of 1 MiB with a 4 MiB cap: five chunks must need two packs.
    let cap = 4 * 1024 * 1024;
    let mut b = PackBuilder::new(cap);
    let mut ids = Vec::new();
    for i in 0..5u64 {
        let data = pseudo_random(1024 * 1024, 1000 + i);
        let id = ChunkId::of(&data);
        assert!(b.add(id, &data).is_ok());
        ids.push((id, data));
    }
    let packs = b.finish();
    assert_eq!(packs.len(), 2, "expected a spill into a second pack");
    for p in &packs {
        assert!(p.bytes <= cap, "pack {} over cap", p.bytes);
    }
    for (id, data) in &ids {
        let found = packs.iter().find_map(|p| match read(&p.data, &open(p), id) {
            Ok(found) => found,
            Err(_) => panic!("unreadable"),
        });
        assert_eq!(found.as_deref(), Some(data.as_slice()));
    }
}

#[test]
fn corrupt_chunk_is_detected_on_read() {
    let mut b = PackBuilder::new(MAX_PACK_BYTES);
    let data = pseudo_random(100_000, 5);
    let id = ChunkId::of(&data);
    assert!(b.add(id, &data).is_ok());
    let packs = b.finish();
    let mut bytes = packs[0].data.clone();
    bytes[10] ^= 0xff;
    let r = PackReader::open(&parse_index(&bytes).unwrap_or_default());
    assert!(read(&bytes, &r, &id).is_err());
    assert!(matches!(parse_trailer(b"short", 5), Err(PackError::BadMagic)));
}

#[test]
fn bytes_of_another_chunk_are_a_mismatch() {
    let mut b = PackBuilder::new(MAX_PACK_BYTES);
    let (x, y) = (ChunkId::of(b"x-bytes"), ChunkId::of(b"y-bytes"));
    assert!(b.add(x, b"x-bytes").is_ok());
    let packs = b.finish();
    let r = open(&packs[0]);
    let other = compress_chunk(b"y-bytes").unwrap_or_default();
    match r.read(&x, &other) {
        Err(PackError::ChunkMismatch { expected, actual }) => {
            assert_eq!(expected, x);
            assert_eq!(actual, y);
        }
        _ => panic!("expected a mismatch"),
    }
    assert!(matches!(r.read(&x, b"no zstd frame"), Err(PackError::Io(_))));
    match r.read_from(&x, &packs[0].data[..4]) {
        Err(e) => assert_eq!(e.message(), "failed to fill whole buffer"),
        Ok(_) => panic!("cut short"),
    }
    assert!(matches!(r.read_from(&y, &packs[0].data), Ok(None)));
}

#[test]
fn pack_errors_say_what_is_wrong() {
    let (x, y) = (ChunkId::of(b"x"), ChunkId::of(b"y"));
    assert_eq!(
        PackError::BadMagic.message(),
        "not a CDC pack: bad magic or truncated trailer"
    );
    assert_eq!(
        PackError::BadIndexLength(100).message(),
        "pack index length 100 does not fit the pack"
    );
    assert_eq!(
        PackError::BadIndex("EOF".into()).message(),
        "pack index is not valid JSON: EOF"
    );
    assert_eq!(
        PackError::ChunkMismatch { expected: x, actual: y }.message(),
        format!("chunk {} read back as {}", x.to_hex(), y.to_hex())
    );
    assert_eq!(
        PackError::ChunkTooLarge(7).message(),
        "chunk of 7 compressed bytes cannot fit an empty pack"
    );
    assert_eq!(PackError::Io("disk full".into()).message(), "disk full");
    let refused = decompress_chunk(b"no zstd frame", 10).err().expect("no frame");
    assert!(matches!(&refused, PackError::Io(why) if !why.is_empty()));
}

#[test]
fn a_trailer_that_promises_too_much_is_refused() {
    let mut tail = 100u64.to_le_bytes().to_vec();
    tail.extend_from_slice(&PACK_MAGIC);
    assert!(matches!(parse_trailer(&tail, 16), Err(PackError::BadIndexLength(100))));
    assert!(matches!(parse_trailer(&tail, 116), Ok((0, 100))));
    assert!(matches!(parse_trailer(&tail, 120), Ok((4, 100))));
}

#[test]
fn an_empty_chunk_and_an_empty_pack_read_back() {
    let mut b = PackBuilder::new(MAX_PACK_BYTES);
    let id = ChunkId::of(b"");
    assert!(b.add(id, b"").is_ok());
    let packs = b.finish();
    assert_eq!(read(&packs[0].data, &open(&packs[0]), &id).ok(), Some(Some(Vec::new())));
    let none = PackWriter::create(MAX_PACK_BYTES).finish();
    assert_eq!(none.data, b"[]\x02\0\0\0\0\0\0\0SLCP0001");
    assert_eq!(parse_index(&none.data).map(|e| e.len()).ok(), Some(0));
}

#[test]
fn a_compressed_chunk_is_added_where_it_fits() {
    let data = pseudo_random(2000, 4);
    let packed = compress_chunk(&data).ok().expect("compressed");
    let (id, len) = (ChunkId::of(&data), packed.len() as u64);
    let mut b = PackBuilder::new(len + 160 + 16);
    assert!(b.add_compressed(id, &packed, &data).is_ok());
    assert!(b.add_compressed(id, &packed, &data).is_ok(), "added before");
    let other = ChunkId::of(b"other");
    let mut small = PackBuilder::new(len + 160 + 15);
    match small.add_compressed(other, &packed, &data) {
        Err(PackError::ChunkTooLarge(n)) => assert_eq!(n, len),
        _ => panic!("fits no pack"),
    }
    assert!(small.finish().is_empty());
}

#[test]
fn exactly_one_pack_holds_a_chunk() {
    let mut b = PackBuilder::new(4000);
    let chunks: Vec<Vec<u8>> = (0..6).map(|i| pseudo_random(1500, 20 + i)).collect();
    for c in chunks.iter().chain(&chunks) {
        assert!(b.add(ChunkId::of(c), c).is_ok());
    }
    let packs = b.finish();
    assert!(packs.len() > 1);
    let readers: Vec<PackReader> = packs.iter().map(open).collect();
    let found = |id: &ChunkId| -> Vec<Vec<u8>> {
        let all = packs.iter().zip(&readers);
        all.filter_map(|(p, r)| read(&p.data, r, id).ok().expect("readable")).collect()
    };
    for c in &chunks {
        assert_eq!(found(&ChunkId::of(c)), [c.clone()]);
    }
    assert!(found(&ChunkId::of(b"never added")).is_empty());
}

#[test]
fn a_cap_beyond_every_estimate_is_accepted() {
    let mut b = PackBuilder::new(u64::MAX);
    assert!(b.add(ChunkId::of(b"x"), b"x").is_ok());
    assert_eq!(b.finish().len(), 1);
}

#[test]
fn compression_is_undone() {
    let data = "to be or not to be, ".repeat(200).into_bytes();
    let packed = compress_chunk(&data).unwrap_or_default();
    assert!(packed.len() < data.len());
    assert_eq!(decompress_chunk(&packed, data.len()).ok(), Some(data.clone()));
    assert!(decompress_chunk(&packed, data.len() - 1).is_err());
    assert!(decompress_chunk(b"not a frame", 10).is_err());
}

#[test]
fn a_chunk_that_fits_no_pack_is_refused() {
    let data = pseudo_random(2000, 9);
    let mut b = PackBuilder::new(1000);
    match b.add(ChunkId::of(&data), &data) {
        Err(PackError::ChunkTooLarge(n)) => assert!(n + 160 + 16 > 1000),
        _ => panic!("expected a refusal"),
    }
    assert!(!b.contains(&ChunkId::of(&data)));
    assert!(b.add(ChunkId::of(b"small"), b"small").is_ok());
    assert!(b.contains(&ChunkId::of(b"small")));
    assert_eq!(b.finish().len(), 1);
}

#[test]
fn finished_packs_are_handed_out_once() {
    let cap = 4096;
    let mut b = PackBuilder::new(cap);
    for i in 0..4u64 {
        let data = pseudo_random(1700, 50 + i);
        assert!(b.add(ChunkId::of(&data), &data).is_ok());
    }
    let taken = b.take_finished();
    assert_eq!(taken.len(), 1);
    assert_eq!(b.take_finished().len(), 0);
    let rest = b.finish();
    assert_eq!(rest.len(), 1);
    assert_eq!(taken[0].entries.len() + rest[0].entries.len(), 4);
}

#[test]
fn a_writer_counts_what_it_holds() {
    let mut w = PackWriter::create(1000);
    assert!(w.is_empty());
    assert!(w.fits(1000 - 160 - 16));
    assert!(!w.fits(1000 - 160 - 15));
    w.append(ChunkId::of(b"a"), b"packed", 1);
    assert_eq!(w.len(), 1);
    let p = w.finish();
    assert_eq!(fields(&p.entries[0]), (ChunkId::of(b"a"), 0, 6, 1));
    assert_eq!(&p.data[..6], b"packed");
}

#[test]
fn a_reader_lists_its_chunks_in_order() {
    let mut b = PackBuilder::new(MAX_PACK_BYTES);
    for c in [b"q", b"a", b"z", b"m"] {
        assert!(b.add(ChunkId::of(c), c).is_ok());
    }
    let packs = b.finish();
    let r = open(&packs[0]);
    let ids = r.chunk_ids();
    assert_eq!(ids.len(), 4);
    assert!(ids.windows(2).all(|w| w[0].to_hex() < w[1].to_hex()));
    assert!(r.contains(&ChunkId::of(b"q")));
    assert!(!r.contains(&ChunkId::of(b"b")));
}
