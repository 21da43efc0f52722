//! CDC pack container: a sequence of zstd-compressed chunks, a trailing JSON index of
//! `{ hash, offset, length, size }`, an 8-byte little-endian index length, and the magic
//! `SLCP0001`. A pack is at most 64 MiB, one PUT, keyed by the sha256 of its bytes.

use vstd::bytes::*;
use vstd::prelude::*;
use vstd::string::*;
use crate::chunk;
use crate::chunk::ChunkId;
use crate::json;
use crate::order;
use crate::order::{SortedMap, SortedSet};
use crate::text;

verus! {

/// Trailing magic: `SLCP0001`.
pub const PACK_MAGIC: [u8; 8] = [83, 76, 67, 80, 48, 48, 48, 49];

/// Pack size cap (one PUT, never multipart).
pub const MAX_PACK_BYTES: u64 = 67_108_864;

/// zstd level for chunks: fast, with real compression for text and JSON.
pub const ZSTD_LEVEL: i32 = 3;

/// The index length and the magic.
pub const TRAILER_LEN: u64 = 16;

/// Conservative per-entry size of the JSON index, used for the cap check before finishing.
pub const INDEX_ENTRY_ESTIMATE: u64 = 160;

/// A cap under which the estimate holds for every entry, whatever its numbers.
pub const MAX_ESTIMATED_CAP: u64 = 100_000_000_000_000_000;

/// One entry of a pack's trailing index.
#[derive(Debug, Clone, Copy)]
pub struct PackIndexEntry {
    /// sha256 of the uncompressed chunk.
    pub hash: ChunkId,
    /// Byte offset of the compressed chunk within the pack.
    pub offset: u64,
    /// Compressed length in bytes.
    pub length: u64,
    /// Uncompressed size in bytes.
    pub size: u64,
}

impl PackIndexEntry {
    /// The entry as a JSON object.
    pub open spec fn written(&self) -> Seq<char> {
        json::json_object(
            seq![
                json::json_member("hash"@, json::json_string(chunk::hex_text(self.hash@))),
                json::json_member("offset"@, text::decimal(self.offset as nat)),
                json::json_member("length"@, text::decimal(self.length as nat)),
                json::json_member("size"@, text::decimal(self.size as nat)),
            ],
        )
    }
}

/// Pack errors.
#[derive(Debug)]
pub enum PackError {
    /// Missing or wrong trailing magic.
    BadMagic,
    /// A length in the trailer or the index does not fit.
    BadIndexLength(u64),
    /// The trailing index is not valid JSON: why.
    BadIndex(String),
    /// A chunk's bytes did not hash to its id.
    ChunkMismatch {
        /// Id the index promised.
        expected: ChunkId,
        /// Id of the bytes read.
        actual: ChunkId,
    },
    /// A single chunk would exceed the pack cap.
    ChunkTooLarge(u64),
    /// The codec refused the bytes, or a file could not be read or written: why.
    Io(String),
}

impl PackError {
    /// What the error says.
    pub open spec fn says(&self) -> Seq<char> {
        match self {
            PackError::BadMagic => "not a CDC pack: bad magic or truncated trailer"@,
            PackError::BadIndexLength(n) => "pack index length "@ + text::decimal(*n as nat)
                + " does not fit the pack"@,
            PackError::BadIndex(why) => "pack index is not valid JSON: "@ + why@,
            PackError::ChunkMismatch { expected, actual } => "chunk "@ + chunk::hex_text(expected@)
                + " read back as "@ + chunk::hex_text(actual@),
            PackError::ChunkTooLarge(n) => "chunk of "@ + text::decimal(*n as nat)
                + " compressed bytes cannot fit an empty pack"@,
            PackError::Io(why) => why@,
        }
    }

    /// What the error says.
    pub fn message(&self) -> (r: String)
        ensures
            r@ == self.says(),
    {
        match self {
            PackError::BadMagic => "not a CDC pack: bad magic or truncated trailer".to_owned(),
            PackError::BadIndexLength(n) => {
                let mut out: String = "pack index length ".to_owned();
                out.append(text::dec(*n).as_str());
                out.append(" does not fit the pack");
                out
            },
            PackError::BadIndex(why) => text::concat("pack index is not valid JSON: ", why.as_str()),
            PackError::ChunkMismatch { expected, actual } => {
                let mut out: String = "chunk ".to_owned();
                out.append(expected.to_hex().as_str());
                out.append(" read back as ");
                out.append(actual.to_hex().as_str());
                out
            },
            PackError::ChunkTooLarge(n) => {
                let mut out: String = "chunk of ".to_owned();
                out.append(text::dec(*n).as_str());
                out.append(" compressed bytes cannot fit an empty pack");
                out
            },
            PackError::Io(why) => why.clone(),
        }
    }
}

/// What zstd makes of `data` at a level.
pub uninterp spec fn zstd_packed(data: Seq<u8>, level: int) -> Seq<u8>;

/// What zstd makes of compressed `data`, given room for `capacity` bytes; `None` when it refuses
/// them.
pub uninterp spec fn zstd_unpacked(data: Seq<u8>, capacity: nat) -> Option<Seq<u8>>;

/// Whether there can be a buffer for the worst that zstd makes of `len` bytes.
pub open spec fn packable(len: nat) -> bool {
    len + len / 256 <= isize::MAX
}

/// `zstd::bulk::compress`: the compressed bytes, under the name [`zstd_packed`]. Given room for
/// at least as many bytes as went in, decompressing them gives those bytes back. It reserves room
/// for the worst case, which is why that has to be a possible size. Whether zstd gets the memory it
/// works in, and the words of an error, are not stated.
#[verifier::external_body]
fn zstd_compress(data: &[u8], level: i32) -> (r: Result<Vec<u8>, String>)
    requires
        packable(data@.len()),
    ensures
        match r {
            Ok(c) => c@ == zstd_packed(data@, level as int) && (forall|capacity: nat|
                data@.len() <= capacity <= isize::MAX ==> #[trigger] zstd_unpacked(
                    c@,
                    capacity,
                ) == Some(data@)),
            Err(_) => true,
        },
{
    zstd::bulk::compress(data, level).map_err(|e| e.to_string())
}

/// `zstd::bulk::decompress`: the uncompressed bytes, or an error, under the name
/// [`zstd_unpacked`]. It reserves `capacity` bytes, which is why that has to be a possible size.
/// The words of an error are not stated.
#[verifier::external_body]
fn zstd_decompress(data: &[u8], capacity: usize) -> (r: Result<Vec<u8>, String>)
    requires
        capacity <= isize::MAX,
    ensures
        match r {
            Ok(p) => zstd_unpacked(data@, capacity as nat) == Some(p@),
            Err(_) => zstd_unpacked(data@, capacity as nat) is None,
        },
{
    zstd::bulk::decompress(data, capacity).map_err(|e| e.to_string())
}

/// Compress one chunk.
pub fn compress_chunk(data: &[u8]) -> (r: Result<Vec<u8>, PackError>)
    requires
        packable(data@.len()),
    ensures
        match r {
            Ok(c) => c@ == zstd_packed(data@, ZSTD_LEVEL as int) && unpacks_to(c@, data@),
            Err(e) => e is Io,
        },
{
    match zstd_compress(data, ZSTD_LEVEL) {
        Ok(c) => Ok(c),
        Err(why) => Err(PackError::Io(why)),
    }
}

/// Whether decompressing `compressed` gives `plain`, given room for exactly that much.
pub open spec fn unpacks_to(compressed: Seq<u8>, plain: Seq<u8>) -> bool {
    plain.len() <= isize::MAX ==> zstd_unpacked(compressed, plain.len()) == Some(plain)
}

/// Decompress one chunk whose uncompressed size is known.
pub fn decompress_chunk(data: &[u8], size: usize) -> (r: Result<Vec<u8>, PackError>)
    requires
        size <= isize::MAX,
    ensures
        match r {
            Ok(p) => zstd_unpacked(data@, size as nat) == Some(p@),
            Err(e) => e is Io && zstd_unpacked(data@, size as nat) is None,
        },
{
    match zstd_decompress(data, size) {
        Ok(p) => Ok(p),
        Err(why) => Err(PackError::Io(why)),
    }
}

/// The index of a pack as it is written.
pub open spec fn written_index(entries: Seq<PackIndexEntry>) -> Seq<char> {
    json::json_array(Seq::new(entries.len(), |i: int| entries[i].written()))
}

/// The bytes of a whole pack.
pub open spec fn pack_bytes(body: Seq<u8>, entries: Seq<PackIndexEntry>) -> Seq<u8> {
    let index = json::document_bytes(written_index(entries));
    body + index + spec_u64_to_le_bytes(index.len() as u64) + PACK_MAGIC@
}

/// Whether the entries lie one behind the other and fill a body of `len` bytes.
pub open spec fn laid_out(entries: Seq<PackIndexEntry>, len: nat) -> bool {
    &&& entries.len() == 0 ==> len == 0
    &&& entries.len() > 0 ==> entries[0].offset == 0 && entries.last().offset
        + entries.last().length == len
    &&& forall|i: int|
        0 <= i < entries.len() - 1 ==> (#[trigger] entries[i]).offset + entries[i].length
            == entries[i + 1].offset
    &&& forall|i: int|
        0 <= i < entries.len() ==> (#[trigger] entries[i]).offset + entries[i].length <= len
}

/// Whether an entry's place in `body` decompresses to `plain`.
pub open spec fn stores(
    body: Seq<u8>,
    entries: Seq<PackIndexEntry>,
    i: int,
    id: Seq<u8>,
    plain: Seq<u8>,
) -> bool {
    &&& 0 <= i < entries.len()
    &&& entries[i].hash@ == id
    &&& entries[i].size == plain.len()
    &&& entries[i].offset + entries[i].length <= body.len()
    &&& unpacks_to(
        body.subrange(entries[i].offset as int, entries[i].offset + entries[i].length),
        plain,
    )
}

/// Whether no chunk has two places.
pub open spec fn lists_once(entries: Seq<PackIndexEntry>) -> bool {
    forall|i: int, j: int|
        0 <= i < j < entries.len() ==> (#[trigger] entries[i]).hash@ != (#[trigger] entries[j]).hash@
}

/// Whether a chunk has a place.
pub open spec fn lists(entries: Seq<PackIndexEntry>, id: Seq<u8>) -> bool {
    exists|i: int| 0 <= i < entries.len() && (#[trigger] entries[i]).hash@ == id
}

/// Whether no two packs have a place for the same chunk.
pub open spec fn apart(packs: Seq<FinishedPack>) -> bool {
    forall|a: int, b: int, id: Seq<u8>|
        0 <= a < packs.len() && 0 <= b < packs.len() && a != b && #[trigger] lists(
            packs[a].entries@,
            id,
        ) ==> !#[trigger] lists(packs[b].entries@, id)
}

/// Whether packs hold some chunks, each in one place of one pack, and nothing else.
pub open spec fn hold_exactly(packs: Seq<FinishedPack>, plain: Map<Seq<u8>, Seq<u8>>) -> bool {
    &&& forall|k: int|
        0 <= k < packs.len() ==> (#[trigger] packs[k]).wf() && lists_once(packs[k].entries@)
    &&& forall|id: Seq<u8>| #[trigger]
        plain.dom().contains(id) ==> exists|k: int|
            0 <= k < packs.len() && #[trigger] packs[k].has(id, plain[id])
    &&& forall|k: int, id: Seq<u8>|
        0 <= k < packs.len() && #[trigger] lists(packs[k].entries@, id) ==> plain.dom().contains(id)
    &&& apart(packs)
}

/// Whether a pack stores the chunk `id` with the content `plain`.
pub open spec fn holds_chunk(
    body: Seq<u8>,
    entries: Seq<PackIndexEntry>,
    id: Seq<u8>,
    plain: Seq<u8>,
) -> bool {
    exists|i: int| #[trigger] stores(body, entries, i, id, plain)
}

/// A finished pack.
pub struct FinishedPack {
    /// The whole pack.
    pub data: Vec<u8>,
    /// Lowercase hex sha256 of the whole pack.
    pub sha256: String,
    /// Size of the pack.
    pub bytes: u64,
    /// The trailing index.
    pub entries: Vec<PackIndexEntry>,
}

impl FinishedPack {
    /// Whether the pack is what its index says: the chunks, the index, the trailer, and the
    /// name of it all.
    pub open spec fn wf(&self) -> bool {
        &&& self.sha256@ == chunk::content_name(self.data@)
        &&& self.sha256@.len() == 64
        &&& self.bytes == self.data@.len()
        &&& exists|body: Seq<u8>|
            #![trigger laid_out(self.entries@, body.len())]
            laid_out(self.entries@, body.len()) && self.data@ == pack_bytes(body, self.entries@)
    }

    /// Whether the pack stores the chunk `id` with the content `plain`.
    pub open spec fn has(&self, id: Seq<u8>, plain: Seq<u8>) -> bool {
        holds_chunk(self.data@, self.entries@, id, plain)
    }
}

/// Incremental writer for one pack.
pub struct PackWriter {
    /// The compressed chunks so far.
    pub body: Vec<u8>,
    /// The index so far.
    pub entries: Vec<PackIndexEntry>,
    /// The cap.
    pub cap: u64,
}

impl PackWriter {
    /// Whether the index describes the body.
    pub open spec fn wf(&self) -> bool {
        laid_out(self.entries@, self.body@.len())
    }

    /// The size that the pack is estimated to have with `more` chunks of `len` bytes in all.
    pub open spec fn estimate(&self, len: nat, more: nat) -> nat {
        self.body@.len() + len + (self.entries@.len() + more) * INDEX_ENTRY_ESTIMATE as nat
            + TRAILER_LEN as nat
    }

    /// Start a pack.
    pub fn create(cap: u64) -> (r: Self)
        ensures
            r.wf(),
            r.body@.len() == 0,
            r.entries@.len() == 0,
            r.cap == cap,
    {
        PackWriter { body: Vec::new(), entries: Vec::new(), cap }
    }

    /// Whether a compressed chunk of `compressed_len` bytes fits under the cap.
    pub fn fits(&self, compressed_len: u64) -> (r: bool)
        ensures
            r == (self.estimate(compressed_len as nat, 1) <= self.cap),
    {
        let index_estimate: u128 = (self.entries.len() as u128 + 1) * INDEX_ENTRY_ESTIMATE as u128;
        self.body.len() as u128 + compressed_len as u128 + index_estimate + TRAILER_LEN as u128
            <= self.cap as u128
    }

    /// Whether nothing has been appended yet.
    pub fn is_empty(&self) -> (r: bool)
        ensures
            r == (self.entries@.len() == 0),
    {
        self.entries.len() == 0
    }

    /// Number of chunks appended so far.
    pub fn len(&self) -> (r: usize)
        ensures
            r == self.entries@.len(),
    {
        self.entries.len()
    }

    /// Append an already-compressed chunk.
    pub fn append(&mut self, hash: ChunkId, compressed: &[u8], size: u64)
        requires
            old(self).wf(),
        ensures
            final(self).wf(),
            final(self).cap == old(self).cap,
            final(self).body@ == old(self).body@ + compressed@,
            final(self).entries@ == old(self).entries@.push(
                PackIndexEntry {
                    hash,
                    offset: old(self).body@.len() as u64,
                    length: compressed@.len() as u64,
                    size,
                },
            ),
    {
        let entry = PackIndexEntry {
            hash,
            offset: self.body.len() as u64,
            length: compressed.len() as u64,
            size,
        };
        let ghost before = self.entries@;
        let ghost len0 = self.body@.len();
        self.body.extend_from_slice(compressed);
        assert(self.body@ =~= old(self).body@ + compressed@);
        self.entries.push(entry);
        proof {
            let after = self.entries@;
            assert forall|i: int| 0 <= i < after.len() - 1 implies (#[trigger] after[i]).offset
                + after[i].length == after[i + 1].offset by {
                assert(after[i] == before[i]);
                if i + 1 < before.len() {
                    assert(after[i + 1] == before[i + 1]);
                }
            }
        }
    }

    /// Write the trailer and return the finished pack.
    pub fn finish(self) -> (r: FinishedPack)
        requires
            self.wf(),
        ensures
            r.wf(),
            r.entries@ == self.entries@,
            r.data@ == pack_bytes(self.body@, self.entries@),
    {
        let mut items: Vec<String> = Vec::new();
        let mut i: usize = 0;
        while i < self.entries.len()
            invariant
                0 <= i <= self.entries@.len(),
                items@.len() == i,
                forall|j: int| 0 <= j < i ==> (#[trigger] items@[j])@ == self.entries@[j].written(),
            decreases self.entries@.len() - i,
        {
            items.push(write_entry(&self.entries[i]));
            i = i + 1;
        }
        assert(order::views(items@) =~= Seq::new(
            self.entries@.len(),
            |j: int| self.entries@[j].written(),
        ));
        let index: Vec<u8> = json::bytes_of(json::array(&items).as_str());
        let len_bytes: Vec<u8> = u64_to_le_bytes(index.len() as u64);
        let PackWriter { body, entries, cap } = self;
        let ghost body0 = body@;
        let mut data: Vec<u8> = body;
        data.extend_from_slice(index.as_slice());
        data.extend_from_slice(len_bytes.as_slice());
        data.extend_from_slice(PACK_MAGIC.as_slice());
        assert(data@ =~= pack_bytes(body0, entries@));
        let sha256: String = chunk::sha256_hex(data.as_slice());
        let bytes: u64 = data.len() as u64;
        assert(laid_out(entries@, body0.len()));
        let r = FinishedPack { data, sha256, bytes, entries };
        assert(r.data@ == pack_bytes(body0, r.entries@));
        assert(laid_out(r.entries@, body0.len()));
        assert(exists|body: Seq<u8>|
            #![trigger laid_out(r.entries@, body.len())]
            laid_out(r.entries@, body.len()) && r.data@ == pack_bytes(body, r.entries@));
        r
    }
}

fn write_entry(e: &PackIndexEntry) -> (r: String)
    ensures
        r@ == e.written(),
{
    let mut members: Vec<String> = Vec::new();
    members.push(json::member("hash", json::quote(e.hash.to_hex().as_str()).as_str()));
    members.push(json::member("offset", text::dec(e.offset).as_str()));
    members.push(json::member("length", text::dec(e.length).as_str()));
    members.push(json::member("size", text::dec(e.size).as_str()));
    assert(order::views(members@) =~= seq![
        json::json_member("hash"@, json::json_string(chunk::hex_text(e.hash@))),
        json::json_member("offset"@, text::decimal(e.offset as nat)),
        json::json_member("length"@, text::decimal(e.length as nat)),
        json::json_member("size"@, text::decimal(e.size as nat)),
    ]);
    json::object(&members)
}

/// The place of the index in a pack of `total` bytes whose last bytes are `tail`: its offset and
/// its length.
pub fn parse_trailer(tail: &[u8], total: u64) -> (r: Result<(u64, u64), PackError>)
    ensures
        match r {
            Ok((offset, len)) => {
                &&& has_trailer(tail@, total as nat)
                &&& len == trailer_length(tail@)
                &&& len <= total - TRAILER_LEN
                &&& offset == total - TRAILER_LEN - len
            },
            Err(PackError::BadMagic) => !has_trailer(tail@, total as nat),
            Err(PackError::BadIndexLength(len)) => has_trailer(tail@, total as nat) && len
                == trailer_length(tail@) && len > total - TRAILER_LEN,
            Err(_) => false,
        },
{
    if tail.len() < 16 || total < TRAILER_LEN {
        return Err(PackError::BadMagic);
    }
    let n: usize = tail.len();
    let magic: &[u8] = vstd::slice::slice_subrange(tail, n - 8, n);
    let mut i: usize = 0;
    while i < 8
        invariant
            0 <= i <= 8,
            magic@.len() == 8,
            n == tail@.len(),
            n >= 16,
            magic@ == tail@.subrange(n - 8, n as int),
            forall|j: int| 0 <= j < i ==> magic@[j] == PACK_MAGIC@[j],
        decreases 8 - i,
    {
        if magic[i] != PACK_MAGIC[i] {
            assert(tail@.subrange(n - 8, n as int)[i as int] != PACK_MAGIC@[i as int]);
            return Err(PackError::BadMagic);
        }
        i = i + 1;
    }
    assert(magic@ =~= PACK_MAGIC@);
    let index_len: u64 = u64_from_le_bytes(vstd::slice::slice_subrange(tail, n - 16, n - 8));
    if index_len > total - TRAILER_LEN {
        return Err(PackError::BadIndexLength(index_len));
    }
    Ok((total - TRAILER_LEN - index_len, index_len))
}

/// Whether a pack of `total` bytes with these last bytes ends in a trailer with the magic.
pub open spec fn has_trailer(tail: Seq<u8>, total: nat) -> bool {
    tail.len() >= 16 && total >= 16 && tail.subrange(tail.len() - 8, tail.len() as int)
        == PACK_MAGIC@
}

/// The index length that a trailer states.
pub open spec fn trailer_length(tail: Seq<u8>) -> u64 {
    spec_u64_from_le_bytes(tail.subrange(tail.len() - 16, tail.len() - 8))
}

/// A finished pack's trailer leads to its index: what follows the chunks is exactly the written
/// index.
pub proof fn law_trailer_leads_to_the_index(
    body: Seq<u8>,
    entries: Seq<PackIndexEntry>,
)
    requires
        pack_bytes(body, entries).len() <= u64::MAX,
    ensures
        ({
            let pack = pack_bytes(body, entries);
            let index = json::document_bytes(written_index(entries));
            &&& has_trailer(pack, pack.len())
            &&& trailer_length(pack) == index.len()
            &&& pack.len() - TRAILER_LEN - index.len() == body.len()
            &&& pack.subrange(body.len() as int, (body.len() + index.len()) as int) == index
        }),
{
    let pack = pack_bytes(body, entries);
    let index = json::document_bytes(written_index(entries));
    lemma_auto_spec_u64_to_from_le_bytes();
    let len_bytes = spec_u64_to_le_bytes(index.len() as u64);
    assert(len_bytes.len() == 8);
    assert(PACK_MAGIC@.len() == 8);
    assert(pack.subrange(pack.len() - 8, pack.len() as int) =~= PACK_MAGIC@);
    assert(pack.subrange(pack.len() - 16, pack.len() - 8) =~= len_bytes);
    assert(pack.subrange(body.len() as int, (body.len() + index.len()) as int) =~= index);
}

spec fn pow10(k: nat) -> nat
    decreases k,
{
    if k == 0 {
        1
    } else {
        10 * pow10((k - 1) as nat)
    }
}

proof fn lemma_decimal_len(n: nat, k: nat)
    requires
        k >= 1,
        n < pow10(k),
    ensures
        1 <= text::decimal(n).len() <= k,
        forall|i: int| 0 <= i < text::decimal(n).len() ==> '0' <= #[trigger] text::decimal(n)[i] <= '9',
    decreases k,
{
    if n >= 10 {
        assert(k >= 2) by {
            reveal_with_fuel(pow10, 2);
        }
        assert(n / 10 < pow10((k - 1) as nat)) by {
            assert(pow10(k) == 10 * pow10((k - 1) as nat));
        }
        lemma_decimal_len(n / 10, (k - 1) as nat);
        let d = text::decimal(n / 10);
        assert(text::decimal(n) == d.push(text::digit(n % 10)));
        assert forall|i: int| 0 <= i < text::decimal(n).len() implies '0' <= #[trigger] text::decimal(
            n,
        )[i] <= '9' by {
            if i < d.len() {
                assert(text::decimal(n)[i] == d[i]);
            }
        }
    }
}

proof fn lemma_pow10()
    ensures
        pow10(17) == MAX_ESTIMATED_CAP,
        pow10(20) > u64::MAX,
{
    reveal_with_fuel(pow10, 21);
    assert(pow10(10) == 10_000_000_000);
    assert(pow10(17) == 100_000_000_000_000_000);
    assert(pow10(20) == 100_000_000_000_000_000_000);
}

proof fn lemma_hash_text(id: ChunkId)
    ensures
        json::json_string(chunk::hex_text(id@)).len() == 66,
        vstd::utf8::is_ascii_chars(json::json_string(chunk::hex_text(id@))),
{
    let h = chunk::hex_text(id@);
    assert(id@.len() == 32);
    assert forall|i: int| 0 <= i < h.len() implies json::json_char(#[trigger] h[i]) == seq![h[i]]
        && h[i] <= '\u{7f}' by {
        let b = id@[i / 2] as nat;
        assert(b / 16 < 16 && b % 16 < 16);
    }
    json::lemma_plain(h);
}

proof fn lemma_entry_len(e: PackIndexEntry)
    requires
        e.offset < MAX_ESTIMATED_CAP,
        e.length < MAX_ESTIMATED_CAP,
    ensures
        e.written().len() <= 157,
        vstd::utf8::is_ascii_chars(e.written()),
{
    reveal_strlit("hash");
    reveal_strlit("offset");
    reveal_strlit("length");
    reveal_strlit("size");
    lemma_pow10();
    lemma_hash_text(e.hash);
    lemma_decimal_len(e.offset as nat, 17);
    lemma_decimal_len(e.length as nat, 17);
    lemma_decimal_len(e.size as nat, 20);
    let m0 = json::json_member("hash"@, json::json_string(chunk::hex_text(e.hash@)));
    let m1 = json::json_member("offset"@, text::decimal(e.offset as nat));
    let m2 = json::json_member("length"@, text::decimal(e.length as nat));
    let m3 = json::json_member("size"@, text::decimal(e.size as nat));
    assert(vstd::utf8::is_ascii_chars(m0) && m0.len() == 73);
    assert(vstd::utf8::is_ascii_chars(m1) && m1.len() <= 26);
    assert(vstd::utf8::is_ascii_chars(m2) && m2.len() <= 26);
    assert(vstd::utf8::is_ascii_chars(m3) && m3.len() <= 27);
    let all = seq![m0, m1, m2, m3];
    reveal_with_fuel(json::json_list, 5);
    assert(all.drop_last() =~= seq![m0, m1, m2]);
    assert(seq![m0, m1, m2].drop_last() =~= seq![m0, m1]);
    assert(seq![m0, m1].drop_last() =~= seq![m0]);
    let list = m0 + seq![','] + m1 + seq![','] + m2 + seq![','] + m3;
    assert(json::json_list(all) =~= list);
    assert(vstd::utf8::is_ascii_chars(list));
    assert(e.written() =~= seq!['{'] + list + seq!['}']);
}

proof fn lemma_list_len(items: Seq<Seq<char>>)
    requires
        forall|i: int|
            0 <= i < items.len() ==> (#[trigger] items[i]).len() <= 157
                && vstd::utf8::is_ascii_chars(items[i]),
    ensures
        json::json_list(items).len() <= 158 * items.len(),
        vstd::utf8::is_ascii_chars(json::json_list(items)),
    decreases items.len(),
{
    if items.len() > 1 {
        lemma_list_len(items.drop_last());
    }
}

/// The index of a pack takes no more than the estimate, as long as its places stay below
/// [`MAX_ESTIMATED_CAP`].
pub proof fn lemma_index_len(entries: Seq<PackIndexEntry>)
    requires
        entries.len() > 0,
        forall|i: int|
            0 <= i < entries.len() ==> (#[trigger] entries[i]).offset < MAX_ESTIMATED_CAP
                && entries[i].length < MAX_ESTIMATED_CAP,
    ensures
        json::document_bytes(written_index(entries)).len() <= entries.len()
            * INDEX_ENTRY_ESTIMATE,
{
    let items = Seq::new(entries.len(), |i: int| entries[i].written());
    assert forall|i: int| 0 <= i < items.len() implies (#[trigger] items[i]).len() <= 157
        && vstd::utf8::is_ascii_chars(items[i]) by {
        lemma_entry_len(entries[i]);
    }
    lemma_list_len(items);
    assert(vstd::utf8::is_ascii_chars(written_index(entries)));
    vstd::utf8::is_ascii_chars_encode_utf8(written_index(entries));
}

/// What a body stores, a longer body that begins with it stores too.
pub proof fn lemma_stores_prefix(
    body: Seq<u8>,
    longer: Seq<u8>,
    entries: Seq<PackIndexEntry>,
    more: Seq<PackIndexEntry>,
    id: Seq<u8>,
    plain: Seq<u8>,
)
    requires
        holds_chunk(body, entries, id, plain),
        body.len() <= longer.len(),
        longer.take(body.len() as int) == body,
        entries.len() <= more.len(),
        more.take(entries.len() as int) == entries,
    ensures
        holds_chunk(longer, more, id, plain),
{
    let i = choose|i: int| #[trigger] stores(body, entries, i, id, plain);
    assert(more[i] == more.take(entries.len() as int)[i]);
    let a = entries[i].offset as int;
    let b = entries[i].offset + entries[i].length;
    assert(longer.subrange(a, b) =~= body.subrange(a, b)) by {
        assert forall|j: int| a <= j < b implies longer[j] == body[j] by {
            assert(longer.take(body.len() as int)[j] == longer[j]);
        }
    }
    assert(stores(longer, more, i, id, plain));
}

/// Builds one or more packs from a stream of chunks, rotating at the cap and skipping chunks
/// already added to this builder.
pub struct PackBuilder {
    /// The cap of each pack.
    pub cap: u64,
    /// The pack being written.
    pub current: Option<PackWriter>,
    /// The packs finished and not yet taken.
    pub finished: Vec<FinishedPack>,
    /// The chunks added so far.
    pub seen: SortedSet<ChunkId>,
    /// The packs taken so far.
    pub taken: Ghost<Seq<FinishedPack>>,
    /// The content of every chunk added so far.
    pub plain: Ghost<Map<Seq<u8>, Seq<u8>>>,
}

/// The index entry of a chunk put at `offset`.
pub open spec fn entry_of(id: ChunkId, length: nat, size: nat, offset: nat) -> PackIndexEntry {
    PackIndexEntry {
        hash: id,
        offset: offset as u64,
        length: length as u64,
        size: size as u64,
    }
}

proof fn lemma_lists_push(entries: Seq<PackIndexEntry>, e: PackIndexEntry)
    ensures
        forall|id: Seq<u8>| #[trigger]
            lists(entries.push(e), id) <==> lists(entries, id) || e.hash@ == id,
        lists_once(entries) && !lists(entries, e.hash@) ==> lists_once(entries.push(e)),
{
    let all = entries.push(e);
    assert forall|id: Seq<u8>| #[trigger] lists(all, id) <==> lists(entries, id) || e.hash@
        == id by {
        if lists(entries, id) {
            let i = choose|i: int| 0 <= i < entries.len() && (#[trigger] entries[i]).hash@ == id;
            assert(all[i].hash@ == id);
        }
        if e.hash@ == id {
            assert(all[entries.len() as int].hash@ == id);
        }
        if lists(all, id) && e.hash@ != id {
            let i = choose|i: int| 0 <= i < all.len() && (#[trigger] all[i]).hash@ == id;
            assert(entries[i].hash@ == id);
        }
    }
    if lists_once(entries) && !lists(entries, e.hash@) {
        assert forall|i: int, j: int| 0 <= i < j < all.len() implies (#[trigger] all[i]).hash@
            != (#[trigger] all[j]).hash@ by {
            assert(all[i] == entries[i]);
            if j < entries.len() {
                assert(all[j] == entries[j]);
            }
        }
    }
}

impl PackBuilder {
    /// Every pack finished so far.
    pub open spec fn packs(&self) -> Seq<FinishedPack> {
        self.taken@ + self.finished@
    }

    /// Whether some pack, finished or being written, stores the chunk `id` as `plain`.
    pub open spec fn stored(&self, id: Seq<u8>, plain: Seq<u8>) -> bool {
        ||| exists|k: int| 0 <= k < self.packs().len() && #[trigger] self.packs()[k].has(id, plain)
        ||| self.current is Some && holds_chunk(
            self.current->0.body@,
            self.current->0.entries@,
            id,
            plain,
        )
    }

    /// Whether a finished pack keeps to the cap; a cap over [`MAX_ESTIMATED_CAP`] promises nothing,
    /// for there the index may outgrow its estimate.
    pub open spec fn within_cap(&self, p: FinishedPack) -> bool {
        self.cap <= MAX_ESTIMATED_CAP ==> p.bytes <= self.cap
    }

    /// Every finished pack is sound and under the cap, the one being written holds at least one
    /// chunk and will be, and every chunk added is stored, in one place of one pack, and nothing
    /// else is.
    pub open spec fn wf(&self) -> bool {
        &&& self.seen.wf()
        &&& forall|k: int|
            0 <= k < self.packs().len() ==> (#[trigger] self.packs()[k]).wf() && self.within_cap(
                self.packs()[k],
            ) && lists_once(self.packs()[k].entries@) && self.packs()[k].entries@.len() > 0
        &&& forall|k: int, id: Seq<u8>|
            0 <= k < self.packs().len() && #[trigger] lists(self.packs()[k].entries@, id)
                ==> self.plain@.dom().contains(id)
        &&& apart(self.packs())
        &&& match self.current {
            Some(w) => {
                &&& w.wf()
                &&& w.cap == self.cap
                &&& w.entries@.len() > 0
                &&& w.estimate(0, 0) <= self.cap
                &&& lists_once(w.entries@)
                &&& forall|id: Seq<u8>| #[trigger]
                    lists(w.entries@, id) ==> self.plain@.dom().contains(id)
                &&& forall|k: int, id: Seq<u8>|
                    0 <= k < self.packs().len() && #[trigger] lists(self.packs()[k].entries@, id)
                        ==> !lists(w.entries@, id)
            },
            None => true,
        }
        &&& forall|id: Seq<u8>| #[trigger] self.seen.has(id) <==> self.plain@.dom().contains(id)
        &&& forall|id: Seq<u8>| #[trigger]
            self.plain@.dom().contains(id) ==> self.stored(id, self.plain@[id])
    }

    /// A builder of packs of at most `cap` bytes.
    pub fn new(cap: u64) -> (r: Self)
        ensures
            r.wf(),
            r.cap == cap,
            r.current is None,
            r.packs().len() == 0,
            r.plain@ == Map::<Seq<u8>, Seq<u8>>::empty(),
    {
        let r = PackBuilder {
            cap,
            current: None,
            finished: Vec::new(),
            seen: SortedSet::new(),
            taken: Ghost(Seq::empty()),
            plain: Ghost(Map::empty()),
        };
        assert(r.packs() =~= Seq::empty());
        r
    }

    /// Whether this builder already holds `id`.
    pub fn contains(&self, id: &ChunkId) -> (r: bool)
        requires
            self.wf(),
        ensures
            r == self.plain@.dom().contains(id@),
    {
        self.seen.contains(id)
    }

    /// Whether a compressed chunk of that length can be in a pack at all.
    pub open spec fn fits_alone(&self, len: nat) -> bool {
        len + INDEX_ENTRY_ESTIMATE + TRAILER_LEN <= self.cap
    }

    /// What adding a compressed chunk comes to, and what it leaves: a chunk added before changes
    /// nothing, and one that fits no pack ends the pack being written.
    pub open spec fn adds_compressed(
        &self,
        after: PackBuilder,
        id: ChunkId,
        compressed: Seq<u8>,
        data: Seq<u8>,
        r: Result<(), PackError>,
    ) -> bool {
        &&& after.cap == self.cap
        &&& after.taken == self.taken
        &&& if self.plain@.dom().contains(id@) {
            r is Ok && after == *self
        } else if self.fits_alone(compressed.len()) {
            &&& r is Ok
            &&& after.plain@ == self.plain@.insert(id@, data)
            &&& self.placed(&after, id, compressed, data)
        } else {
            &&& r matches Err(PackError::ChunkTooLarge(n)) && n == compressed.len()
            &&& self.rotated(after)
        }
    }

    /// What adding a chunk comes to, and what it leaves: a chunk added before changes nothing, one
    /// that the codec refused does not either, and any other is added as the codec compressed it.
    pub open spec fn adds(
        &self,
        after: PackBuilder,
        id: ChunkId,
        data: Seq<u8>,
        r: Result<(), PackError>,
    ) -> bool {
        if !self.plain@.dom().contains(id@) && r matches Err(PackError::Io(_)) {
            after == *self
        } else {
            self.adds_compressed(after, id, zstd_packed(data, ZSTD_LEVEL as int), data, r)
        }
    }

    /// How finishing the pack being written, if there is one, changes the packs.
    pub open spec fn rotated(&self, after: PackBuilder) -> bool {
        &&& after.current is None
        &&& after.cap == self.cap
        &&& after.taken == self.taken
        &&& after.plain == self.plain
        &&& after.seen == self.seen
        &&& match self.current {
            Some(w) => {
                &&& after.finished@.len() == self.finished@.len() + 1
                &&& after.finished@.drop_last() == self.finished@
                &&& after.finished@.last().data@ == pack_bytes(w.body@, w.entries@)
                &&& after.finished@.last().entries@ == w.entries@
            },
            None => after.finished@ == self.finished@,
        }
    }

    /// Add a chunk (no-op if already added). A chunk that does not fit the pack being written
    /// goes into a new one.
    pub fn add(&mut self, id: ChunkId, data: &[u8]) -> (r: Result<(), PackError>)
        requires
            old(self).wf(),
            packable(data@.len()),
        ensures
            final(self).wf(),
            old(self).adds(*final(self), id, data@, r),
    {
        if self.seen.contains(&id) {
            return Ok(());
        }
        match compress_chunk(data) {
            Ok(compressed) => self.add_compressed(id, compressed.as_slice(), data),
            Err(e) => Err(e),
        }
    }

    /// Add a chunk (no-op if already added) that [`compress_chunk`] has compressed.
    #[verifier::rlimit(60)]
    #[verifier::spinoff_prover]
    pub fn add_compressed(&mut self, id: ChunkId, compressed: &[u8], data: &[u8]) -> (r: Result<
        (),
        PackError,
    >)
        requires
            old(self).wf(),
            unpacks_to(compressed@, data@),
        ensures
            final(self).wf(),
            old(self).adds_compressed(*final(self), id, compressed@, data@, r),
    {
        if self.seen.contains(&id) {
            return Ok(());
        }
        let clen: u64 = compressed.len() as u64;
        let rotate: bool = match &self.current {
            Some(w) => !w.is_empty() && !w.fits(clen),
            None => false,
        };
        if rotate {
            self.rotate();
        }
        let ghost mid = *self;
        let mut writer: PackWriter = match self.current.take() {
            Some(w) => w,
            None => {
                let w = PackWriter::create(self.cap);
                if !w.fits(clen) {
                    assert(self.packs() =~= mid.packs());
                    assert forall|x: Seq<u8>| #[trigger]
                        self.plain@.dom().contains(x) implies self.stored(x, self.plain@[x]) by {
                        assert(mid.stored(x, mid.plain@[x]));
                    }
                    return Err(PackError::ChunkTooLarge(clen));
                }
                w
            },
        };
        let ghost w0 = writer;
        writer.append(id, compressed, data.len() as u64);
        let fresh: bool = self.seen.insert(id);
        proof {
            let e = entry_of(id, compressed@.len(), data@.len(), w0.body@.len());
            assert(writer.entries@ == w0.entries@.push(e));
            let at = w0.entries@.len() as int;
            assert(writer.body@.subrange(w0.body@.len() as int, writer.body@.len() as int)
                =~= compressed@);
            assert(stores(writer.body@, writer.entries@, at, id@, data@));
            lemma_lists_push(w0.entries@, e);
            assert(!mid.plain@.dom().contains(id@));
            assert(!lists(w0.entries@, id@));
            if mid.current is None {
                assert(writer.body@ =~= compressed@);
                assert(writer.entries@ =~= seq![entry_of(id, compressed@.len(), data@.len(), 0)]);
            }
            self.plain = Ghost(self.plain@.insert(id@, data@));
        }
        self.current = Some(writer);
        proof {
            assert(self.packs() =~= mid.packs());
            assert forall|k: int, x: Seq<u8>|
                0 <= k < self.packs().len() && #[trigger] lists(
                    self.packs()[k].entries@,
                    x,
                ) implies !lists(writer.entries@, x) && self.plain@.dom().contains(x) by {
                assert(lists(mid.packs()[k].entries@, x));
                assert(mid.plain@.dom().contains(x));
            }
            assert forall|x: Seq<u8>| #[trigger]
                self.plain@.dom().contains(x) implies self.stored(x, self.plain@[x]) by {
                if x == id@ {
                    assert(holds_chunk(writer.body@, writer.entries@, id@, data@));
                } else {
                    assert(mid.plain@.dom().contains(x));
                    assert(mid.stored(x, mid.plain@[x]));
                    if mid.current is Some && holds_chunk(
                        w0.body@,
                        w0.entries@,
                        x,
                        mid.plain@[x],
                    ) {
                        assert(writer.body@.take(w0.body@.len() as int) =~= w0.body@);
                        assert(writer.entries@.take(w0.entries@.len() as int) =~= w0.entries@);
                        lemma_stores_prefix(
                            w0.body@,
                            writer.body@,
                            w0.entries@,
                            writer.entries@,
                            x,
                            mid.plain@[x],
                        );
                    }
                }
            }
        }
        Ok(())
    }

    /// How adding a new chunk changes the packs: it is appended to the pack being written if
    /// that has room, and otherwise is the first of a new one.
    pub open spec fn placed(
        &self,
        after: &Self,
        id: ChunkId,
        packed: Seq<u8>,
        data: Seq<u8>,
    ) -> bool {
        &&& after.current is Some
        &&& match self.current {
            Some(w) => if w.estimate(packed.len(), 1) <= self.cap {
                &&& after.finished@ == self.finished@
                &&& after.current->0.body@ == w.body@ + packed
                &&& after.current->0.entries@ == w.entries@.push(
                    entry_of(id, packed.len(), data.len(), w.body@.len()),
                )
            } else {
                &&& after.finished@.len() == self.finished@.len() + 1
                &&& after.finished@.drop_last() == self.finished@
                &&& after.finished@.last().data@ == pack_bytes(w.body@, w.entries@)
                &&& after.finished@.last().entries@ == w.entries@
                &&& after.current->0.body@ == packed
                &&& after.current->0.entries@ == seq![entry_of(id, packed.len(), data.len(), 0)]
            },
            None => {
                &&& after.finished@ == self.finished@
                &&& after.current->0.body@ == packed
                &&& after.current->0.entries@ == seq![entry_of(id, packed.len(), data.len(), 0)]
            },
        }
    }

    /// Finish the pack being written, if there is one.
    fn rotate(&mut self)
        requires
            old(self).wf(),
        ensures
            final(self).wf(),
            old(self).rotated(*final(self)),
    {
        match self.current.take() {
            Some(w) => {
                let ghost w0 = w;
                proof {
                    if self.cap <= MAX_ESTIMATED_CAP {
                        assert forall|i: int| 0 <= i < w0.entries@.len() implies (
                        #[trigger] w0.entries@[i]).offset < MAX_ESTIMATED_CAP
                            && w0.entries@[i].length < MAX_ESTIMATED_CAP by {}
                        lemma_index_len(w0.entries@);
                    }
                }
                let p: FinishedPack = w.finish();
                proof {
                    lemma_auto_spec_u64_to_from_le_bytes();
                    let index = json::document_bytes(written_index(w0.entries@));
                    assert(p.data@.len() == w0.body@.len() + index.len() + 16) by {
                        assert(PACK_MAGIC@.len() == 8);
                        assert(spec_u64_to_le_bytes(index.len() as u64).len() == 8);
                    }
                }
                self.finished.push(p);
                proof {
                    let before = old(self).packs();
                    assert(self.packs() =~= before.push(p));
                    assert forall|x: Seq<u8>| #[trigger]
                        self.plain@.dom().contains(x) implies self.stored(x, self.plain@[x]) by {
                        assert(old(self).stored(x, old(self).plain@[x]));
                        if holds_chunk(w0.body@, w0.entries@, x, self.plain@[x]) {
                            assert(p.data@.take(w0.body@.len() as int) =~= w0.body@);
                            assert(w0.entries@.take(w0.entries@.len() as int) =~= w0.entries@);
                            lemma_stores_prefix(
                                w0.body@,
                                p.data@,
                                w0.entries@,
                                p.entries@,
                                x,
                                self.plain@[x],
                            );
                            assert(self.packs()[before.len() as int].has(x, self.plain@[x]));
                        } else {
                            let k = choose|k: int|
                                0 <= k < before.len() && #[trigger] before[k].has(
                                    x,
                                    self.plain@[x],
                                );
                            assert(self.packs()[k].has(x, self.plain@[x]));
                        }
                    }
                    assert(self.finished@.drop_last() =~= old(self).finished@);
                }
            },
            None => {
                assert(*self == *old(self));
            },
        }
    }

    /// Hand out the packs finished since the last call.
    pub fn take_finished(&mut self) -> (r: Vec<FinishedPack>)
        requires
            old(self).wf(),
        ensures
            final(self).wf(),
            r@ == old(self).finished@,
            final(self).finished@.len() == 0,
            final(self).packs() == old(self).packs(),
            final(self).plain == old(self).plain,
            final(self).current == old(self).current,
            final(self).cap == old(self).cap,
    {
        let mut out: Vec<FinishedPack> = Vec::new();
        std::mem::swap(&mut out, &mut self.finished);
        proof {
            self.taken = Ghost(self.taken@ + out@);
            assert(self.packs() =~= old(self).packs());
            assert forall|x: Seq<u8>| #[trigger]
                self.plain@.dom().contains(x) implies self.stored(x, self.plain@[x]) by {
                assert(old(self).stored(x, old(self).plain@[x]));
            }
        }
        out
    }

    /// Finish the open pack and return every pack written and not yet taken. Together with
    /// those taken before they hold every chunk that was added, each in one place, and nothing
    /// else, and none is over the cap.
    pub fn finish(self) -> (r: Vec<FinishedPack>)
        requires
            self.wf(),
        ensures
            forall|k: int|
                0 <= k < r@.len() ==> self.within_cap(#[trigger] r@[k]) && r@[k].entries@.len() > 0,
            hold_exactly(self.taken@ + r@, self.plain@),
            match self.current {
                Some(w) => {
                    &&& r@.len() == self.finished@.len() + 1
                    &&& r@.drop_last() == self.finished@
                    &&& r@.last().data@ == pack_bytes(w.body@, w.entries@)
                    &&& r@.last().entries@ == w.entries@
                },
                None => r@ == self.finished@,
            },
    {
        let mut all = self;
        all.rotate();
        proof {
            assert forall|k: int| 0 <= k < all.finished@.len() implies self.within_cap(
                #[trigger] all.finished@[k],
            ) && all.finished@[k].entries@.len() > 0 by {
                assert(all.packs()[all.taken@.len() + k] == all.finished@[k]);
            }
            assert(all.packs() == self.taken@ + all.finished@);
            assert forall|id: Seq<u8>| #[trigger] self.plain@.dom().contains(id) implies exists|
                k: int,
            |
                0 <= k < all.packs().len() && #[trigger] all.packs()[k].has(id, self.plain@[id]) by {
                assert(all.stored(id, all.plain@[id]));
            }
        }
        all.finished
    }
}

/// The index of a pack that was read back: where each chunk lies.
pub struct PackReader {
    /// Chunk id → place; a later entry of the same id takes the place of an earlier one.
    pub entries: SortedMap<ChunkId, PackIndexEntry>,
}

/// The map that a list of entries makes, the last of each id counting.
pub open spec fn entry_map(entries: Seq<PackIndexEntry>) -> Map<Seq<u8>, PackIndexEntry>
    decreases entries.len(),
{
    if entries.len() == 0 {
        Map::empty()
    } else {
        entry_map(entries.drop_last()).insert(entries.last().hash@, entries.last())
    }
}

impl PackReader {
    /// Whether the index is in order.
    pub open spec fn wf(&self) -> bool {
        self.entries.wf()
    }

    /// A reader over a parsed index.
    pub fn open(index: &Vec<PackIndexEntry>) -> (r: Self)
        ensures
            r.wf(),
            r.entries@ == entry_map(index@),
    {
        let mut entries: SortedMap<ChunkId, PackIndexEntry> = SortedMap::new();
        let mut i: usize = 0;
        while i < index.len()
            invariant
                0 <= i <= index@.len(),
                entries.wf(),
                entries@ == entry_map(index@.take(i as int)),
            decreases index@.len() - i,
        {
            let e: PackIndexEntry = index[i];
            let earlier: Option<PackIndexEntry> = entries.insert(e.hash, e);
            i = i + 1;
            proof {
                let t = index@.take(i as int);
                assert(t.drop_last() =~= index@.take(i - 1));
                assert(t.last() == e);
            }
        }
        assert(index@.take(index@.len() as int) =~= index@);
        PackReader { entries }
    }

    /// Whether the pack holds `id`.
    pub fn contains(&self, id: &ChunkId) -> (r: bool)
        requires
            self.wf(),
        ensures
            r == self.entries@.dom().contains(id@),
    {
        self.entries.contains(id)
    }

    /// Chunk ids this pack holds, ascending.
    pub fn chunk_ids(&self) -> (r: &Vec<ChunkId>)
        requires
            self.wf(),
        ensures
            order::ascending(r@),
            forall|id: Seq<u8>|
                self.entries@.dom().contains(id) <==> #[trigger] order::holds(r@, id),
    {
        &self.entries.keys
    }

    /// The place of a chunk in the pack.
    pub fn locate(&self, id: &ChunkId) -> (r: Option<PackIndexEntry>)
        requires
            self.wf(),
        ensures
            match r {
                Some(e) => self.entries@.dom().contains(id@) && e == self.entries@[id@],
                None => !self.entries@.dom().contains(id@),
            },
    {
        match self.entries.get(id) {
            Some(e) => Some(*e),
            None => None,
        }
    }

    /// Whether `r` is what comes of reading a chunk from the bytes at its place.
    pub open spec fn gives(
        &self,
        id: ChunkId,
        compressed: Seq<u8>,
        r: Result<Option<Vec<u8>>, PackError>,
    ) -> bool {
        match r {
            Ok(None) => !self.entries@.dom().contains(id@),
            Ok(Some(plain)) => {
                &&& self.entries@.dom().contains(id@)
                &&& chunk::sha256(plain@) == id@
                &&& zstd_unpacked(compressed, self.entries@[id@].size as nat) == Some(plain@)
            },
            Err(PackError::BadIndexLength(n)) => {
                &&& self.entries@.dom().contains(id@)
                &&& n == self.entries@[id@].size
                &&& n > isize::MAX
            },
            Err(PackError::Io(_)) => {
                &&& self.entries@.dom().contains(id@)
                &&& self.entries@[id@].size <= isize::MAX
                &&& zstd_unpacked(compressed, self.entries@[id@].size as nat) is None
            },
            Err(PackError::ChunkMismatch { expected, actual }) => {
                &&& self.entries@.dom().contains(id@)
                &&& expected == id
                &&& actual@ != id@
                &&& match zstd_unpacked(compressed, self.entries@[id@].size as nat) {
                    Some(p) => actual@ == chunk::sha256(p),
                    None => false,
                }
            },
            Err(_) => false,
        }
    }

    /// Whether an entry lies in a pack of `len` bytes.
    pub open spec fn lies_in(e: PackIndexEntry, len: nat) -> bool {
        e.offset + e.length <= len
    }

    /// Whether `r` is what comes of reading a chunk from a whole pack: the bytes at its place are
    /// read, and a place outside of the pack cannot be.
    pub open spec fn gives_from(
        &self,
        id: ChunkId,
        pack: Seq<u8>,
        r: Result<Option<Vec<u8>>, PackError>,
    ) -> bool {
        let e = self.entries@[id@];
        if self.entries@.dom().contains(id@) && !Self::lies_in(e, pack.len()) {
            r matches Err(PackError::Io(why)) && why@ == "failed to fill whole buffer"@
        } else {
            self.gives(id, pack.subrange(e.offset as int, e.offset + e.length), r)
        }
    }

    /// Decompress and verify one chunk from the bytes at its place; `Ok(None)` if the pack does
    /// not hold it.
    pub fn read(&self, id: &ChunkId, compressed: &[u8]) -> (r: Result<Option<Vec<u8>>, PackError>)
        requires
            self.wf(),
        ensures
            self.gives(*id, compressed@, r),
    {
        let entry: PackIndexEntry = match self.locate(id) {
            Some(e) => e,
            None => {
                return Ok(None);
            },
        };
        if entry.size > isize::MAX as u64 {
            return Err(PackError::BadIndexLength(entry.size));
        }
        let plain: Vec<u8> = match decompress_chunk(compressed, entry.size as usize) {
            Ok(p) => p,
            Err(e) => {
                return Err(e);
            },
        };
        let actual: ChunkId = ChunkId::of(plain.as_slice());
        if !actual.same(id) {
            return Err(PackError::ChunkMismatch { expected: *id, actual });
        }
        Ok(Some(plain))
    }

    /// Read and verify one chunk from a whole pack; `Ok(None)` if the pack does not hold it.
    pub fn read_from(&self, id: &ChunkId, pack: &[u8]) -> (r: Result<Option<Vec<u8>>, PackError>)
        requires
            self.wf(),
        ensures
            self.gives_from(*id, pack@, r),
    {
        let entry: PackIndexEntry = match self.locate(id) {
            Some(e) => e,
            None => {
                return Ok(None);
            },
        };
        let total: u64 = pack.len() as u64;
        if entry.offset > total || entry.length > total - entry.offset {
            return Err(PackError::Io("failed to fill whole buffer".to_owned()));
        }
        let start: usize = entry.offset as usize;
        let end: usize = (entry.offset + entry.length) as usize;
        self.read(id, vstd::slice::slice_subrange(pack, start, end))
    }
}

proof fn lemma_entry_of_an_id(entries: Seq<PackIndexEntry>, i: int)
    requires
        lists_once(entries),
        0 <= i < entries.len(),
    ensures
        entry_map(entries).dom().contains(entries[i].hash@),
        entry_map(entries)[entries[i].hash@] == entries[i],
    decreases entries.len(),
{
    let front = entries.drop_last();
    if i < front.len() {
        assert(front[i] == entries[i]);
        assert(lists_once(front)) by {
            assert forall|j: int, k: int| 0 <= j < k < front.len() implies (
            #[trigger] front[j]).hash@ != (#[trigger] front[k]).hash@ by {
                assert(entries[j].hash@ != entries[k].hash@);
            }
        }
        lemma_entry_of_an_id(front, i);
        assert(entries[i].hash@ != entries[entries.len() - 1].hash@);
    }
}

/// What a read gives back of a write: whatever comes of reading a chunk from a pack that stores it
/// under its own digest, and lists none twice, are the bytes that went in.
pub proof fn law_a_pack_gives_back_its_chunks(
    pack: FinishedPack,
    reader: PackReader,
    id: ChunkId,
    plain: Seq<u8>,
    r: Result<Option<Vec<u8>>, PackError>,
)
    requires
        lists_once(pack.entries@),
        pack.has(id@, plain),
        id@ == chunk::sha256(plain),
        plain.len() <= isize::MAX,
        reader.entries@ == entry_map(pack.entries@),
        reader.gives_from(id, pack.data@, r),
    ensures
        r matches Ok(Some(bytes)) && bytes@ == plain,
{
    let i = choose|i: int| #[trigger] stores(pack.data@, pack.entries@, i, id@, plain);
    lemma_entry_of_an_id(pack.entries@, i);
    law_a_stored_chunk_reads_back(pack.data@, pack.entries@, i, plain);
}

proof fn lemma_entry_map_lists(entries: Seq<PackIndexEntry>, id: Seq<u8>)
    ensures
        entry_map(entries).dom().contains(id) <==> lists(entries, id),
    decreases entries.len(),
{
    if entries.len() > 0 {
        let front = entries.drop_last();
        lemma_entry_map_lists(front, id);
        lemma_lists_push(front, entries.last());
        assert(front.push(entries.last()) =~= entries);
    }
}

/// Of the packs of a builder exactly one gives back a chunk that was added, and no other holds it;
/// none holds a chunk that was never added.
pub proof fn law_exactly_one_pack_holds_a_chunk(
    packs: Seq<FinishedPack>,
    plain: Map<Seq<u8>, Seq<u8>>,
    readers: Seq<PackReader>,
    id: ChunkId,
    reads: Seq<Result<Option<Vec<u8>>, PackError>>,
)
    requires
        hold_exactly(packs, plain),
        plain.dom().contains(id@) ==> id@ == chunk::sha256(plain[id@]) && plain[id@].len()
            <= isize::MAX,
        readers.len() == packs.len(),
        reads.len() == packs.len(),
        forall|k: int|
            0 <= k < packs.len() ==> (#[trigger] readers[k]).entries@ == entry_map(
                packs[k].entries@,
            ) && readers[k].gives_from(id, packs[k].data@, reads[k]),
    ensures
        plain.dom().contains(id@) ==> exists|k: int|
            {
                &&& 0 <= k < reads.len()
                &&& #[trigger] reads[k] matches Ok(Some(bytes)) && bytes@ == plain[id@]
                &&& forall|j: int|
                    0 <= j < reads.len() && j != k ==> #[trigger] reads[j] matches Ok(None)
            },
        !plain.dom().contains(id@) ==> forall|j: int|
            0 <= j < reads.len() ==> #[trigger] reads[j] matches Ok(None),
{
    assert forall|j: int| 0 <= j < reads.len() && !lists(packs[j].entries@, id@) implies (
    #[trigger] reads[j] matches Ok(None)) by {
        lemma_entry_map_lists(packs[j].entries@, id@);
        assert(readers[j].entries@ == entry_map(packs[j].entries@));
        assert(readers[j].gives_from(id, packs[j].data@, reads[j]));
    }
    if plain.dom().contains(id@) {
        let k = choose|k: int| 0 <= k < packs.len() && #[trigger] packs[k].has(id@, plain[id@]);
        assert(packs[k].wf());
        assert(readers[k].entries@ == entry_map(packs[k].entries@));
        law_a_pack_gives_back_its_chunks(packs[k], readers[k], id, plain[id@], reads[k]);
        let i = choose|i: int| #[trigger]
            stores(packs[k].data@, packs[k].entries@, i, id@, plain[id@]);
        assert(packs[k].entries@[i].hash@ == id@);
        assert(lists(packs[k].entries@, id@));
        assert(reads[k] is Ok);
    } else {
        assert forall|j: int| 0 <= j < reads.len() implies (#[trigger] reads[j] matches Ok(
            None,
        )) by {
            assert(!lists(packs[j].entries@, id@));
        }
    }
}

/// What a read gives back of a write: a chunk under its own digest, stored in a pack, comes out
/// of the bytes at its place as it went in.
pub proof fn law_a_stored_chunk_reads_back(
    body: Seq<u8>,
    entries: Seq<PackIndexEntry>,
    i: int,
    plain: Seq<u8>,
)
    requires
        stores(body, entries, i, chunk::sha256(plain), plain),
        plain.len() <= isize::MAX,
    ensures
        ({
            let place = body.subrange(
                entries[i].offset as int,
                entries[i].offset + entries[i].length,
            );
            &&& entries[i].hash@ == chunk::sha256(plain)
            &&& zstd_unpacked(place, entries[i].size as nat) == Some(plain)
        }),
{
}

/// What goes into packs comes out of them: a chunk that a builder took under its own digest, and had
/// not before, is given back by one of its packs, byte for byte, to whoever opens that pack by its
/// index.
pub proof fn law_an_added_chunk_is_read_back(
    builder: &mut PackBuilder,
    id: ChunkId,
    data: &[u8],
    r: Result<(), PackError>,
    done: PackBuilder,
    packs: Vec<FinishedPack>,
)
    requires
        old(builder).wf(),
        data@.len() <= isize::MAX,
        call_ensures(ChunkId::of, (data,), id),
        !old(builder).plain@.dom().contains(id@),
        call_ensures(PackBuilder::add, (builder, id, data), r),
        r is Ok,
        done == *final(builder),
        done.taken@.len() == 0,
        call_ensures(PackBuilder::finish, (done,), packs),
    ensures
        exists|k: int| 0 <= k < packs@.len() && is_read_back(#[trigger] packs@[k], id, data@),
{
    assert(done.taken@ + packs@ =~= packs@);
    assert(done.plain@.dom().contains(id@));
    assert(done.plain@[id@] == data@);
    let k = choose|k: int| 0 <= k < packs@.len() && #[trigger] packs@[k].has(id@, data@);
    assert(packs@[k].wf() && lists_once(packs@[k].entries@));
    let pack = packs@[k];
    assert forall|reader: PackReader, bytes: &[u8], read: Result<Option<Vec<u8>>, PackError>|
        bytes@ == pack.data@ && call_ensures(PackReader::open, (&pack.entries,), reader)
            && #[trigger] call_ensures(
            PackReader::read_from,
            (&reader, &id, bytes),
            read,
        ) implies (read matches Ok(Some(plain)) && plain@ == data@) by {
        law_a_pack_gives_back_its_chunks(pack, reader, id, data@, read);
    }
    assert(is_read_back(packs@[k], id, data@));
}

/// Whether a pack, opened by its index, gives back a chunk as these bytes.
pub open spec fn is_read_back(pack: FinishedPack, id: ChunkId, data: Seq<u8>) -> bool {
    forall|reader: PackReader, bytes: &[u8], read: Result<Option<Vec<u8>>, PackError>|
        bytes@ == pack.data@ && call_ensures(PackReader::open, (&pack.entries,), reader)
            && #[trigger] call_ensures(
            PackReader::read_from,
            (&reader, &id, bytes),
            read,
        ) ==> (read matches Ok(Some(plain)) && plain@ == data)
}

/// No pack is larger than the cap and none is empty, each is named by its bytes, and none of a
/// builder's packs is lost on the way: what was taken early and what comes at the end are all of
/// them.
pub proof fn law_packs_stay_within_the_cap(
    builder: &mut PackBuilder,
    early: Vec<FinishedPack>,
    done: PackBuilder,
    packs: Vec<FinishedPack>,
    k: int,
)
    requires
        old(builder).wf(),
        old(builder).taken@.len() == 0,
        old(builder).cap <= MAX_ESTIMATED_CAP,
        call_ensures(PackBuilder::take_finished, (builder,), early),
        done == *final(builder),
        call_ensures(PackBuilder::finish, (done,), packs),
    ensures
        0 <= k < packs@.len() ==> packs@[k].bytes <= old(builder).cap && packs@[k].entries@.len()
            > 0,
        0 <= k < early@.len() ==> early@[k].bytes <= old(builder).cap && early@[k].entries@.len()
            > 0,
        0 <= k < early@.len() ==> early@[k].bytes == early@[k].data@.len() && early@[k].sha256@
            == chunk::content_name(early@[k].data@),
        0 <= k < packs@.len() ==> packs@[k].bytes == packs@[k].data@.len() && packs@[k].sha256@
            == chunk::content_name(packs@[k].data@),
        forall|id: Seq<u8>| #[trigger]
            old(builder).plain@.dom().contains(id) ==> exists|j: int|
                0 <= j < early@.len() + packs@.len() && #[trigger] lists(
                    (early@ + packs@)[j].entries@,
                    id,
                ),
{
    let all = old(builder).packs();
    assert(all =~= old(builder).finished@);
    if 0 <= k < early@.len() {
        assert(all[k] == early@[k]);
        assert(all[k].wf());
    }
    assert(done.taken@ == early@) by {
        assert(done.packs() =~= done.taken@);
    }
    if 0 <= k < packs@.len() {
        assert(done.within_cap(packs@[k]));
        assert((done.taken@ + packs@)[done.taken@.len() + k] == packs@[k]);
        assert((done.taken@ + packs@)[done.taken@.len() + k].wf());
    }
    assert forall|id: Seq<u8>| #[trigger] old(builder).plain@.dom().contains(id) implies exists|
        j: int,
    |
        0 <= j < early@.len() + packs@.len() && #[trigger] lists(
            (early@ + packs@)[j].entries@,
            id,
        ) by {
        let j = choose|j: int|
            0 <= j < (early@ + packs@).len() && #[trigger] (early@ + packs@)[j].has(
                id,
                done.plain@[id],
            );
        let p = (early@ + packs@)[j];
        let i = choose|i: int| #[trigger] stores(p.data@, p.entries@, i, id, done.plain@[id]);
        assert(p.entries@[i].hash@ == id);
        assert(lists(p.entries@, id));
    }
}

/// A chunk that the builder has is not stored again, one that it took it has, and only one that no
/// empty pack could take is too large.
pub proof fn law_a_chunk_is_stored_once(
    builder: &mut PackBuilder,
    id: ChunkId,
    compressed: &[u8],
    data: &[u8],
    r: Result<(), PackError>,
    before: bool,
    after: bool,
)
    requires
        old(builder).wf(),
        unpacks_to(compressed@, data@),
        call_ensures(PackBuilder::contains, (&*old(builder), &id), before),
        call_ensures(PackBuilder::add_compressed, (builder, id, compressed, data), r),
        call_ensures(PackBuilder::contains, (&*final(builder), &id), after),
    ensures
        before ==> r is Ok && *final(builder) == *old(builder),
        r is Ok ==> after,
        !before && r is Err ==> !after,
        !before ==> (r is Err <==> compressed@.len() + 160 + 16 > old(builder).cap),
        r is Err ==> r->Err_0 is ChunkTooLarge && r->Err_0->ChunkTooLarge_0 == compressed@.len(),
        !before && r is Ok && old(builder).current is Some && old(builder).current->0.body@.len()
            + compressed@.len() + (old(builder).current->0.entries@.len() + 1) * 160 + 16 <= old(builder).cap ==> final(builder).finished@ == old(builder).finished@,
        forall|x: Seq<u8>| #[trigger]
            old(builder).plain@.dom().contains(x) ==> final(builder).plain@.dom().contains(x)
                && final(builder).plain@[x] == old(builder).plain@[x],
{
}

/// A reader knows just the chunks of its index, where the index says they are.
pub proof fn law_a_reader_knows_its_index(
    index: Vec<PackIndexEntry>,
    reader: PackReader,
    id: ChunkId,
    known: bool,
    place: Option<PackIndexEntry>,
    bytes: &[u8],
    read: Result<Option<Vec<u8>>, PackError>,
    i: int,
)
    requires
        call_ensures(PackReader::open, (&index,), reader),
        call_ensures(PackReader::contains, (&reader, &id), known),
        call_ensures(PackReader::locate, (&reader, &id), place),
        call_ensures(PackReader::read_from, (&reader, &id, bytes), read),
    ensures
        0 <= i < index@.len() && index@[i].hash@ == id@ ==> known,
        known ==> exists|k: int| 0 <= k < index@.len() && (#[trigger] index@[k]).hash@ == id@,
        known <==> place is Some,
        place matches Some(e) ==> e.hash@ == id@ && exists|k: int|
            0 <= k < index@.len() && #[trigger] index@[k] == e,
        !known ==> read matches Ok(None),
        known ==> !(read matches Ok(None)),
        read matches Ok(Some(plain)) ==> chunk::sha256(plain@) == id@,
{
    lemma_entry_map_lists(index@, id@);
    lemma_entry_map_holds(index@, id@);
    if 0 <= i < index@.len() && index@[i].hash@ == id@ {
        assert(lists(index@, id@));
    }
}

proof fn lemma_entry_map_holds(entries: Seq<PackIndexEntry>, id: Seq<u8>)
    ensures
        entry_map(entries).dom().contains(id) ==> entry_map(entries)[id].hash@ == id && exists|
            k: int,
        |
            0 <= k < entries.len() && #[trigger] entries[k] == entry_map(entries)[id],
    decreases entries.len(),
{
    if entries.len() > 0 {
        let front = entries.drop_last();
        lemma_entry_map_holds(front, id);
        if entry_map(entries).dom().contains(id) {
            if entries.last().hash@ == id {
                assert(entries[entries.len() - 1] == entry_map(entries)[id]);
            } else {
                let k = choose|k: int|
                    0 <= k < front.len() && #[trigger] front[k] == entry_map(front)[id];
                assert(entries[k] == front[k]);
            }
        }
    }
}

/// The trailer of a pack leads to the index that its writer put there, behind the chunks.
pub proof fn law_a_written_pack_is_found_by_its_trailer(
    writer: PackWriter,
    pack: FinishedPack,
    tail: &[u8],
    r: Result<(u64, u64), PackError>,
)
    requires
        writer.wf(),
        call_ensures(PackWriter::finish, (writer,), pack),
        pack.data@.len() <= u64::MAX,
        pack.data@.len() >= 16,
        tail@.len() >= 16,
        tail@.len() <= pack.data@.len(),
        tail@ == pack.data@.skip(pack.data@.len() - tail@.len()),
        call_ensures(parse_trailer, (tail, pack.data@.len() as u64), r),
    ensures
        r is Ok,
        r->Ok_0.0 == writer.body@.len(),
        r->Ok_0.0 + r->Ok_0.1 + 16 == pack.data@.len(),
        pack.data@.take(writer.body@.len() as int) == writer.body@,
        pack.data@.subrange(r->Ok_0.0 as int, r->Ok_0.0 + r->Ok_0.1) == json::document_bytes(
            written_index(writer.entries@),
        ),
        pack.entries@ == writer.entries@,
{
    let data = pack.data@;
    law_trailer_leads_to_the_index(writer.body@, writer.entries@);
    let n = tail@.len() as int;
    assert(tail@.subrange(n - 8, n) =~= data.subrange(data.len() - 8, data.len() as int));
    assert(tail@.subrange(n - 16, n - 8) =~= data.subrange(data.len() - 16, data.len() - 8));
    assert(data.take(writer.body@.len() as int) =~= writer.body@);
}

/// A chunk is put behind those before it, and the index says where.
pub proof fn law_chunks_lie_one_behind_the_other(
    writer: &mut PackWriter,
    hash: ChunkId,
    compressed: &[u8],
    size: u64,
    i: int,
)
    requires
        old(writer).wf(),
        old(writer).body@.len() + compressed@.len() <= u64::MAX,
        call_ensures(PackWriter::append, (writer, hash, compressed, size), ()),
    ensures
        ({
            let e = final(writer).entries@.last();
            &&& e.hash == hash && e.size == size
            &&& final(writer).body@.subrange(e.offset as int, e.offset + e.length) == compressed@
            &&& e.offset + e.length == final(writer).body@.len()
        }),
        final(writer).entries@.len() == old(writer).entries@.len() + 1,
        0 <= i < old(writer).entries@.len() ==> final(writer).entries@[i] == old(writer).entries@[i],
        final(writer).body@.take(old(writer).body@.len() as int) == old(writer).body@,
{
    let e = final(writer).entries@.last();
    assert(final(writer).body@.subrange(e.offset as int, e.offset + e.length) =~= compressed@);
    assert(final(writer).body@.take(old(writer).body@.len() as int) =~= old(writer).body@);
}

/// The index of a pack is written with each of its entries, whole: whose chunk, where and how long.
pub proof fn law_a_pack_index_is_written_with_every_entry(entries: Seq<PackIndexEntry>, i: int)
    requires
        0 <= i < entries.len(),
    ensures
        json::holds_text(written_index(entries), entries[i].written()),
        json::holds_text(
            entries[i].written(),
            "\""@ + "hash"@ + "\":"@ + json::json_string(chunk::hex_text(entries[i].hash@)),
        ),
        json::holds_text(
            entries[i].written(),
            "\""@ + "offset"@ + "\":"@ + text::decimal(entries[i].offset as nat),
        ),
        json::holds_text(
            entries[i].written(),
            "\""@ + "length"@ + "\":"@ + text::decimal(entries[i].length as nat),
        ),
        json::holds_text(
            entries[i].written(),
            "\""@ + "size"@ + "\":"@ + text::decimal(entries[i].size as nat),
        ),
{
    let e = entries[i];
    let all = Seq::new(entries.len(), |k: int| entries[k].written());
    json::law_objects_and_arrays_hold_their_items(all, i, Seq::empty(), Seq::empty());
    let ms = seq![
        json::json_member("hash"@, json::json_string(chunk::hex_text(e.hash@))),
        json::json_member("offset"@, text::decimal(e.offset as nat)),
        json::json_member("length"@, text::decimal(e.length as nat)),
        json::json_member("size"@, text::decimal(e.size as nat)),
    ];
    json::law_objects_and_arrays_hold_their_items(
        ms,
        0,
        "hash"@,
        json::json_string(chunk::hex_text(e.hash@)),
    );
    json::law_objects_and_arrays_hold_their_items(
        ms,
        1,
        "offset"@,
        text::decimal(e.offset as nat),
    );
    json::law_objects_and_arrays_hold_their_items(
        ms,
        2,
        "length"@,
        text::decimal(e.length as nat),
    );
    json::law_objects_and_arrays_hold_their_items(ms, 3, "size"@, text::decimal(e.size as nat));
}

/// Chunks are compressed at one level, come out as they went in, and a pack ends with its magic.
pub proof fn law_packs_are_of_one_form(
    data: &[u8],
    r: Result<Vec<u8>, PackError>,
    writer: PackWriter,
    pack: FinishedPack,
)
    requires
        packable(data@.len()),
        call_ensures(compress_chunk, (data,), r),
        writer.wf(),
        call_ensures(PackWriter::finish, (writer,), pack),
    ensures
        r matches Ok(c) ==> c@ == zstd_packed(data@, 3),
        r matches Ok(c) ==> (data@.len() <= isize::MAX ==> zstd_unpacked(c@, data@.len()) == Some(
            data@,
        )),
        pack.data@.len() >= 16,
        pack.data@.skip(pack.data@.len() - 8) == seq![
            83u8,
            76u8,
            67u8,
            80u8,
            48u8,
            48u8,
            48u8,
            49u8,
        ],
{
    let index = json::document_bytes(written_index(writer.entries@));
    lemma_auto_spec_u64_to_from_le_bytes();
    assert(spec_u64_to_le_bytes(index.len() as u64).len() == 8);
    assert(PACK_MAGIC@ =~= seq![83u8, 76u8, 67u8, 80u8, 48u8, 48u8, 48u8, 49u8]);
    assert(pack.data@.skip(pack.data@.len() - 8) =~= PACK_MAGIC@);
}

} // verus!
