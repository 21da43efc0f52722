//! Content-defined chunks and their identity: the sha256 of a chunk's uncompressed bytes.

use sha2::Digest;
use vstd::prelude::*;
use vstd::string::*;
use crate::order;
use crate::order::Key;

verus! {

/// Minimum chunk size. A file of at most this size is one chunk.
pub const MIN_CHUNK_SIZE: usize = 262_144;

/// Average (target) chunk size.
pub const AVG_CHUNK_SIZE: usize = 1_048_576;

/// Maximum chunk size.
pub const MAX_CHUNK_SIZE: usize = 4_194_304;

/// The SHA-256 digest of `bytes`.
pub uninterp spec fn sha256(bytes: Seq<u8>) -> Seq<u8>;

/// `sha2::Sha256::digest`: the 32 digest bytes of the input, under the name [`sha256`].
#[verifier::external_body]
fn sha256_digest(bytes: &[u8]) -> (r: [u8; 32])
    ensures
        r@ == sha256(bytes@),
{
    sha2::Sha256::digest(bytes).into()
}

/// The lowercase hex digit of `n`.
pub open spec fn hex_digit(n: nat) -> char
    recommends
        n < 16,
{
    if n < 10 {
        (48 + n) as char
    } else {
        (87 + n) as char
    }
}

/// The value of a hex digit of either case.
pub open spec fn hex_value(c: char) -> Option<nat> {
    if '0' <= c <= '9' {
        Some((c as nat - 48) as nat)
    } else if 'a' <= c <= 'f' {
        Some((c as nat - 87) as nat)
    } else if 'A' <= c <= 'F' {
        Some((c as nat - 55) as nat)
    } else {
        None
    }
}

/// `bytes` in lowercase hex, two digits a byte.
pub open spec fn hex_text(bytes: Seq<u8>) -> Seq<char> {
    Seq::new(
        2 * bytes.len(),
        |i: int|
            if i % 2 == 0 {
                hex_digit(bytes[i / 2] as nat / 16)
            } else {
                hex_digit(bytes[i / 2] as nat % 16)
            },
    )
}

/// Whether `s` is an even number of hex digits.
pub open spec fn is_hex(s: Seq<char>) -> bool {
    s.len() % 2 == 0 && forall|i: int| 0 <= i < s.len() ==> hex_value(#[trigger] s[i]) is Some
}

/// The bytes that the hex digits `s` stand for.
pub open spec fn hex_bytes(s: Seq<char>) -> Seq<u8> {
    Seq::new(
        s.len() / 2,
        |i: int| (hex_value(s[2 * i])->0 * 16 + hex_value(s[2 * i + 1])->0) as u8,
    )
}

/// `hex::encode`: two lowercase hex digits for each byte, the high half first.
#[verifier::external_body]
fn hex_encode(bytes: &[u8]) -> (r: String)
    ensures
        r@ == hex_text(bytes@),
{
    hex::encode(bytes)
}

/// `hex::decode`: the bytes of an even number of hex digits of either case; anything else is an
/// error.
#[verifier::external_body]
fn hex_decode(s: &str) -> (r: Option<Vec<u8>>)
    ensures
        match r {
            Some(b) => is_hex(s@) && b@ == hex_bytes(s@),
            None => !is_hex(s@),
        },
{
    hex::decode(s).ok()
}

/// A hex digit pair gives its byte back.
pub proof fn lemma_hex_round_trip(bytes: Seq<u8>)
    ensures
        is_hex(hex_text(bytes)),
        hex_bytes(hex_text(bytes)) == bytes,
{
    let t = hex_text(bytes);
    assert forall|i: int| 0 <= i < t.len() implies hex_value(#[trigger] t[i]) is Some by {
        let b = bytes[i / 2] as nat;
        assert(b / 16 < 16 && b % 16 < 16);
    }
    assert forall|i: int| 0 <= i < bytes.len() implies hex_bytes(t)[i] == bytes[i] by {
        let b = bytes[i] as nat;
        assert((2 * i) / 2 == i && (2 * i) % 2 == 0);
        assert((2 * i + 1) / 2 == i && (2 * i + 1) % 2 == 1);
        assert(t[2 * i] == hex_digit(b / 16));
        assert(t[2 * i + 1] == hex_digit(b % 16));
        assert(hex_value(hex_digit(b / 16)) == Some(b / 16));
        assert(hex_value(hex_digit(b % 16)) == Some(b % 16));
    }
    assert(hex_bytes(t) =~= bytes);
}

/// A sha256 digest, used for chunk ids and every other content address in the store.
#[derive(Clone, Copy, PartialEq, Eq, Hash, PartialOrd, Ord, Debug)]
pub struct ChunkId(pub [u8; 32]);

impl View for ChunkId {
    type V = Seq<u8>;

    open spec fn view(&self) -> Seq<u8> {
        self.0@
    }
}

/// The rank of a digest: its bytes.
pub open spec fn digest_rank(v: Seq<u8>) -> Seq<int> {
    Seq::new(v.len(), |i: int| v[i] as int)
}

impl Key for ChunkId {
    open spec fn rank(v: Seq<u8>) -> Seq<int> {
        digest_rank(v)
    }

    proof fn rank_is_injective(a: Seq<u8>, b: Seq<u8>) {
        assert(a.len() == digest_rank(a).len());
        assert forall|i: int| 0 <= i < a.len() implies a[i] == b[i] by {
            assert(digest_rank(a)[i] == digest_rank(b)[i]);
        }
        assert(a =~= b);
    }

    fn before(&self, other: &Self) -> (r: bool) {
        let ghost rx = digest_rank(self@);
        let ghost ry = digest_rank(other@);
        let mut i: usize = 0;
        assert(rx.skip(0) =~= rx && ry.skip(0) =~= ry);
        while i < 32 && self.0[i] == other.0[i]
            invariant
                rx == digest_rank(self@),
                ry == digest_rank(other@),
                self@.len() == 32,
                other@.len() == 32,
                0 <= i <= 32,
                order::rank_less(rx, ry) == order::rank_less(rx.skip(i as int), ry.skip(i as int)),
            decreases 32 - i,
        {
            proof {
                let p = rx.skip(i as int);
                let q = ry.skip(i as int);
                assert(p[0] == q[0]);
                assert(p.drop_first() =~= rx.skip(i + 1));
                assert(q.drop_first() =~= ry.skip(i + 1));
            }
            i = i + 1;
        }
        proof {
            let p = rx.skip(i as int);
            let q = ry.skip(i as int);
            assert(p.len() == 32 - i && q.len() == 32 - i);
            if i < 32 {
                assert(p[0] == self@[i as int] as int);
                assert(q[0] == other@[i as int] as int);
            }
        }
        i < 32 && self.0[i] < other.0[i]
    }
}

impl ChunkId {
    /// Digest of `bytes`.
    pub fn of(bytes: &[u8]) -> (r: Self)
        ensures
            r@ == sha256(bytes@),
    {
        ChunkId(sha256_digest(bytes))
    }

    /// Wrap a raw digest.
    pub fn from_bytes(bytes: [u8; 32]) -> (r: Self)
        ensures
            r@ == bytes@,
            r.0 == bytes,
    {
        ChunkId(bytes)
    }

    /// Whether both are the same digest.
    pub fn same(&self, other: &Self) -> (r: bool)
        ensures
            r == (self@ == other@),
            r == (*self == *other),
    {
        let mut i: usize = 0;
        while i < 32
            invariant
                0 <= i <= 32,
                self@.len() == 32,
                other@.len() == 32,
                forall|j: int| 0 <= j < i ==> self@[j] == other@[j],
            decreases 32 - i,
        {
            if self.0[i] != other.0[i] {
                assert(self@[i as int] != other@[i as int]);
                return false;
            }
            i = i + 1;
        }
        assert(self@ =~= other@);
        assert(self.0 =~= other.0);
        true
    }

    /// Lowercase hex form (the on-the-wire and key form).
    pub fn to_hex(&self) -> (r: String)
        ensures
            r@ == hex_text(self@),
    {
        hex_encode(self.0.as_slice())
    }

    /// Parse the hex form of a digest.
    pub fn parse(hex_str: &str) -> (r: Option<Self>)
        ensures
            match r {
                Some(id) => is_hex(hex_str@) && hex_str@.len() == 64 && id@ == hex_bytes(hex_str@),
                None => !is_hex(hex_str@) || hex_str@.len() != 64,
            },
    {
        let bytes: Vec<u8> = match hex_decode(hex_str) {
            Some(b) => b,
            None => {
                return None;
            },
        };
        if bytes.len() != 32 {
            return None;
        }
        let mut raw: [u8; 32] = [0u8; 32];
        let mut i: usize = 0;
        while i < 32
            invariant
                0 <= i <= 32,
                bytes@.len() == 32,
                forall|j: int| 0 <= j < i ==> raw@[j] == bytes@[j],
            decreases 32 - i,
        {
            raw[i] = bytes[i];
            i = i + 1;
        }
        assert(raw@ =~= bytes@);
        Some(ChunkId(raw))
    }
}

/// The hex form of a digest parses back to the digest.
pub proof fn law_hex_form_round_trips(id: ChunkId)
    ensures
        is_hex(hex_text(id@)),
        hex_text(id@).len() == 64,
        hex_bytes(hex_text(id@)) == id@,
{
    lemma_hex_round_trip(id@);
}

/// Lowercase hex sha256 of `bytes` (packs, dir objects and manifests are keyed by this).
pub open spec fn content_name(bytes: Seq<u8>) -> Seq<char> {
    hex_text(sha256(bytes))
}

/// Lowercase hex sha256 of `bytes` (packs, dir objects and manifests are keyed by this).
pub fn sha256_hex(bytes: &[u8]) -> (r: String)
    ensures
        r@ == content_name(bytes@),
        r@.len() == 64,
{
    let d: [u8; 32] = sha256_digest(bytes);
    hex_encode(d.as_slice())
}

/// One chunk of a file: its id and uncompressed bytes.
#[derive(Debug, Clone, PartialEq, Eq)]
pub struct Chunk {
    /// sha256 of `data`.
    pub id: ChunkId,
    /// Uncompressed bytes.
    pub data: Vec<u8>,
}

/// The pieces into which content-defined chunking cuts `data`, given its three sizes.
pub uninterp spec fn cdc_pieces(data: Seq<u8>, min: nat, avg: nat, max: nat) -> Seq<Seq<u8>>;

/// All pieces in a row.
pub open spec fn joined(pieces: Seq<Seq<u8>>) -> Seq<u8>
    decreases pieces.len(),
{
    if pieces.len() == 0 {
        Seq::empty()
    } else {
        joined(pieces.drop_last()) + pieces.last()
    }
}

/// Whether the pieces keep to the size limits: none is empty or over `max`, and only the last
/// may be under `min`.
pub open spec fn within_limits(pieces: Seq<Seq<u8>>, min: nat, max: nat) -> bool {
    forall|i: int|
        0 <= i < pieces.len() ==> {
            &&& 0 < (#[trigger] pieces[i]).len() <= max
            &&& i + 1 < pieces.len() ==> min <= pieces[i].len()
        }
}

/// `fastcdc::v2020::StreamCDC` over a byte slice: the pieces it yields, under the name
/// [`cdc_pieces`]. Put together they are the input; each is at least one byte and at most `max`
/// bytes long, and each but the last is at least `min` bytes long.
#[verifier::external_body]
fn cdc_split(data: &[u8], min: usize, avg: usize, max: usize) -> (r: Vec<Vec<u8>>)
    requires
        64 <= min <= 1_048_576,
        256 <= avg <= 4_194_304,
        1024 <= max <= 16_777_216,
        min % 2 == 0,
        min <= avg <= max,
    ensures
        order::views(r@) == cdc_pieces(data@, min as nat, avg as nat, max as nat),
        joined(order::views(r@)) == data@,
        within_limits(order::views(r@), min as nat, max as nat),
{
    fastcdc::v2020::StreamCDC::new(data, min, avg, max)
        .filter_map(Result::ok)
        .map(|piece| piece.data)
        .collect()
}

/// The content of `chunks`, in order.
pub open spec fn chunk_data(chunks: Seq<Chunk>) -> Seq<Seq<u8>> {
    Seq::new(chunks.len(), |i: int| chunks[i].data@)
}

/// Chunk an in-memory buffer. An empty buffer has no chunks.
pub fn chunk_bytes(bytes: &[u8]) -> (r: Vec<Chunk>)
    ensures
        chunk_data(r@) == cdc_pieces(
            bytes@,
            MIN_CHUNK_SIZE as nat,
            AVG_CHUNK_SIZE as nat,
            MAX_CHUNK_SIZE as nat,
        ),
        joined(chunk_data(r@)) == bytes@,
        within_limits(chunk_data(r@), MIN_CHUNK_SIZE as nat, MAX_CHUNK_SIZE as nat),
        forall|i: int| 0 <= i < r@.len() ==> (#[trigger] r@[i]).id@ == sha256(r@[i].data@),
        bytes@.len() == 0 ==> r@.len() == 0,
        0 < bytes@.len() <= MIN_CHUNK_SIZE ==> r@.len() == 1 && r@[0].data@ == bytes@,
{
    let pieces: Vec<Vec<u8>> = cdc_split(bytes, MIN_CHUNK_SIZE, AVG_CHUNK_SIZE, MAX_CHUNK_SIZE);
    proof {
        lemma_small_is_one_piece(
            order::views(pieces@),
            bytes@,
            MIN_CHUNK_SIZE as nat,
            MAX_CHUNK_SIZE as nat,
        );
    }
    chunks_of(pieces)
}

/// Put an id to each piece.
pub fn chunks_of(pieces: Vec<Vec<u8>>) -> (r: Vec<Chunk>)
    ensures
        chunk_data(r@) == order::views(pieces@),
        forall|i: int| 0 <= i < r@.len() ==> (#[trigger] r@[i]).id@ == sha256(r@[i].data@),
{
    let mut out: Vec<Chunk> = Vec::new();
    let mut i: usize = 0;
    while i < pieces.len()
        invariant
            0 <= i <= pieces@.len(),
            out@.len() == i,
            forall|j: int| 0 <= j < i ==> (#[trigger] out@[j]).data@ == pieces@[j]@,
            forall|j: int| 0 <= j < i ==> (#[trigger] out@[j]).id@ == sha256(out@[j].data@),
        decreases pieces@.len() - i,
    {
        let data: Vec<u8> = vstd::slice::slice_to_vec(pieces[i].as_slice());
        let id = ChunkId::of(data.as_slice());
        out.push(Chunk { id, data });
        i = i + 1;
    }
    assert(chunk_data(out@) =~= order::views(pieces@));
    out
}

/// Joined pieces are at least as long as the first two together.
proof fn lemma_joined_len(pieces: Seq<Seq<u8>>)
    ensures
        pieces.len() >= 1 ==> joined(pieces).len() >= pieces[0].len(),
        pieces.len() >= 2 ==> joined(pieces).len() >= pieces[0].len() + pieces[1].len(),
    decreases pieces.len(),
{
    reveal_with_fuel(joined, 3);
    if pieces.len() > 0 {
        lemma_joined_len(pieces.drop_last());
        if pieces.len() == 2 {
            assert(pieces.drop_last()[0] == pieces[0]);
            assert(pieces.drop_last().drop_last() =~= Seq::empty());
            assert(joined(pieces.drop_last()) =~= pieces[0]);
        } else if pieces.len() == 1 {
            assert(pieces.drop_last() =~= Seq::empty());
        }
    }
}

/// A buffer of at most the minimum size is one piece, and an empty one has none.
proof fn lemma_small_is_one_piece(pieces: Seq<Seq<u8>>, data: Seq<u8>, min: nat, max: nat)
    requires
        joined(pieces) == data,
        within_limits(pieces, min, max),
    ensures
        data.len() == 0 ==> pieces.len() == 0,
        0 < data.len() <= min ==> pieces.len() == 1 && pieces[0] == data,
{
    reveal_with_fuel(joined, 2);
    lemma_joined_len(pieces);
    if pieces.len() >= 1 {
        assert(pieces[0].len() > 0);
    }
    if pieces.len() >= 2 {
        assert(pieces[1].len() > 0);
    }
    if pieces.len() == 1 {
        assert(pieces.drop_last() =~= Seq::empty());
        assert(joined(pieces) =~= pieces[0]);
    }
}

/// Nothing is lost or doubled by chunking: the chunks of a content are, one behind the other, that
/// content, each under its own digest, none empty, none longer than the maximum and only the last
/// shorter than the minimum.
pub proof fn law_chunks_are_the_content(bytes: &[u8], r: Vec<Chunk>, i: int)
    requires
        call_ensures(chunk_bytes, (bytes,), r),
    ensures
        joined(chunk_data(r@)) == bytes@,
        0 <= i < r@.len() ==> r@[i].id@ == sha256(r@[i].data@),
        0 <= i < r@.len() ==> 0 < r@[i].data@.len() <= 4 * 1024 * 1024,
        0 <= i < r@.len() - 1 ==> r@[i].data@.len() >= 256 * 1024,
        bytes@.len() == 0 <==> r@.len() == 0,
        chunk_data(r@) == cdc_pieces(bytes@, 256 * 1024, 1024 * 1024, 4 * 1024 * 1024),
{
    let data = chunk_data(r@);
    if 0 <= i < r@.len() {
        assert(data[i] == r@[i].data@);
    }
    if r@.len() == 0 {
        assert(data =~= Seq::empty());
    }
}

/// Chunks one behind the other: one more adds its bytes at the end.
pub proof fn law_joining_adds_at_the_end(pieces: Seq<Seq<u8>>, x: Seq<u8>)
    ensures
        joined(Seq::empty()).len() == 0,
        joined(pieces.push(x)) == joined(pieces) + x,
{
    assert(pieces.push(x).drop_last() =~= pieces);
}

/// A digest reads back from its hex form, which is 64 lowercase digits; nothing that is not 64 hex
/// digits reads as one.
pub proof fn law_a_digest_reads_back(
    id: ChunkId,
    text: String,
    read: &str,
    r: Option<ChunkId>,
    other: &str,
    parsed: Option<ChunkId>,
    i: int,
)
    requires
        call_ensures(ChunkId::to_hex, (&id,), text),
        read@ == text@,
        call_ensures(ChunkId::parse, (read,), r),
        call_ensures(ChunkId::parse, (other,), parsed),
    ensures
        text@.len() == 64,
        r is Some && r->0@ == id@,
        0 <= i < 64 ==> '0' <= text@[i] <= '9' || 'a' <= text@[i] <= 'f',
        parsed is Some ==> other@.len() == 64,
        parsed is Some && 0 <= i < 64 ==> '0' <= other@[i] <= '9' || 'a' <= other@[i] <= 'f'
            || 'A' <= other@[i] <= 'F',
        other@.len() == 64 && (forall|k: int|
            0 <= k < 64 ==> '0' <= #[trigger] other@[k] <= '9' || 'a' <= other@[k] <= 'f' || 'A'
                <= other@[k] <= 'F') ==> parsed is Some,
{
    law_hex_form_round_trips(id);
    assert(id@.len() == 32);
    if 0 <= i < 64 {
        let b = id@[i / 2] as nat;
        assert(b / 16 < 16 && b % 16 < 16);
        if parsed is Some {
            assert(hex_value(other@[i]) is Some);
        }
    }
}

/// Two ids are the same just if they have the same bytes, and one made from content is its digest,
/// by which the content is named.
pub proof fn law_ids_are_digests(
    bytes: &[u8],
    id: ChunkId,
    name: String,
    text: String,
    other: ChunkId,
    same: bool,
)
    requires
        call_ensures(ChunkId::of, (bytes,), id),
        call_ensures(ChunkId::to_hex, (&id,), text),
        call_ensures(sha256_hex, (bytes,), name),
        call_ensures(ChunkId::same, (&id, &other), same),
    ensures
        id@ == sha256(bytes@),
        name@ == text@,
        same <==> id@ == other@,
        same <==> id == other,
{
}

} // verus!
