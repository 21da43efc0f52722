//! Building the dir objects of a listing: which files have to be read, in which order, and the
//! tree that what was read makes.
//!
//! The tree is content-addressed from the leaves up: the key of a directory is the name of its
//! bytes, and those hold the key of every directory in it.

use vstd::prelude::*;
use vstd::string::*;
use crate::chunk;
use crate::chunk::{Chunk, ChunkId};
use crate::count;
use crate::index::{FileKind, FileStat, IndexedFile, Listing, Meta, TreeIndex, MODE_BITS, READ_ATTEMPTS};
use crate::keys::KeyPrefix;
use crate::order;
use crate::order::{Key, SortedMap, SortedSet};
use crate::pack;
use crate::pack::PackError;
use crate::paths;
use crate::text;
use crate::tree::{DirEntry, DirObject, EncodedDir, EntryKind, EntryModel};

verus! {

/// Receives every chunk the builder reads that the store does not already hold.
pub trait ChunkSink: Sized {
    /// The chunks stored.
    spec fn stored(&self) -> Set<Seq<u8>>;

    /// The bytes of the chunks that were put in.
    spec fn kept(&self) -> Map<Seq<u8>, Seq<u8>>;

    /// Whether the sink is sound.
    spec fn inv(&self) -> bool;

    /// Whether the chunk is already stored (so its bytes need not be kept).
    fn contains(&self, id: &ChunkId) -> (r: bool)
        requires
            self.inv(),
        ensures
            r == self.stored().contains(id@),
    ;

    /// Store a new chunk.
    fn put(&mut self, id: ChunkId, data: &[u8]) -> (r: Result<(), PackError>)
        requires
            old(self).inv(),
            pack::packable(data@.len()),
        ensures
            final(self).inv(),
            r is Ok ==> final(self).stored() == old(self).stored().insert(id@),
            r is Ok ==> final(self).kept() == with_chunk(old(self).kept(), id@, data@),
            r is Err ==> final(self).stored() == old(self).stored(),
            r is Err ==> final(self).kept() == old(self).kept(),
    ;
}

/// Chunks with one more; one that is there already stays as it is.
pub open spec fn with_chunk(
    kept: Map<Seq<u8>, Seq<u8>>,
    id: Seq<u8>,
    data: Seq<u8>,
) -> Map<Seq<u8>, Seq<u8>> {
    if kept.dom().contains(id) {
        kept
    } else {
        kept.insert(id, data)
    }
}

/// Counters from one build.
#[derive(Debug, Clone, Copy, PartialEq, Eq, Structural)]
pub struct BuildStats {
    /// Files listed.
    pub files: u64,
    /// Files read (chunked) this build.
    pub files_read: u64,
    /// Bytes read this build.
    pub bytes_read: u64,
    /// Chunks referenced by the tree.
    pub chunks: u64,
    /// Chunks new to the sink this build.
    pub chunks_new: u64,
    /// Files marked torn.
    pub torn: u64,
    /// Files skipped because they vanished during the build.
    pub vanished: u64,
}

impl BuildStats {
    /// All counters at zero.
    pub fn zero() -> (r: Self)
        ensures
            r == (BuildStats {
                files: 0,
                files_read: 0,
                bytes_read: 0,
                chunks: 0,
                chunks_new: 0,
                torn: 0,
                vanished: 0,
            }),
    {
        BuildStats {
            files: 0,
            files_read: 0,
            bytes_read: 0,
            chunks: 0,
            chunks_new: 0,
            torn: 0,
            vanished: 0,
        }
    }
}

/// The digests of the chunks of a file's content.
pub open spec fn content_ids(data: Seq<u8>) -> Seq<Seq<u8>> {
    piece_ids(content_pieces(data))
}

/// The chunks of a file's content.
pub open spec fn content_pieces(data: Seq<u8>) -> Seq<Seq<u8>> {
    chunk::cdc_pieces(
        data,
        chunk::MIN_CHUNK_SIZE as nat,
        chunk::AVG_CHUNK_SIZE as nat,
        chunk::MAX_CHUNK_SIZE as nat,
    )
}

/// The digests of some chunks.
pub open spec fn piece_ids(pieces: Seq<Seq<u8>>) -> Seq<Seq<u8>> {
    pieces.map_values(|p: Seq<u8>| chunk::sha256(p))
}

/// What a sink keeps once the pieces were handed to it one after another: the bytes of each under
/// its digest, but for those that it had stored already.
pub open spec fn gathered(
    kept: Map<Seq<u8>, Seq<u8>>,
    stored: Set<Seq<u8>>,
    pieces: Seq<Seq<u8>>,
) -> Map<Seq<u8>, Seq<u8>>
    decreases pieces.len(),
{
    if pieces.len() == 0 {
        kept
    } else {
        let rest = pieces.drop_last();
        let m = gathered(kept, stored, rest);
        let id = chunk::sha256(pieces.last());
        if stored.union(piece_ids(rest).to_set()).contains(id) {
            m
        } else {
            with_chunk(m, id, pieces.last())
        }
    }
}

/// How many of the ids are stored for the first time when they are put in one after another.
pub open spec fn fresh_count(ids: Seq<Seq<u8>>, stored: Set<Seq<u8>>) -> nat
    decreases ids.len(),
{
    if ids.len() == 0 {
        0
    } else {
        let before = stored.union(ids.drop_last().to_set());
        fresh_count(ids.drop_last(), stored) + if before.contains(ids.last()) {
            0nat
        } else {
            1nat
        }
    }
}

/// Store one chunk, unless the sink has it already; whether it was new.
pub fn store_chunk<S: ChunkSink>(c: &Chunk, sink: &mut S) -> (r: Result<bool, PackError>)
    requires
        old(sink).inv(),
        pack::packable(c.data@.len()),
    ensures
        final(sink).inv(),
        match r {
            Ok(fresh) => {
                &&& fresh == !old(sink).stored().contains(c.id@)
                &&& final(sink).stored() == old(sink).stored().insert(c.id@)
                &&& final(sink).kept() == if fresh {
                    with_chunk(old(sink).kept(), c.id@, c.data@)
                } else {
                    old(sink).kept()
                }
            },
            Err(_) => {
                &&& !old(sink).stored().contains(c.id@)
                &&& final(sink).stored() == old(sink).stored()
                &&& final(sink).kept() == old(sink).kept()
            },
        },
{
    if sink.contains(&c.id) {
        assert(sink.stored().insert(c.id@) =~= sink.stored());
        return Ok(false);
    }
    match sink.put(c.id, c.data.as_slice()) {
        Ok(()) => Ok(true),
        Err(e) => Err(e),
    }
}

/// Whether a pass over a file's content stopped at chunk `n`: those before it are stored, and it is
/// not.
pub open spec fn stops_at<S: ChunkSink>(
    data: Seq<u8>,
    n: int,
    before: S,
    after: S,
    counts: ReadCounts,
    counted: ReadCounts,
) -> bool {
    let ids = content_ids(data);
    let stored = before.stored().union(ids.take(n).to_set());
    &&& 0 <= n < ids.len()
    &&& !stored.contains(ids[n])
    &&& after.stored() == stored
    &&& after.kept() == gathered(before.kept(), before.stored(), content_pieces(data).take(n))
    &&& counted == counts.with_chunks(fresh_count(ids.take(n), before.stored()))
}

/// Chunk the content of a file into the sink. Stops at the first chunk that the sink neither has
/// nor takes.
pub fn chunk_file<S: ChunkSink>(data: &[u8], sink: &mut S, counts: &mut ReadCounts) -> (r: Result<
    FileRun,
    PackError,
>)
    requires
        old(sink).inv(),
    ensures
        final(sink).inv(),
        match r {
            Ok(run) => {
                &&& order::views(run.chunks@) == content_ids(data@)
                &&& run.bytes == data@.len()
                &&& final(sink).stored() == old(sink).stored().union(content_ids(data@).to_set())
                &&& final(sink).kept() == gathered(
                    old(sink).kept(),
                    old(sink).stored(),
                    content_pieces(data@),
                )
                &&& *final(counts) == old(counts).with_chunks(
                    fresh_count(content_ids(data@), old(sink).stored()),
                )
            },
            Err(_) => exists|n: int| #[trigger]
                stops_at(data@, n, *old(sink), *final(sink), *old(counts), *final(counts)),
        },
{
    let chunks: Vec<Chunk> = chunk::chunk_bytes(data);
    let ghost ids = content_ids(data@);
    let ghost pieces = content_pieces(data@);
    let ghost before = sink.stored();
    let ghost kept = sink.kept();
    let mut run: FileRun = FileRun::new();
    let mut i: usize = 0;
    proof {
        assert(order::views(run.chunks@) =~= Seq::empty());
        assert(chunk::chunk_data(chunks@) == pieces);
        assert(chunk::chunk_data(chunks@).len() == ids.len());
        assert forall|j: int| 0 <= j < chunks@.len() implies (#[trigger] chunks@[j]).id@
            == ids[j] by {
            assert(chunk::chunk_data(chunks@)[j] == chunks@[j].data@);
        }
        assert forall|j: int| 0 <= j < chunks@.len() implies (#[trigger] chunks@[j]).data@
            == pieces[j] && chunks@[j].data@.len() <= chunk::MAX_CHUNK_SIZE by {
            assert(chunk::chunk_data(chunks@)[j] == chunks@[j].data@);
        }
        assert(ids.take(0) =~= Seq::empty());
        assert(pieces.take(0) =~= Seq::empty());
        assert(chunk::joined(pieces.take(0)).len() == 0);
        assert(chunk::joined(pieces) == data@);
        assert(before.union(ids.take(0).to_set()) =~= before);
    }
    while i < chunks.len()
        invariant
            0 <= i <= chunks@.len(),
            chunks@.len() == ids.len(),
            ids == content_ids(data@),
            before == old(sink).stored(),
            sink.inv(),
            forall|j: int| 0 <= j < chunks@.len() ==> (#[trigger] chunks@[j]).id@ == ids[j],
            pieces == content_pieces(data@),
            pieces.len() == ids.len(),
            chunk::joined(pieces) == data@,
            kept == old(sink).kept(),
            forall|j: int|
                0 <= j < chunks@.len() ==> (#[trigger] chunks@[j]).data@ == pieces[j]
                    && chunks@[j].data@.len() <= chunk::MAX_CHUNK_SIZE,
            sink.kept() == gathered(kept, before, pieces.take(i as int)),
            order::views(run.chunks@) == ids.take(i as int),
            run.bytes == count::capped(chunk::joined(pieces.take(i as int)).len()),
            sink.stored() == before.union(ids.take(i as int).to_set()),
            *counts == old(counts).with_chunks(fresh_count(ids.take(i as int), before)),
        decreases chunks@.len() - i,
    {
        let c: &Chunk = &chunks[i];
        proof {
            let t = ids.take(i + 1);
            assert(t.drop_last() =~= ids.take(i as int));
            assert(t.last() == ids[i as int]);
            let p = pieces.take(i + 1);
            assert(p.drop_last() =~= pieces.take(i as int));
            assert(p.last() == pieces[i as int]);
            assert(piece_ids(pieces.take(i as int)) =~= ids.take(i as int));
            assert(t =~= ids.take(i as int).push(ids[i as int]));
            assert(t.to_set() =~= ids.take(i as int).to_set().insert(ids[i as int])) by {
                assert forall|x: Seq<u8>| t.to_set().contains(x) <==> ids.take(
                    i as int,
                ).to_set().insert(ids[i as int]).contains(x) by {
                    if t.contains(x) {
                        let k = choose|k: int| 0 <= k < t.len() && t[k] == x;
                        if k < i {
                            assert(ids.take(i as int)[k] == x);
                        }
                    }
                    if ids.take(i as int).contains(x) {
                        let k = choose|k: int| 0 <= k < i && ids.take(i as int)[k] == x;
                        assert(t[k] == x);
                    }
                    if x == ids[i as int] {
                        assert(t[i as int] == x);
                    }
                }
            }
            assert(before.union(t.to_set()) =~= before.union(ids.take(i as int).to_set()).insert(
                ids[i as int],
            ));
        }
        let ghost seen = order::views(run.chunks@);
        match run.stored(c, sink, counts) {
            Ok(()) => {},
            Err(e) => {
                assert(stops_at(
                    data@,
                    i as int,
                    *old(sink),
                    *sink,
                    *old(counts),
                    *counts,
                ));
                return Err(e);
            },
        }
        assert(order::views(run.chunks@) =~= seen.push(ids[i as int]));
        i = i + 1;
    }
    assert(ids.take(ids.len() as int) =~= ids);
    assert(pieces.take(pieces.len() as int) =~= pieces);
    let total: usize = data.len();
    assert(chunk::joined(pieces).len() == total);
    Ok(run)
}

/// What is to be done after a file was read once more.
#[derive(Debug, Clone, Copy, PartialEq, Eq, Structural)]
pub enum ReadVerdict {
    /// The file did not change while it was read: keep what was read.
    Settled,
    /// The file changed: read it again.
    Retry,
    /// The attempts are used up: keep what was read, marked torn.
    Torn,
}

/// What the read number `attempt` of a file comes to.
pub open spec fn read_verdict(attempt: u32, before: FileStat, after: FileStat) -> ReadVerdict {
    if attempt >= READ_ATTEMPTS {
        ReadVerdict::Torn
    } else if before == after {
        ReadVerdict::Settled
    } else {
        ReadVerdict::Retry
    }
}

/// What the read number `attempt` of a `db` + `-wal` group comes to.
pub open spec fn group_verdict(
    attempt: u32,
    before: (FileStat, FileStat),
    after: (FileStat, FileStat),
) -> ReadVerdict {
    if before == after {
        ReadVerdict::Settled
    } else if attempt + 1 < READ_ATTEMPTS {
        ReadVerdict::Retry
    } else {
        ReadVerdict::Torn
    }
}

/// Judge the read number `attempt` (counted from zero) of a file by its stat before and after.
/// A read that saw the file change is repeated [`READ_ATTEMPTS`] times; what comes after those is
/// kept whatever it saw.
pub fn judge_read(attempt: u32, before: &FileStat, after: &FileStat) -> (r: ReadVerdict)
    ensures
        r == read_verdict(attempt, *before, *after),
{
    if attempt >= READ_ATTEMPTS {
        ReadVerdict::Torn
    } else if *before == *after {
        ReadVerdict::Settled
    } else {
        ReadVerdict::Retry
    }
}

/// Judge the read number `attempt` (counted from zero) of a `db` + `-wal` group by the stats of
/// both before and after. The last of [`READ_ATTEMPTS`] reads is kept, torn if either changed.
pub fn judge_group(
    attempt: u32,
    before: &(FileStat, FileStat),
    after: &(FileStat, FileStat),
) -> (r: ReadVerdict)
    ensures
        r == group_verdict(attempt, *before, *after),
{
    if before.0 == after.0 && before.1 == after.1 {
        ReadVerdict::Settled
    } else if attempt < READ_ATTEMPTS - 1 {
        ReadVerdict::Retry
    } else {
        ReadVerdict::Torn
    }
}

/// Whether the index knows the file as it is now, and every chunk of it is stored.
pub open spec fn is_current(
    files: Map<Seq<char>, IndexedFile>,
    v: Seq<char>,
    stat: FileStat,
    stored: Set<Seq<u8>>,
) -> bool {
    &&& files.dom().contains(v)
    &&& files[v].stat == stat
    &&& forall|i: int|
        0 <= i < files[v].chunks@.len() ==> stored.contains(#[trigger] files[v].chunks@[i]@)
}

fn all_stored<S: ChunkSink>(ids: &Vec<ChunkId>, sink: &S) -> (r: bool)
    requires
        sink.inv(),
    ensures
        r == (forall|i: int| 0 <= i < ids@.len() ==> sink.stored().contains(#[trigger] ids@[i]@)),
{
    let mut i: usize = 0;
    while i < ids.len()
        invariant
            0 <= i <= ids@.len(),
            sink.inv(),
            forall|j: int| 0 <= j < i ==> sink.stored().contains(#[trigger] ids@[j]@),
        decreases ids@.len() - i,
    {
        if !sink.contains(&ids[i]) {
            assert(!sink.stored().contains(ids@[i as int]@));
            return false;
        }
        i = i + 1;
    }
    true
}

/// Chunks for a file without reading it: those of the index when `(size, mtime, inode)` match and
/// every chunk is still known to the sink.
pub fn file_chunks<S: ChunkSink>(
    files: &TreeIndex,
    v: &String,
    stat: &FileStat,
    sink: &S,
) -> (r: Option<Vec<ChunkId>>)
    requires
        files.wf(),
        sink.inv(),
    ensures
        match r {
            Some(ids) => is_current(files.files@, v@, *stat, sink.stored()) && ids@
                == files.files@[v@].chunks@,
            None => !is_current(files.files@, v@, *stat, sink.stored()),
        },
{
    match files.files.get(v) {
        Some(prev) => if prev.stat == *stat && all_stored(&prev.chunks, sink) {
            Some(vstd::slice::slice_to_vec(prev.chunks.as_slice()))
        } else {
            None
        },
        None => None,
    }
}

/// Chunks for a `db` + `-wal` group without reading it: both members have to be current.
pub fn group_chunks<S: ChunkSink>(
    files: &TreeIndex,
    wal: &String,
    db: &String,
    stats: &(FileStat, FileStat),
    sink: &S,
) -> (r: Option<(Vec<ChunkId>, Vec<ChunkId>)>)
    requires
        files.wf(),
        sink.inv(),
    ensures
        match r {
            Some((w, d)) => {
                &&& is_current(files.files@, wal@, stats.0, sink.stored())
                &&& is_current(files.files@, db@, stats.1, sink.stored())
                &&& w@ == files.files@[wal@].chunks@
                &&& d@ == files.files@[db@].chunks@
            },
            None => !(is_current(files.files@, wal@, stats.0, sink.stored()) && is_current(
                files.files@,
                db@,
                stats.1,
                sink.stored(),
            )),
        },
{
    let w: Vec<ChunkId> = match file_chunks(files, wal, &stats.0, sink) {
        Some(w) => w,
        None => {
            return None;
        },
    };
    let d: Vec<ChunkId> = match file_chunks(files, db, &stats.1, sink) {
        Some(d) => d,
        None => {
            return None;
        },
    };
    Some((w, d))
}


/// A file's content as it was read.
pub struct FileRead {
    /// Chunks.
    pub chunks: Vec<ChunkId>,
    /// The stat that the content goes with.
    pub stat: FileStat,
    /// Whether the file changed underneath the reader on every attempt.
    pub torn: bool,
}

/// What a read stands for.
pub struct ReadModel {
    /// The digests of the chunks.
    pub chunks: Seq<Seq<u8>>,
    /// The stat that the content goes with.
    pub stat: FileStat,
    /// Whether the file changed underneath the reader on every attempt.
    pub torn: bool,
}

impl View for FileRead {
    type V = ReadModel;

    open spec fn view(&self) -> ReadModel {
        ReadModel { chunks: order::views(self.chunks@), stat: self.stat, torn: self.torn }
    }
}

/// A `db` + `-wal` group as it was read together.
pub struct GroupRead {
    /// The `-wal`.
    pub wal: FileRead,
    /// The database.
    pub db: FileRead,
}

/// Everything that was read for a listing; what is missing had vanished.
pub struct Reads {
    /// Files by virtual path.
    pub files: SortedMap<String, FileRead>,
    /// Groups by the virtual path of the `-wal`.
    pub groups: SortedMap<String, GroupRead>,
    /// Symlink texts by virtual path.
    pub links: SortedMap<String, String>,
    /// What it took to read all this.
    pub counts: ReadCounts,
}

/// What reading took.
#[derive(Debug, Clone, Copy, PartialEq, Eq, Structural)]
pub struct ReadCounts {
    /// Files read (chunked), each as often as it was.
    pub files_read: u64,
    /// Bytes of those files.
    pub bytes_read: u64,
    /// Chunks new to the sink.
    pub chunks_new: u64,
}

impl ReadCounts {
    /// Nothing read.
    pub fn zero() -> (r: Self)
        ensures
            r == (ReadCounts { files_read: 0, bytes_read: 0, chunks_new: 0 }),
    {
        ReadCounts { files_read: 0, bytes_read: 0, chunks_new: 0 }
    }

    /// The counters after some files were read.
    pub open spec fn with_files(self, files: nat, bytes: nat) -> ReadCounts {
        ReadCounts {
            files_read: count::capped(self.files_read as nat + files) as u64,
            bytes_read: count::capped(self.bytes_read as nat + bytes) as u64,
            ..self
        }
    }

    /// The counters after some chunks were stored.
    pub open spec fn with_chunks(self, fresh: nat) -> ReadCounts {
        ReadCounts { chunks_new: count::capped(self.chunks_new as nat + fresh) as u64, ..self }
    }
}

/// One pass over the content of a file.
pub struct FileRun {
    /// The chunks so far.
    pub chunks: Vec<ChunkId>,
    /// The bytes so far.
    pub bytes: u64,
}

impl FileRun {
    /// At the beginning of the content.
    pub fn new() -> (r: Self)
        ensures
            r.chunks@.len() == 0,
            r.bytes == 0,
    {
        FileRun { chunks: Vec::new(), bytes: 0 }
    }

    /// Take the next chunk of the content: it is stored unless the sink has it already, and counted
    /// as new then.
    pub fn stored<S: ChunkSink>(
        &mut self,
        c: &Chunk,
        sink: &mut S,
        counts: &mut ReadCounts,
    ) -> (r: Result<(), PackError>)
        requires
            old(sink).inv(),
            pack::packable(c.data@.len()),
        ensures
            final(sink).inv(),
            match r {
                Ok(()) => {
                    let fresh = !old(sink).stored().contains(c.id@);
                    &&& final(self).chunks@ == old(self).chunks@.push(c.id)
                    &&& final(self).bytes == count::capped(old(self).bytes as nat + c.data@.len())
                    &&& *final(counts) == old(counts).with_chunks(
                        if fresh {
                            1
                        } else {
                            0
                        },
                    )
                    &&& final(sink).stored() == old(sink).stored().insert(c.id@)
                    &&& final(sink).kept() == if fresh {
                        with_chunk(old(sink).kept(), c.id@, c.data@)
                    } else {
                        old(sink).kept()
                    }
                },
                Err(_) => {
                    &&& !old(sink).stored().contains(c.id@)
                    &&& *final(self) == *old(self)
                    &&& *final(counts) == *old(counts)
                    &&& final(sink).stored() == old(sink).stored()
                    &&& final(sink).kept() == old(sink).kept()
                },
            },
    {
        match store_chunk(c, sink) {
            Ok(fresh) => {
                if fresh {
                    counts.chunks_new = counts.chunks_new.saturating_add(1);
                }
                self.chunks.push(c.id);
                self.bytes = self.bytes.saturating_add(c.data.len() as u64);
                Ok(())
            },
            Err(e) => Err(e),
        }
    }
}

impl Reads {
    /// Whether the paths are in order.
    pub open spec fn wf(&self) -> bool {
        self.files.wf() && self.groups.wf() && self.links.wf()
    }

    /// Nothing read yet.
    pub fn new() -> (r: Self)
        ensures
            r.wf(),
            r.files@ == Map::<Seq<char>, FileRead>::empty(),
            r.groups@ == Map::<Seq<char>, GroupRead>::empty(),
            r.links@ == Map::<Seq<char>, String>::empty(),
            r.counts == (ReadCounts { files_read: 0, bytes_read: 0, chunks_new: 0 }),
    {
        Reads {
            files: SortedMap::new(),
            groups: SortedMap::new(),
            links: SortedMap::new(),
            counts: ReadCounts::zero(),
        }
    }

    /// Take what the index knows of a file, if that is current: the file is not read then. Gives
    /// whether it is.
    pub fn reuse_file<S: ChunkSink>(
        &mut self,
        index: &TreeIndex,
        v: &String,
        stat: &FileStat,
        sink: &S,
    ) -> (r: bool)
        requires
            old(self).wf(),
            index.wf(),
            sink.inv(),
        ensures
            final(self).wf(),
            r == is_current(index.files@, v@, *stat, sink.stored()),
            final(self).groups == old(self).groups,
            final(self).links == old(self).links,
            final(self).counts == old(self).counts,
            if r {
                &&& final(self).files@.dom() == old(self).files@.dom().insert(v@)
                &&& final(self).files@[v@]@ == known_read(index.files@, v@)
                &&& forall|w: Seq<char>| #[trigger]
                    old(self).files@.dom().contains(w) && w != v@ ==> final(self).files@[w]
                        == old(self).files@[w]
            } else {
                final(self).files == old(self).files
            },
    {
        match file_chunks(index, v, stat, sink) {
            Some(chunks) => {
                let read = FileRead { chunks, stat: *stat, torn: false };
                assert(read@ == known_read(index.files@, v@));
                let earlier: Option<FileRead> = self.files.insert(v.clone(), read);
                true
            },
            None => false,
        }
    }

    /// A pass over the file `v` is done: it is counted, and kept unless the file changed and may be
    /// read once more.
    pub fn finish_file(
        &mut self,
        v: &String,
        run: FileRun,
        attempt: u32,
        before: &FileStat,
        after: &FileStat,
    ) -> (r: ReadVerdict)
        requires
            old(self).wf(),
        ensures
            final(self).wf(),
            r == read_verdict(attempt, *before, *after),
            final(self).groups == old(self).groups,
            final(self).links == old(self).links,
            final(self).counts == old(self).counts.with_files(1, run.bytes as nat),
            final(self).files@ == if r == ReadVerdict::Retry {
                old(self).files@
            } else {
                old(self).files@.insert(
                    v@,
                    FileRead { chunks: run.chunks, stat: *after, torn: r == ReadVerdict::Torn },
                )
            },
    {
        let r: ReadVerdict = judge_read(attempt, before, after);
        self.counts.files_read = self.counts.files_read.saturating_add(1);
        self.counts.bytes_read = self.counts.bytes_read.saturating_add(run.bytes);
        if r != ReadVerdict::Retry {
            let torn: bool = r == ReadVerdict::Torn;
            let read = FileRead { chunks: run.chunks, stat: *after, torn };
            let earlier: Option<FileRead> = self.files.insert(v.clone(), read);
        }
        r
    }

    /// Both members of a group were read.
    pub fn count_group(&mut self, wal: &FileRun, db: &FileRun)
        ensures
            *final(self) == (Reads {
                counts: old(self).counts.with_files(2, (wal.bytes + db.bytes) as nat),
                ..*old(self)
            }),
    {
        self.counts.files_read = self.counts.files_read.saturating_add(2);
        self.counts.bytes_read = self.counts.bytes_read.saturating_add(wal.bytes);
        self.counts.bytes_read = self.counts.bytes_read.saturating_add(db.bytes);
    }

    /// A pass over a group is done, by reading it or by what the index knows of it: it is kept
    /// unless a member changed and the group may be read once more.
    pub fn finish_group(
        &mut self,
        wal: &String,
        wal_chunks: Vec<ChunkId>,
        db_chunks: Vec<ChunkId>,
        attempt: u32,
        before: &(FileStat, FileStat),
        after: &(FileStat, FileStat),
    ) -> (r: ReadVerdict)
        requires
            old(self).wf(),
        ensures
            final(self).wf(),
            r == group_verdict(attempt, *before, *after),
            final(self).files == old(self).files,
            final(self).links == old(self).links,
            final(self).counts == old(self).counts,
            final(self).groups@ == if r == ReadVerdict::Retry {
                old(self).groups@
            } else {
                let torn = r == ReadVerdict::Torn;
                old(self).groups@.insert(
                    wal@,
                    GroupRead {
                        wal: FileRead { chunks: wal_chunks, stat: after.0, torn },
                        db: FileRead { chunks: db_chunks, stat: after.1, torn },
                    },
                )
            },
    {
        let r: ReadVerdict = judge_group(attempt, before, after);
        if r != ReadVerdict::Retry {
            let torn: bool = r == ReadVerdict::Torn;
            let read = GroupRead {
                wal: FileRead { chunks: wal_chunks, stat: after.0, torn },
                db: FileRead { chunks: db_chunks, stat: after.1, torn },
            };
            let earlier: Option<GroupRead> = self.groups.insert(wal.clone(), read);
        }
        r
    }
}

/// What the index stands for as a read of the file.
pub open spec fn known_read(files: Map<Seq<char>, IndexedFile>, v: Seq<char>) -> ReadModel {
    ReadModel { chunks: order::views(files[v].chunks@), stat: files[v].stat, torn: false }
}

/// The identity of a file on disk.
#[derive(Debug, Clone, Copy, PartialEq, Eq)]
pub struct DevIno {
    /// Device.
    pub dev: u64,
    /// Inode.
    pub ino: u64,
}

impl View for DevIno {
    type V = (int, int);

    open spec fn view(&self) -> (int, int) {
        (self.dev as int, self.ino as int)
    }
}

impl Key for DevIno {
    open spec fn rank(v: (int, int)) -> Seq<int> {
        seq![v.0, v.1]
    }

    proof fn rank_is_injective(a: (int, int), b: (int, int)) {
        assert(Self::rank(a)[0] == a.0 && Self::rank(b)[0] == b.0);
        assert(Self::rank(a)[1] == a.1 && Self::rank(b)[1] == b.1);
    }

    fn before(&self, other: &Self) -> (r: bool) {
        proof {
            let a = Self::rank(self@);
            let b = Self::rank(other@);
            reveal_with_fuel(order::rank_less, 3);
            assert(a.drop_first() =~= seq![a[1]]);
            assert(b.drop_first() =~= seq![b[1]]);
        }
        self.dev < other.dev || (self.dev == other.dev && self.ino < other.ino)
    }
}

/// Whether `v` is a regular file with other names.
pub open spec fn is_linked(l: Map<Seq<char>, Meta>, v: Seq<char>) -> bool {
    l.dom().contains(v) && l[v].kind == FileKind::File && l[v].nlink > 1
}

/// The identity of the file at `v`.
pub open spec fn identity(l: Map<Seq<char>, Meta>, v: Seq<char>) -> (int, int) {
    (l[v].stat.dev as int, l[v].stat.ino as int)
}

/// The first of the paths, in order, that names the file `id` and has other names.
pub open spec fn first_name(
    paths: Seq<Seq<char>>,
    l: Map<Seq<char>, Meta>,
    id: (int, int),
) -> Option<Seq<char>>
    decreases paths.len(),
{
    if paths.len() == 0 {
        None
    } else {
        match first_name(paths.drop_last(), l, id) {
            Some(u) => Some(u),
            None => if is_linked(l, paths.last()) && identity(l, paths.last()) == id {
                Some(paths.last())
            } else {
                None
            },
        }
    }
}

/// The canonical path of a hardlink group, for a member other than that: its first member in
/// path order.
pub open spec fn link_target(
    paths: Seq<Seq<char>>,
    l: Map<Seq<char>, Meta>,
    v: Seq<char>,
) -> Option<Seq<char>> {
    if is_linked(l, v) && first_name(paths, l, identity(l, v)) != Some(v) {
        first_name(paths, l, identity(l, v))
    } else {
        None
    }
}

/// The paths directly in the directory `d`, in order.
pub open spec fn kids(paths: Seq<Seq<char>>, d: Seq<char>) -> Seq<Seq<char>>
    decreases paths.len(),
{
    if paths.len() == 0 {
        Seq::empty()
    } else if paths::parent(paths.last()) == d {
        kids(paths.drop_last(), d).push(paths.last())
    } else {
        kids(paths.drop_last(), d)
    }
}

/// The name without `-wal` at its end.
pub open spec fn wal_base(w: Seq<char>) -> Seq<char> {
    paths::name(w).take(paths::name(w).len() - "-wal"@.len())
}

/// The database that goes with a `-wal` in the directory `d`.
pub open spec fn db_path(d: Seq<char>, w: Seq<char>) -> Seq<char> {
    paths::joined(d, wal_base(w))
}

/// Whether `w` is the `-wal` of a file group in the directory `d`: both are regular files.
pub open spec fn is_group(l: Map<Seq<char>, Meta>, d: Seq<char>, w: Seq<char>) -> bool {
    &&& text::has_suffix(paths::name(w), "-wal"@)
    &&& wal_base(w).len() > 0
    &&& l.dom().contains(w)
    &&& l[w].kind == FileKind::File
    &&& l.dom().contains(db_path(d, w))
    &&& l[db_path(d, w)].kind == FileKind::File
}

/// Whether `v` is in one of the file groups that the paths `ks` make in the directory `d`.
pub open spec fn in_group(
    l: Map<Seq<char>, Meta>,
    d: Seq<char>,
    ks: Seq<Seq<char>>,
    v: Seq<char>,
) -> bool {
    exists|i: int|
        0 <= i < ks.len() && #[trigger] is_group(l, d, ks[i]) && (v == ks[i] || v == db_path(
            d,
            ks[i],
        ))
}

/// A directory entry and, if a file was read for it, what was read and its path.
pub struct Part {
    /// The entry.
    pub entry: EntryModel,
    /// The virtual path.
    pub path: Seq<char>,
    /// What was read.
    pub read: Option<ReadModel>,
}

/// An entry for `v` of a kind, with nothing but its metadata.
pub open spec fn bare_entry(m: Meta, v: Seq<char>, kind: EntryKind) -> EntryModel {
    EntryModel {
        name: paths::name(v),
        kind,
        mode: (m.mode & MODE_BITS) as nat,
        size: 0,
        mtime: m.stat.mtime as int,
        chunks: None,
        target: None,
        child: None,
        group: None,
        torn: None,
    }
}

/// The part of a file that was read.
pub open spec fn file_part(
    m: Meta,
    v: Seq<char>,
    read: ReadModel,
    group: Option<Seq<char>>,
) -> Part {
    Part {
        entry: EntryModel {
            size: read.stat.size as nat,
            mtime: read.stat.mtime as int,
            chunks: Some(read.chunks),
            group,
            torn: if read.torn {
                Some(true)
            } else {
                None
            },
            ..bare_entry(m, v, EntryKind::File)
        },
        path: v,
        read: Some(read),
    }
}

/// What the builder works on: the listing, its paths in order, and what was read.
pub struct Input {
    /// The listing.
    pub listing: Map<Seq<char>, Meta>,
    /// Its paths, in order.
    pub paths: Seq<Seq<char>>,
    /// Files read.
    pub files: Map<Seq<char>, FileRead>,
    /// Groups read.
    pub groups: Map<Seq<char>, GroupRead>,
    /// Symlinks read.
    pub links: Map<Seq<char>, String>,
}

/// The input that a listing and the reads for it make.
pub open spec fn input_of(listing: &Listing, reads: &Reads) -> Input {
    Input {
        listing: listing.entries@,
        paths: order::views(listing.entries.keys@),
        files: reads.files@,
        groups: reads.groups@,
        links: reads.links@,
    }
}

impl Input {
    /// The parts of the group of which `w` is the `-wal`: first the `-wal`, then the database;
    /// none if it vanished.
    pub open spec fn one_group(self, d: Seq<char>, w: Seq<char>) -> Seq<Part> {
        if is_group(self.listing, d, w) && self.groups.dom().contains(w) {
            let g = self.groups[w];
            seq![
                file_part(self.listing[w], w, g.wal@, Some(wal_base(w))),
                file_part(self.listing[db_path(d, w)], db_path(d, w), g.db@, Some(wal_base(w))),
            ]
        } else {
            Seq::empty()
        }
    }

    /// The parts of every group among the paths.
    pub open spec fn group_parts(self, d: Seq<char>, ks: Seq<Seq<char>>) -> Seq<Part>
        decreases ks.len(),
    {
        if ks.len() == 0 {
            Seq::empty()
        } else {
            self.group_parts(d, ks.drop_last()) + self.one_group(d, ks.last())
        }
    }

    /// The part of an entry that is in no group, given the keys of the directories; none if it
    /// vanished.
    pub open spec fn one_plain(self, keys: Map<Seq<char>, Seq<char>>, v: Seq<char>) -> Option<
        Part,
    > {
        let m = self.listing[v];
        match m.kind {
            FileKind::Dir => if keys.dom().contains(v) {
                Some(
                    Part {
                        entry: EntryModel {
                            child: Some(keys[v]),
                            ..bare_entry(m, v, EntryKind::Dir)
                        },
                        path: v,
                        read: None,
                    },
                )
            } else {
                None
            },
            FileKind::Symlink => if self.links.dom().contains(v) {
                Some(
                    Part {
                        entry: EntryModel {
                            target: Some(self.links[v]@),
                            ..bare_entry(m, v, EntryKind::Symlink)
                        },
                        path: v,
                        read: None,
                    },
                )
            } else {
                None
            },
            FileKind::File => match link_target(self.paths, self.listing, v) {
                Some(c) => Some(
                    Part {
                        entry: EntryModel {
                            size: m.stat.size as nat,
                            target: Some(c),
                            ..bare_entry(m, v, EntryKind::HardlinkGroup)
                        },
                        path: v,
                        read: None,
                    },
                ),
                None => if self.files.dom().contains(v) {
                    Some(file_part(m, v, self.files[v]@, None))
                } else {
                    None
                },
            },
            FileKind::Other => None,
        }
    }

    /// The parts of every path of `some` that is in no group of `ks`.
    pub open spec fn plain_parts(
        self,
        keys: Map<Seq<char>, Seq<char>>,
        d: Seq<char>,
        ks: Seq<Seq<char>>,
        some: Seq<Seq<char>>,
    ) -> Seq<Part>
        decreases some.len(),
    {
        if some.len() == 0 {
            Seq::empty()
        } else {
            let front = self.plain_parts(keys, d, ks, some.drop_last());
            if in_group(self.listing, d, ks, some.last()) {
                front
            } else {
                match self.one_plain(keys, some.last()) {
                    Some(p) => front.push(p),
                    None => front,
                }
            }
        }
    }

    /// The parts of a directory: its groups, then everything else.
    pub open spec fn parts(self, keys: Map<Seq<char>, Seq<char>>, d: Seq<char>) -> Seq<Part> {
        let ks = kids(self.paths, d);
        self.group_parts(d, ks) + self.plain_parts(keys, d, ks, ks)
    }

    /// The bytes of a directory's dir object.
    pub open spec fn dir_bytes(self, keys: Map<Seq<char>, Seq<char>>, d: Seq<char>) -> Seq<u8> {
        DirObject::bytes_of(entries_of(self.parts(keys, d)))
    }

    /// Whether `d` is a directory of the tree: the class root, the parent of a path, or a listed
    /// directory.
    pub open spec fn is_dir(self, d: Seq<char>) -> bool {
        ||| d.len() == 0
        ||| exists|i: int| 0 <= i < self.paths.len() && paths::parent(#[trigger] self.paths[i]) == d
        ||| self.listing.dom().contains(d) && self.listing[d].kind == FileKind::Dir
    }

    /// How many files the paths of `some` count for: two for a group, one for any other file.
    pub open spec fn count_files(
        self,
        d: Seq<char>,
        ks: Seq<Seq<char>>,
        some: Seq<Seq<char>>,
    ) -> nat
        decreases some.len(),
    {
        if some.len() == 0 {
            0
        } else {
            let v = some.last();
            let group = if is_group(self.listing, d, v) {
                2nat
            } else {
                0nat
            };
            let plain = if !in_group(self.listing, d, ks, v) && self.listing[v].kind
                == FileKind::File {
                1nat
            } else {
                0nat
            };
            self.count_files(d, ks, some.drop_last()) + group + plain
        }
    }

    /// How many of the paths of `some` had vanished: two for a group, one for any other file or
    /// symlink.
    pub open spec fn count_vanished(
        self,
        d: Seq<char>,
        ks: Seq<Seq<char>>,
        some: Seq<Seq<char>>,
    ) -> nat
        decreases some.len(),
    {
        if some.len() == 0 {
            0
        } else {
            let v = some.last();
            let group = if is_group(self.listing, d, v) && !self.groups.dom().contains(v) {
                2nat
            } else {
                0nat
            };
            let plain = if in_group(self.listing, d, ks, v) {
                0nat
            } else if self.listing[v].kind == FileKind::Symlink && !self.links.dom().contains(v) {
                1nat
            } else if self.listing[v].kind == FileKind::File && link_target(
                self.paths,
                self.listing,
                v,
            ) is None && !self.files.dom().contains(v) {
                1nat
            } else {
                0nat
            };
            self.count_vanished(d, ks, some.drop_last()) + group + plain
        }
    }
}

/// The entries of parts.
pub open spec fn entries_of(parts: Seq<Part>) -> Seq<EntryModel> {
    parts.map_values(|p: Part| p.entry)
}

/// What was read last under a path, if anything was.
pub open spec fn read_of(parts: Seq<Part>, v: Seq<char>) -> Option<ReadModel>
    decreases parts.len(),
{
    if parts.len() == 0 {
        None
    } else if parts.last().path == v && parts.last().read is Some {
        parts.last().read
    } else {
        read_of(parts.drop_last(), v)
    }
}

/// How many parts are of a torn file.
pub open spec fn count_torn(parts: Seq<Part>) -> nat
    decreases parts.len(),
{
    if parts.len() == 0 {
        0
    } else {
        let read = parts.last().read;
        count_torn(parts.drop_last()) + if read is Some && read->0.torn {
            1nat
        } else {
            0nat
        }
    }
}

/// Whether a chunk is part of some read.
pub open spec fn reads_chunk(parts: Seq<Part>, id: Seq<u8>) -> bool {
    exists|i: int|
        0 <= i < parts.len() && (#[trigger] parts[i]).read is Some && parts[i].read->0.chunks.contains(
            id,
        )
}


/// The directories at one depth, in order.
pub open spec fn level(dirs: Seq<Seq<char>>, k: nat) -> Seq<Seq<char>>
    decreases dirs.len(),
{
    if dirs.len() == 0 {
        Seq::empty()
    } else if paths::depth(dirs.last()) == k {
        level(dirs.drop_last(), k).push(dirs.last())
    } else {
        level(dirs.drop_last(), k)
    }
}

/// The directories of depth `top` and less, deepest first, each depth in order.
pub open spec fn deepest_first(dirs: Seq<Seq<char>>, top: nat) -> Seq<Seq<char>>
    decreases top,
{
    if top == 0 {
        level(dirs, 0)
    } else {
        level(dirs, top) + deepest_first(dirs, (top - 1) as nat)
    }
}

proof fn lemma_level(dirs: Seq<Seq<char>>, k: nat)
    ensures
        forall|i: int|
            0 <= i < level(dirs, k).len() ==> paths::depth(#[trigger] level(dirs, k)[i]) == k
                && dirs.contains(level(dirs, k)[i]),
        forall|d: Seq<char>|
            dirs.contains(d) && paths::depth(d) == k ==> #[trigger] level(dirs, k).contains(d),
    decreases dirs.len(),
{
    if dirs.len() > 0 {
        let front = dirs.drop_last();
        lemma_level(front, k);
        let l = level(dirs, k);
        let lf = level(front, k);
        assert forall|i: int| 0 <= i < l.len() implies paths::depth(#[trigger] l[i]) == k
            && dirs.contains(l[i]) by {
            if i < lf.len() {
                assert(l[i] == lf[i]);
                assert(front.contains(lf[i]));
                let j = choose|j: int| 0 <= j < front.len() && front[j] == lf[i];
                assert(dirs[j] == lf[i]);
            } else {
                assert(dirs[dirs.len() - 1] == l[i]);
            }
        }
        assert forall|d: Seq<char>|
            dirs.contains(d) && paths::depth(d) == k implies #[trigger] l.contains(d) by {
            let j = choose|j: int| 0 <= j < dirs.len() && dirs[j] == d;
            if j < front.len() {
                assert(front[j] == d);
                assert(lf.contains(d));
                let i = choose|i: int| 0 <= i < lf.len() && lf[i] == d;
                assert(l[i] == d);
            } else {
                assert(l[l.len() - 1] == d);
            }
        }
    }
}

/// Everything at depth `top` or less comes out, and each directory behind all deeper ones.
proof fn lemma_deepest_first(dirs: Seq<Seq<char>>, top: nat)
    ensures
        forall|i: int|
            0 <= i < deepest_first(dirs, top).len() ==> dirs.contains(
                #[trigger] deepest_first(dirs, top)[i],
            ) && paths::depth(deepest_first(dirs, top)[i]) <= top,
        forall|d: Seq<char>|
            dirs.contains(d) && paths::depth(d) <= top ==> #[trigger] deepest_first(
                dirs,
                top,
            ).contains(d),
        forall|i: int, d: Seq<char>|
            #![trigger deepest_first(dirs, top)[i], dirs.contains(d)]
            0 <= i < deepest_first(dirs, top).len() && dirs.contains(d) && paths::depth(d) <= top
                && paths::depth(deepest_first(dirs, top)[i]) < paths::depth(d) ==> deepest_first(
                dirs,
                top,
            ).take(i).contains(d),
    decreases top,
{
    lemma_level(dirs, top);
    let all = deepest_first(dirs, top);
    let here = level(dirs, top);
    if top > 0 {
        let rest = deepest_first(dirs, (top - 1) as nat);
        lemma_deepest_first(dirs, (top - 1) as nat);
        assert forall|i: int| 0 <= i < all.len() implies dirs.contains(#[trigger] all[i])
            && paths::depth(all[i]) <= top by {
            if i >= here.len() {
                assert(all[i] == rest[i - here.len()]);
            } else {
                assert(all[i] == here[i]);
            }
        }
        assert forall|d: Seq<char>|
            dirs.contains(d) && paths::depth(d) <= top implies #[trigger] all.contains(d) by {
            if paths::depth(d) == top {
                assert(here.contains(d));
                let i = choose|i: int| 0 <= i < here.len() && here[i] == d;
                assert(all[i] == d);
            } else {
                assert(rest.contains(d));
                let i = choose|i: int| 0 <= i < rest.len() && rest[i] == d;
                assert(all[here.len() + i] == d);
            }
        }
        assert forall|i: int, d: Seq<char>|
            #![trigger all[i], dirs.contains(d)]
            0 <= i < all.len() && dirs.contains(d) && paths::depth(d) <= top && paths::depth(all[i])
                < paths::depth(d) implies all.take(i).contains(d) by {
            if i < here.len() {
                assert(all[i] == here[i]);
            } else {
                assert(all[i] == rest[i - here.len()]);
                if paths::depth(d) == top {
                    assert(here.contains(d));
                    let j = choose|j: int| 0 <= j < here.len() && here[j] == d;
                    assert(all.take(i)[j] == d);
                } else {
                    let front = rest.take(i - here.len());
                    assert(front.contains(d));
                    let j = choose|j: int| 0 <= j < front.len() && front[j] == d;
                    assert(all.take(i)[here.len() + j] == d);
                }
            }
        }
    }
}

/// The largest depth among the directories.
pub open spec fn max_depth(dirs: Seq<Seq<char>>) -> nat
    decreases dirs.len(),
{
    if dirs.len() == 0 {
        0
    } else {
        let m = max_depth(dirs.drop_last());
        if paths::depth(dirs.last()) > m {
            paths::depth(dirs.last())
        } else {
            m
        }
    }
}

proof fn lemma_max_depth(dirs: Seq<Seq<char>>)
    ensures
        forall|d: Seq<char>| #[trigger] dirs.contains(d) ==> paths::depth(d) <= max_depth(dirs),
    decreases dirs.len(),
{
    if dirs.len() > 0 {
        lemma_max_depth(dirs.drop_last());
        assert forall|d: Seq<char>| #[trigger] dirs.contains(d) implies paths::depth(d)
            <= max_depth(dirs) by {
            let i = choose|i: int| 0 <= i < dirs.len() && dirs[i] == d;
            if i < dirs.len() - 1 {
                assert(dirs.drop_last()[i] == d);
                assert(dirs.drop_last().contains(d));
            }
        }
    }
}

/// The directories, deepest first, each depth in order.
fn by_depth(dirs: &Vec<String>) -> (r: Vec<String>)
    ensures
        order::views(r@) == deepest_first(order::views(dirs@), max_depth(order::views(dirs@))),
{
    let ghost ds = order::views(dirs@);
    let mut top: u128 = 0;
    let mut i: usize = 0;
    assert(ds.take(0) =~= Seq::empty());
    while i < dirs.len()
        invariant
            0 <= i <= dirs@.len(),
            ds == order::views(dirs@),
            top == max_depth(ds.take(i as int)),
        decreases dirs@.len() - i,
    {
        proof {
            let t = ds.take(i + 1);
            assert(t.drop_last() =~= ds.take(i as int));
            assert(t.last() == dirs@[i as int]@);
        }
        let k: u128 = paths::depth_of(dirs[i].as_str());
        if k > top {
            top = k;
        }
        i = i + 1;
    }
    assert(ds.take(ds.len() as int) =~= ds);
    let mut out: Vec<String> = Vec::new();
    let mut k: u128 = top;
    let ghost goal = deepest_first(ds, top as nat);
    assert(order::views(out@) + goal =~= goal);
    loop
        invariant_except_break
            ds == order::views(dirs@),
            goal == deepest_first(ds, top as nat),
            k <= top,
            order::views(out@) + deepest_first(ds, k as nat) == goal,
        ensures
            order::views(out@) == goal,
        decreases k,
    {
        let ghost before = order::views(out@);
        let mut j: usize = 0;
        assert(ds.take(0) =~= Seq::empty());
        assert(before + level(ds.take(0), k as nat) =~= before);
        while j < dirs.len()
            invariant
                0 <= j <= dirs@.len(),
                ds == order::views(dirs@),
                order::views(out@) == before + level(ds.take(j as int), k as nat),
            decreases dirs@.len() - j,
        {
            let ghost so_far = order::views(out@);
            proof {
                let t = ds.take(j + 1);
                assert(t.drop_last() =~= ds.take(j as int));
                assert(t.last() == dirs@[j as int]@);
            }
            if paths::depth_of(dirs[j].as_str()) == k {
                out.push(dirs[j].clone());
                assert(order::views(out@) =~= so_far.push(dirs@[j as int]@));
                assert(order::views(out@) =~= before + level(ds.take(j + 1), k as nat));
            }
            j = j + 1;
        }
        assert(ds.take(ds.len() as int) =~= ds);
        if k == 0 {
            break;
        }
        assert(order::views(out@) + deepest_first(ds, (k - 1) as nat) =~= before + deepest_first(
            ds,
            k as nat,
        ));
        k = k - 1;
    }
    out
}

/// Whether an index file is what a read makes of it.
pub open spec fn indexes(f: IndexedFile, read: ReadModel) -> bool {
    f.stat == read.stat && order::views(f.chunks@) == read.chunks
}

/// What a build has gathered.
struct Gathered {
    /// The entries of the directory at hand.
    entries: Vec<DirEntry>,
    /// Every chunk read.
    chunks: SortedSet<ChunkId>,
    /// Every file read.
    files: SortedMap<String, IndexedFile>,
    /// Files marked torn.
    torn: u64,
    /// The parts of the directory at hand.
    here: Ghost<Seq<Part>>,
    /// The parts of every directory.
    all: Ghost<Seq<Part>>,
}

impl Gathered {
    spec fn inv(&self) -> bool {
        &&& order::views(self.entries@) == entries_of(self.here@)
        &&& self.chunks.wf()
        &&& self.files.wf()
        &&& self.torn == count::capped(count_torn(self.all@))
        &&& forall|id: Seq<u8>| #[trigger] self.chunks.has(id) <==> reads_chunk(self.all@, id)
        &&& forall|v: Seq<char>| #[trigger]
            self.files@.dom().contains(v) <==> read_of(self.all@, v) is Some
        &&& forall|v: Seq<char>| #[trigger]
            self.files@.dom().contains(v) ==> indexes(self.files@[v], read_of(self.all@, v)->0)
    }

    spec fn grown(&self, after: &Self, part: Part) -> bool {
        &&& after.here@ == self.here@.push(part)
        &&& after.all@ == self.all@.push(part)
    }

    /// Add an entry for which no file was read.
    fn add_bare(&mut self, entry: DirEntry, v: &String)
        requires
            old(self).inv(),
        ensures
            final(self).inv(),
            old(self).grown(final(self), Part { entry: entry@, path: v@, read: None }),
    {
        let ghost part = Part { entry: entry@, path: v@, read: None };
        let ghost all0 = self.all@;
        let ghost before = order::views(self.entries@);
        self.entries.push(entry);
        proof {
            self.here = Ghost(self.here@.push(part));
            self.all = Ghost(self.all@.push(part));
            assert(self.all@.drop_last() =~= all0);
            assert(order::views(self.entries@) =~= before.push(entry@));
            assert(order::views(self.entries@) =~= entries_of(self.here@));
            assert forall|id: Seq<u8>| #[trigger] self.chunks.has(id) <==> reads_chunk(
                self.all@,
                id,
            ) by {
                lemma_reads_chunk_push(all0, part, id);
            }
            assert forall|x: Seq<char>| #[trigger] self.files@.dom().contains(x) <==> read_of(
                self.all@,
                x,
            ) is Some by {
                lemma_read_of_push(all0, part, x);
            }
            assert forall|x: Seq<char>| #[trigger] self.files@.dom().contains(x) implies indexes(
                self.files@[x],
                read_of(self.all@, x)->0,
            ) by {
                lemma_read_of_push(all0, part, x);
            }
        }
    }

    /// Add a file that was read.
    fn add_file(&mut self, meta: &Meta, v: &String, read: &FileRead, group: &Option<String>)
        requires
            old(self).inv(),
        ensures
            final(self).inv(),
            old(self).grown(final(self), file_part(*meta, v@, read@, text::opt_view(*group))),
    {
        let ghost part = file_part(*meta, v@, read@, text::opt_view(*group));
        let ghost all0 = self.all@;
        let ghost before = order::views(self.entries@);
        let mut entry: DirEntry = DirEntry::file(
            paths::name_of(v.as_str()).to_owned(),
            meta.mode & MODE_BITS,
            read.stat.size,
            read.stat.mtime,
            vstd::slice::slice_to_vec(read.chunks.as_slice()),
        );
        entry.group = text::copy_opt(group);
        entry.torn = if read.torn {
            Some(true)
        } else {
            None
        };
        assert(entry@ == part.entry);
        self.entries.push(entry);
        let ghost chunks0 = self.chunks;
        let mut i: usize = 0;
        while i < read.chunks.len()
            invariant
                0 <= i <= read.chunks@.len(),
                self.chunks.wf(),
                self.files == old(self).files,
                self.torn == old(self).torn,
                self.entries@ == old(self).entries@.push(entry),
                self.here == old(self).here,
                self.all == old(self).all,
                chunks0 == old(self).chunks,
                forall|id: Seq<u8>| #[trigger]
                    self.chunks.has(id) <==> chunks0.has(id) || order::views(
                        read.chunks@,
                    ).take(i as int).contains(id),
            decreases read.chunks@.len() - i,
        {
            let ghost seen = order::views(read.chunks@).take(i as int);
            let ghost held = self.chunks;
            let fresh: bool = self.chunks.insert(read.chunks[i]);
            proof {
                let next = order::views(read.chunks@).take(i + 1);
                assert(next =~= seen.push(read.chunks@[i as int]@));
                assert forall|id: Seq<u8>| #[trigger] self.chunks.has(id) <==> chunks0.has(id)
                    || next.contains(id) by {
                    if seen.contains(id) {
                        let k = choose|k: int| 0 <= k < seen.len() && seen[k] == id;
                        assert(next[k] == id);
                    }
                    if id == read.chunks@[i as int]@ {
                        assert(next[i as int] == id);
                    }
                    if next.contains(id) {
                        let k = choose|k: int| 0 <= k < next.len() && next[k] == id;
                        if k < i {
                            assert(seen[k] == id);
                        }
                    }
                    assert(self.chunks.has(id) <==> held.has(id) || id == read.chunks@[i as int]@);
                }
            }
            i = i + 1;
        }
        let indexed = IndexedFile {
            stat: read.stat,
            chunks: vstd::slice::slice_to_vec(read.chunks.as_slice()),
        };
        let earlier: Option<IndexedFile> = self.files.insert(v.clone(), indexed);
        if read.torn {
            self.torn = self.torn.saturating_add(1);
        }
        proof {
            self.here = Ghost(self.here@.push(part));
            self.all = Ghost(self.all@.push(part));
            assert(self.all@.drop_last() =~= all0);
            assert(order::views(self.entries@) =~= before.push(entry@));
            assert(order::views(self.entries@) =~= entries_of(self.here@));
            assert(order::views(read.chunks@).take(read.chunks@.len() as int) =~= order::views(
                read.chunks@,
            ));
            assert forall|id: Seq<u8>| #[trigger] self.chunks.has(id) <==> reads_chunk(
                self.all@,
                id,
            ) by {
                lemma_reads_chunk_push(all0, part, id);
                assert(chunks0.has(id) <==> reads_chunk(all0, id));
            }
            assert forall|x: Seq<char>| #[trigger] self.files@.dom().contains(x) <==> read_of(
                self.all@,
                x,
            ) is Some by {
                lemma_read_of_push(all0, part, x);
                assert(old(self).files@.dom().contains(x) <==> read_of(all0, x) is Some);
            }
            assert forall|x: Seq<char>| #[trigger] self.files@.dom().contains(x) implies indexes(
                self.files@[x],
                read_of(self.all@, x)->0,
            ) by {
                lemma_read_of_push(all0, part, x);
                if x != v@ {
                    assert(old(self).files@.dom().contains(x));
                }
            }
        }
    }
}

proof fn lemma_read_of_push(parts: Seq<Part>, p: Part, v: Seq<char>)
    ensures
        read_of(parts.push(p), v) == if p.path == v && p.read is Some {
            p.read
        } else {
            read_of(parts, v)
        },
{
    assert(parts.push(p).drop_last() =~= parts);
}

proof fn lemma_reads_chunk_push(parts: Seq<Part>, p: Part, id: Seq<u8>)
    ensures
        reads_chunk(parts.push(p), id) <==> reads_chunk(parts, id) || (p.read is Some
            && p.read->0.chunks.contains(id)),
{
    let all = parts.push(p);
    if reads_chunk(parts, id) {
        let i = choose|i: int|
            0 <= i < parts.len() && (#[trigger] parts[i]).read is Some
                && parts[i].read->0.chunks.contains(id);
        assert(all[i] == parts[i]);
    }
    if p.read is Some && p.read->0.chunks.contains(id) {
        assert(all[parts.len() as int] == p);
    }
    if reads_chunk(all, id) {
        let i = choose|i: int|
            0 <= i < all.len() && (#[trigger] all[i]).read is Some
                && all[i].read->0.chunks.contains(id);
        if i < parts.len() {
            assert(parts[i] == all[i]);
        }
    }
}

/// The first name of every file with more than one.
struct FirstNames {
    names: SortedMap<DevIno, String>,
}

impl FirstNames {
    spec fn of(&self, ps: Seq<Seq<char>>, l: Map<Seq<char>, Meta>) -> bool {
        &&& self.names.wf()
        &&& forall|id: (int, int)| #[trigger]
            self.names@.dom().contains(id) <==> first_name(ps, l, id) is Some
        &&& forall|id: (int, int)| #[trigger]
            self.names@.dom().contains(id) ==> first_name(ps, l, id) == Some(self.names@[id]@)
    }

    fn new(listing: &Listing) -> (r: Self)
        requires
            listing.wf(),
        ensures
            r.of(order::views(listing.entries.keys@), listing.entries@),
    {
        let mut names: SortedMap<DevIno, String> = SortedMap::new();
        let ghost ps = order::views(listing.entries.keys@);
        let ghost l = listing.entries@;
        let mut i: usize = 0;
        assert(ps.take(0) =~= Seq::empty());
        while i < listing.entries.keys.len()
            invariant
                0 <= i <= listing.entries.keys@.len(),
                listing.wf(),
                ps == order::views(listing.entries.keys@),
                l == listing.entries@,
                (FirstNames { names }).of(ps.take(i as int), l),
            decreases listing.entries.keys@.len() - i,
        {
            let m: &Meta = &listing.entries.values[i];
            let ghost before = names@;
            proof {
                listing.entries.lemma_entry(i as int);
                let t = ps.take(i + 1);
                assert(t.drop_last() =~= ps.take(i as int));
                assert(t.last() == listing.entries.keys@[i as int]@);
            }
            if m.kind == FileKind::File && m.nlink > 1 {
                let id = DevIno { dev: m.stat.dev, ino: m.stat.ino };
                if !names.contains(&id) {
                    let none: Option<String> = names.insert(id, listing.entries.keys[i].clone());
                }
            }
            proof {
                assert forall|id: (int, int)| #[trigger]
                    names@.dom().contains(id) <==> first_name(ps.take(i + 1), l, id) is Some by {
                    assert(before.dom().contains(id) <==> first_name(
                        ps.take(i as int),
                        l,
                        id,
                    ) is Some);
                }
                assert forall|id: (int, int)| #[trigger]
                    names@.dom().contains(id) implies first_name(ps.take(i + 1), l, id) == Some(
                    names@[id]@,
                ) by {
                    assert(before.dom().contains(id) <==> first_name(
                        ps.take(i as int),
                        l,
                        id,
                    ) is Some);
                }
            }
            i = i + 1;
        }
        assert(ps.take(ps.len() as int) =~= ps);
        FirstNames { names }
    }

    /// The canonical path of the group that `v` is a later member of.
    fn target(
        &self,
        meta: &Meta,
        v: &String,
        Ghost(ps): Ghost<Seq<Seq<char>>>,
        Ghost(l): Ghost<Map<Seq<char>, Meta>>,
    ) -> (r: Option<String>)
        requires
            self.of(ps, l),
            l.dom().contains(v@),
            l[v@] == *meta,
        ensures
            text::opt_view(r) == link_target(ps, l, v@),
    {
        if meta.kind != FileKind::File || meta.nlink <= 1 {
            return None;
        }
        let id = DevIno { dev: meta.stat.dev, ino: meta.stat.ino };
        match self.names.get(&id) {
            Some(c) => if text::str_eq(c.as_str(), v.as_str()) {
                None
            } else {
                Some(c.clone())
            },
            None => None,
        }
    }
}


/// Whether `d` is a directory of the tree, as far as the first paths show.
spec fn is_dir_of(ps: Seq<Seq<char>>, l: Map<Seq<char>, Meta>, d: Seq<char>) -> bool {
    ||| d.len() == 0
    ||| exists|i: int| 0 <= i < ps.len() && paths::parent(#[trigger] ps[i]) == d
    ||| exists|i: int| 0 <= i < ps.len() && #[trigger] ps[i] == d && l[d].kind == FileKind::Dir
}

proof fn lemma_is_dir_of_push(
    ps: Seq<Seq<char>>,
    l: Map<Seq<char>, Meta>,
    v: Seq<char>,
    d: Seq<char>,
)
    ensures
        is_dir_of(ps.push(v), l, d) <==> is_dir_of(ps, l, d) || paths::parent(v) == d || (v == d
            && l[d].kind == FileKind::Dir),
{
    let all = ps.push(v);
    let n = ps.len() as int;
    assert(all[n] == v);
    if exists|i: int| 0 <= i < ps.len() && paths::parent(#[trigger] ps[i]) == d {
        let i = choose|i: int| 0 <= i < ps.len() && paths::parent(#[trigger] ps[i]) == d;
        assert(all[i] == ps[i]);
    }
    if exists|i: int| 0 <= i < ps.len() && #[trigger] ps[i] == d {
        let i = choose|i: int| 0 <= i < ps.len() && #[trigger] ps[i] == d;
        assert(all[i] == ps[i]);
    }
    if exists|i: int| 0 <= i < all.len() && paths::parent(#[trigger] all[i]) == d {
        let i = choose|i: int| 0 <= i < all.len() && paths::parent(#[trigger] all[i]) == d;
        if i < n {
            assert(ps[i] == all[i]);
        }
    }
    if exists|i: int| 0 <= i < all.len() && #[trigger] all[i] == d {
        let i = choose|i: int| 0 <= i < all.len() && #[trigger] all[i] == d;
        if i < n {
            assert(ps[i] == all[i]);
        }
    }
}

/// The paths directly in each directory of a listing.
struct Children {
    map: SortedMap<String, Vec<String>>,
}

impl Children {
    spec fn of(&self, ps: Seq<Seq<char>>, l: Map<Seq<char>, Meta>) -> bool {
        &&& self.map.wf()
        &&& forall|d: Seq<char>| #[trigger] order::views(self.map.list(d)) == kids(ps, d)
        &&& forall|d: Seq<char>| #[trigger] self.map@.dom().contains(d) <==> is_dir_of(ps, l, d)
    }

    fn new(listing: &Listing) -> (r: Self)
        requires
            listing.wf(),
        ensures
            r.of(order::views(listing.entries.keys@), listing.entries@),
    {
        let mut map: SortedMap<String, Vec<String>> = SortedMap::new();
        let ghost ps = order::views(listing.entries.keys@);
        let ghost l = listing.entries@;
        map.ensure(String::new());
        let mut i: usize = 0;
        proof {
            assert(ps.take(0) =~= Seq::empty());
            assert forall|d: Seq<char>| #[trigger] order::views(map.list(d)) == kids(
                ps.take(0),
                d,
            ) by {
                assert(order::views(map.list(d)) =~= Seq::empty());
            }
            assert forall|d: Seq<char>| #[trigger] map@.dom().contains(d) <==> is_dir_of(
                ps.take(0),
                l,
                d,
            ) by {
                if d.len() == 0 {
                    assert(d =~= Seq::empty());
                }
            }
        }
        while i < listing.entries.keys.len()
            invariant
                0 <= i <= listing.entries.keys@.len(),
                listing.wf(),
                ps == order::views(listing.entries.keys@),
                l == listing.entries@,
                (Children { map }).of(ps.take(i as int), l),
            decreases listing.entries.keys@.len() - i,
        {
            let v: &String = &listing.entries.keys[i];
            let ghost map0 = map;
            map.push_to(paths::parent_of(v.as_str()).to_owned(), v.clone());
            let ghost map1 = map;
            if listing.entries.values[i].kind == FileKind::Dir {
                map.ensure(v.clone());
            }
            proof {
                listing.entries.lemma_entry(i as int);
                let t = ps.take(i as int);
                let t1 = ps.take(i + 1);
                assert(t1 =~= t.push(v@));
                assert(t1.drop_last() =~= t);
                assert forall|d: Seq<char>| #[trigger] order::views(map.list(d)) == kids(
                    t1,
                    d,
                ) by {
                    assert(map.list(d) == map1.list(d));
                    assert(order::views(map0.list(d)) == kids(t, d));
                    if paths::parent(v@) == d {
                        assert(map1.list(d) == map0.list(d).push(*v));
                        assert(order::views(map1.list(d)) =~= order::views(map0.list(d)).push(v@));
                    } else {
                        assert(map1.list(d) == map0.list(d));
                    }
                }
                assert forall|d: Seq<char>| #[trigger] map@.dom().contains(d) <==> is_dir_of(
                    t1,
                    l,
                    d,
                ) by {
                    lemma_is_dir_of_push(t, l, v@, d);
                    assert(map0@.dom().contains(d) <==> is_dir_of(t, l, d));
                    assert(map1@.dom().contains(d) <==> map0@.dom().contains(d) || d
                        == paths::parent(v@));
                }
            }
            i = i + 1;
        }
        assert(ps.take(ps.len() as int) =~= ps);
        Children { map }
    }
}

/// The base name and the path of the database that goes with a `-wal`.
fn group_of(listing: &Listing, d: &String, w: &String) -> (r: Option<(String, String)>)
    requires
        listing.wf(),
    ensures
        match r {
            Some((base, db)) => {
                &&& is_group(listing.entries@, d@, w@)
                &&& base@ == wal_base(w@)
                &&& db@ == db_path(d@, w@)
            },
            None => !is_group(listing.entries@, d@, w@),
        },
{
    let name: &str = paths::name_of(w.as_str());
    if !text::ends_with(name, "-wal") {
        return None;
    }
    proof {
        reveal_strlit("-wal");
    }
    let n: usize = name.unicode_len();
    let base: String = name.substring_char(0, n - 4).to_owned();
    assert(base@ =~= wal_base(w@));
    if n == 4 {
        return None;
    }
    let db: String = paths::join_virtual(d.as_str(), base.as_str());
    let both: bool = match (listing.entries.get(w), listing.entries.get(&db)) {
        (Some(a), Some(b)) => a.kind == FileKind::File && b.kind == FileKind::File,
        _ => false,
    };
    if both {
        Some((base, db))
    } else {
        None
    }
}

proof fn lemma_in_group_push(
    l: Map<Seq<char>, Meta>,
    d: Seq<char>,
    ks: Seq<Seq<char>>,
    w: Seq<char>,
    v: Seq<char>,
)
    ensures
        in_group(l, d, ks.push(w), v) <==> in_group(l, d, ks, v) || (is_group(l, d, w) && (v == w
            || v == db_path(d, w))),
{
    let all = ks.push(w);
    if in_group(l, d, ks, v) {
        let i = choose|i: int|
            0 <= i < ks.len() && #[trigger] is_group(l, d, ks[i]) && (v == ks[i] || v == db_path(
                d,
                ks[i],
            ));
        assert(all[i] == ks[i]);
        assert(is_group(l, d, all[i]));
    }
    if is_group(l, d, w) && (v == w || v == db_path(d, w)) {
        assert(all[ks.len() as int] == w);
        assert(is_group(l, d, all[ks.len() as int]));
    }
    if in_group(l, d, all, v) {
        let i = choose|i: int|
            0 <= i < all.len() && #[trigger] is_group(l, d, all[i]) && (v == all[i] || v == db_path(
                d,
                all[i],
            ));
        if i < ks.len() {
            assert(is_group(l, d, ks[i]));
        }
    }
}

/// The paths of every file group among `ks`.
fn grouped_paths(listing: &Listing, d: &String, ks: &Vec<String>) -> (r: SortedSet<String>)
    requires
        listing.wf(),
    ensures
        r.wf(),
        forall|v: Seq<char>| #[trigger]
            r.has(v) <==> in_group(listing.entries@, d@, order::views(ks@), v),
{
    let mut out: SortedSet<String> = SortedSet::new();
    let ghost kv = order::views(ks@);
    let ghost l = listing.entries@;
    let mut i: usize = 0;
    assert(kv.take(0) =~= Seq::empty());
    while i < ks.len()
        invariant
            0 <= i <= ks@.len(),
            listing.wf(),
            kv == order::views(ks@),
            l == listing.entries@,
            out.wf(),
            forall|v: Seq<char>| #[trigger] out.has(v) <==> in_group(l, d@, kv.take(i as int), v),
        decreases ks@.len() - i,
    {
        let ghost before = out;
        match group_of(listing, d, &ks[i]) {
            Some((base, db)) => {
                let a: bool = out.insert(ks[i].clone());
                let ghost mid = out;
                let b: bool = out.insert(db);
                assert forall|v: Seq<char>| #[trigger] out.has(v) <==> before.has(v) || v
                    == ks@[i as int]@ || v == db_path(d@, ks@[i as int]@) by {
                    assert(mid.has(v) <==> before.has(v) || v == ks@[i as int]@);
                }
            },
            None => {},
        }
        proof {
            assert(kv.take(i + 1) =~= kv.take(i as int).push(ks@[i as int]@));
            assert forall|v: Seq<char>| #[trigger] out.has(v) <==> in_group(
                l,
                d@,
                kv.take(i + 1),
                v,
            ) by {
                lemma_in_group_push(l, d@, kv.take(i as int), ks@[i as int]@, v);
                assert(before.has(v) <==> in_group(l, d@, kv.take(i as int), v));
            }
        }
        i = i + 1;
    }
    assert(kv.take(kv.len() as int) =~= kv);
    out
}

/// The kids of a directory are listed, and lie in it.
proof fn lemma_kids(ps: Seq<Seq<char>>, d: Seq<char>)
    ensures
        forall|i: int|
            0 <= i < kids(ps, d).len() ==> ps.contains(#[trigger] kids(ps, d)[i]) && paths::parent(
                kids(ps, d)[i],
            ) == d,
    decreases ps.len(),
{
    if ps.len() > 0 {
        let front = ps.drop_last();
        lemma_kids(front, d);
        assert forall|i: int| 0 <= i < kids(ps, d).len() implies ps.contains(
            #[trigger] kids(ps, d)[i],
        ) && paths::parent(kids(ps, d)[i]) == d by {
            if i < kids(front, d).len() {
                assert(kids(ps, d)[i] == kids(front, d)[i]);
                let j = choose|j: int| 0 <= j < front.len() && front[j] == kids(front, d)[i];
                assert(ps[j] == front[j]);
            } else {
                assert(ps[ps.len() - 1] == kids(ps, d)[i]);
            }
        }
    }
}

proof fn lemma_listed(listing: &Listing, v: Seq<char>)
    requires
        listing.wf(),
        order::views(listing.entries.keys@).contains(v),
    ensures
        listing.entries@.dom().contains(v),
{
    let ps = order::views(listing.entries.keys@);
    let j = choose|j: int| 0 <= j < ps.len() && ps[j] == v;
    listing.entries.lemma_entry(j);
}

/// What the keys of a map stand for.
pub open spec fn key_texts(m: Map<Seq<char>, String>) -> Map<Seq<char>, Seq<char>> {
    m.map_values(|s: String| s@)
}

/// Gather the parts of one directory.
fn gather_dir(
    listing: &Listing,
    reads: &Reads,
    first: &FirstNames,
    keys: &SortedMap<String, String>,
    d: &String,
    ks: &Vec<String>,
    grouped: &SortedSet<String>,
    g: &mut Gathered,
)
    requires
        listing.wf(),
        reads.wf(),
        keys.wf(),
        first.of(order::views(listing.entries.keys@), listing.entries@),
        order::views(ks@) == kids(order::views(listing.entries.keys@), d@),
        grouped.wf(),
        forall|v: Seq<char>| #[trigger]
            grouped.has(v) <==> in_group(listing.entries@, d@, order::views(ks@), v),
        old(g).inv(),
        old(g).here@.len() == 0,
    ensures
        final(g).inv(),
        final(g).here@ == input_of(listing, reads).parts(key_texts(keys@), d@),
        final(g).all@ == old(g).all@ + final(g).here@,
{
    let ghost inp = input_of(listing, reads);
    let ghost l = listing.entries@;
    let ghost ps = order::views(listing.entries.keys@);
    let ghost kv = order::views(ks@);
    let ghost kt = key_texts(keys@);
    let ghost all0 = g.all@;
    let mut i: usize = 0;
    assert(kv.take(0) =~= Seq::empty());
    assert(g.here@ =~= inp.group_parts(d@, kv.take(0)));
    assert(all0 + g.here@ =~= all0);
    while i < ks.len()
        invariant
            0 <= i <= ks@.len(),
            listing.wf(),
            reads.wf(),
            inp == input_of(listing, reads),
            l == listing.entries@,
            kv == order::views(ks@),
            g.inv(),
            g.here@ == inp.group_parts(d@, kv.take(i as int)),
            g.all@ == all0 + g.here@,
        decreases ks@.len() - i,
    {
        let w: &String = &ks[i];
        let ghost here0 = g.here@;
        proof {
            let t = kv.take(i + 1);
            assert(t.drop_last() =~= kv.take(i as int));
            assert(t.last() == w@);
        }
        match group_of(listing, d, w) {
            Some((base, db)) => {
                match reads.groups.get(w) {
                    Some(read) => {
                        let group: Option<String> = Some(base);
                        match (listing.entries.get(w), listing.entries.get(&db)) {
                            (Some(wm), Some(dm)) => {
                                g.add_file(wm, w, &read.wal, &group);
                                g.add_file(dm, &db, &read.db, &group);
                                assert(g.here@ =~= here0 + inp.one_group(d@, w@));
                                assert(g.all@ =~= all0 + g.here@);
                            },
                            _ => {
                                assert(false);
                            },
                        }
                    },
                    None => {
                        assert(g.here@ =~= here0 + inp.one_group(d@, w@));
                    },
                }
            },
            None => {
                assert(g.here@ =~= here0 + inp.one_group(d@, w@));
            },
        }
        i = i + 1;
    }
    assert(kv.take(kv.len() as int) =~= kv);
    let ghost groups = g.here@;
    let mut j: usize = 0;
    assert(g.here@ =~= groups + inp.plain_parts(kt, d@, kv, kv.take(0)));
    while j < ks.len()
        invariant
            0 <= j <= ks@.len(),
            listing.wf(),
            reads.wf(),
            keys.wf(),
            first.of(ps, l),
            inp == input_of(listing, reads),
            l == listing.entries@,
            ps == order::views(listing.entries.keys@),
            kv == order::views(ks@),
            kv == kids(ps, d@),
            kt == key_texts(keys@),
            grouped.wf(),
            forall|v: Seq<char>| #[trigger] grouped.has(v) <==> in_group(l, d@, kv, v),
            g.inv(),
            g.here@ == groups + inp.plain_parts(kt, d@, kv, kv.take(j as int)),
            g.all@ == all0 + g.here@,
        decreases ks@.len() - j,
    {
        let v: &String = &ks[j];
        let ghost here0 = g.here@;
        proof {
            let t = kv.take(j + 1);
            assert(t.drop_last() =~= kv.take(j as int));
            assert(t.last() == v@);
            lemma_kids(ps, d@);
            assert(kv[j as int] == v@);
            lemma_listed(listing, v@);
            assert(grouped.has(v@) <==> in_group(l, d@, kv, v@));
        }
        if !grouped.contains(v) {
            match listing.entries.get(v) {
                Some(meta) => {
                    let name: String = paths::name_of(v.as_str()).to_owned();
                    let mode: u32 = meta.mode & MODE_BITS;
                    match meta.kind {
                        FileKind::Dir => {
                            match keys.get(v) {
                                Some(key) => {
                                    let e: DirEntry = DirEntry::dir(
                                        name,
                                        mode,
                                        meta.stat.mtime,
                                        key.clone(),
                                    );
                                    g.add_bare(e, v);
                                },
                                None => {},
                            }
                        },
                        FileKind::Symlink => {
                            match reads.links.get(v) {
                                Some(target) => {
                                    let e: DirEntry = DirEntry::symlink(
                                        name,
                                        mode,
                                        meta.stat.mtime,
                                        target.clone(),
                                    );
                                    g.add_bare(e, v);
                                },
                                None => {},
                            }
                        },
                        FileKind::File => {
                            match first.target(meta, v, Ghost(ps), Ghost(l)) {
                                Some(canon) => {
                                    let e: DirEntry = DirEntry::hardlink(
                                        name,
                                        mode,
                                        meta.stat.size,
                                        meta.stat.mtime,
                                        canon,
                                    );
                                    g.add_bare(e, v);
                                },
                                None => {
                                    match reads.files.get(v) {
                                        Some(read) => {
                                            let group: Option<String> = None;
                                            g.add_file(meta, v, read, &group);
                                        },
                                        None => {},
                                    }
                                },
                            }
                        },
                        FileKind::Other => {},
                    }
                },
                None => {},
            }
        }
        proof {
            assert(g.here@ =~= groups + inp.plain_parts(kt, d@, kv, kv.take(j + 1)));
            assert(g.all@ =~= all0 + g.here@);
        }
        j = j + 1;
    }
    assert(kv.take(kv.len() as int) =~= kv);
}


proof fn lemma_plain_agree(
    inp: Input,
    k1: Map<Seq<char>, Seq<char>>,
    k2: Map<Seq<char>, Seq<char>>,
    d: Seq<char>,
    ks: Seq<Seq<char>>,
    some: Seq<Seq<char>>,
)
    requires
        forall|i: int|
            0 <= i < some.len() && inp.listing[#[trigger] some[i]].kind == FileKind::Dir ==> (
            k1.dom().contains(some[i]) <==> k2.dom().contains(some[i])) && (k1.dom().contains(
                some[i],
            ) ==> k1[some[i]] == k2[some[i]]),
    ensures
        inp.plain_parts(k1, d, ks, some) == inp.plain_parts(k2, d, ks, some),
    decreases some.len(),
{
    if some.len() > 0 {
        assert forall|i: int|
            0 <= i < some.drop_last().len() && inp.listing[#[trigger] some.drop_last()[i]].kind
                == FileKind::Dir implies (k1.dom().contains(some.drop_last()[i])
            <==> k2.dom().contains(some.drop_last()[i])) && (k1.dom().contains(
            some.drop_last()[i],
        ) ==> k1[some.drop_last()[i]] == k2[some.drop_last()[i]]) by {
            assert(some.drop_last()[i] == some[i]);
        }
        lemma_plain_agree(inp, k1, k2, d, ks, some.drop_last());
        assert(some[some.len() - 1] == some.last());
    }
}

/// Whether every directory directly in `d` has a key.
spec fn kids_known(inp: Input, keys: Map<Seq<char>, Seq<char>>, d: Seq<char>) -> bool {
    forall|i: int|
        0 <= i < kids(inp.paths, d).len() && inp.listing[#[trigger] kids(inp.paths, d)[i]].kind
            == FileKind::Dir ==> keys.dom().contains(kids(inp.paths, d)[i])
}

/// A key given to a directory that has one already, or to one in which nothing was looked up,
/// leaves the bytes of the others as they are.
proof fn lemma_bytes_agree(
    inp: Input,
    k1: Map<Seq<char>, Seq<char>>,
    e: Seq<char>,
    key: Seq<char>,
    d: Seq<char>,
)
    requires
        kids_known(inp, k1, d),
        k1.dom().contains(e) ==> k1[e] == key,
    ensures
        inp.dir_bytes(k1.insert(e, key), d) == inp.dir_bytes(k1, d),
        kids_known(inp, k1.insert(e, key), d),
{
    let ks = kids(inp.paths, d);
    lemma_plain_agree(inp, k1, k1.insert(e, key), d, ks, ks);
}

/// The parts of several directories, one after the other.
pub open spec fn all_parts(
    inp: Input,
    keys: Map<Seq<char>, Seq<char>>,
    dirs: Seq<Seq<char>>,
) -> Seq<Part>
    decreases dirs.len(),
{
    if dirs.len() == 0 {
        Seq::empty()
    } else {
        all_parts(inp, keys, dirs.drop_last()) + inp.parts(keys, dirs.last())
    }
}

/// The bytes of the last of the directories whose dir object has that name.
pub open spec fn last_named(
    inp: Input,
    keys: Map<Seq<char>, Seq<char>>,
    dirs: Seq<Seq<char>>,
    n: Seq<char>,
) -> Option<Seq<u8>>
    decreases dirs.len(),
{
    if dirs.len() == 0 {
        None
    } else {
        let bytes = inp.dir_bytes(keys, dirs.last());
        if chunk::content_name(bytes) == n {
            Some(bytes)
        } else {
            last_named(inp, keys, dirs.drop_last(), n)
        }
    }
}

proof fn lemma_last_named_agree(
    a: Input,
    k1: Map<Seq<char>, Seq<char>>,
    b: Input,
    k2: Map<Seq<char>, Seq<char>>,
    dirs: Seq<Seq<char>>,
    n: Seq<char>,
)
    requires
        forall|d: Seq<char>| #[trigger]
            dirs.contains(d) ==> a.dir_bytes(k1, d) == b.dir_bytes(k2, d),
    ensures
        last_named(a, k1, dirs, n) == last_named(b, k2, dirs, n),
    decreases dirs.len(),
{
    if dirs.len() > 0 {
        assert(dirs[dirs.len() - 1] == dirs.last());
        assert(dirs.contains(dirs.last()));
        assert forall|d: Seq<char>| #[trigger] dirs.drop_last().contains(d) implies a.dir_bytes(
            k1,
            d,
        ) == b.dir_bytes(k2, d) by {
            let i = choose|i: int| 0 <= i < dirs.drop_last().len() && dirs.drop_last()[i] == d;
            assert(dirs[i] == d);
            assert(dirs.contains(d));
        }
        lemma_last_named_agree(a, k1, b, k2, dirs.drop_last(), n);
    }
}

/// How many files the directories count for.
pub open spec fn total_files(inp: Input, dirs: Seq<Seq<char>>) -> nat
    decreases dirs.len(),
{
    if dirs.len() == 0 {
        0
    } else {
        let ks = kids(inp.paths, dirs.last());
        total_files(inp, dirs.drop_last()) + inp.count_files(dirs.last(), ks, ks)
    }
}

/// How many files and symlinks of the directories had vanished.
pub open spec fn total_vanished(inp: Input, dirs: Seq<Seq<char>>) -> nat
    decreases dirs.len(),
{
    if dirs.len() == 0 {
        0
    } else {
        let ks = kids(inp.paths, dirs.last());
        total_vanished(inp, dirs.drop_last()) + inp.count_vanished(dirs.last(), ks, ks)
    }
}

/// A built tree: the root dir object, every dir object (new or not), the chunk set it references
/// and the key of every directory.
pub struct BuiltTree {
    /// Root dir object.
    pub root: EncodedDir,
    /// Every dir object of the tree, keyed by sha256.
    pub dirs: SortedMap<String, EncodedDir>,
    /// Every chunk the tree references.
    pub chunks: SortedSet<ChunkId>,
    /// Stats.
    pub stats: BuildStats,
    /// The key of every directory, by virtual path.
    pub keys: SortedMap<String, String>,
    /// The directories in the order in which they were built: deepest first.
    pub order: Vec<String>,
}

impl BuiltTree {
    /// Whether this is the tree of the input under the key prefix: every directory has the key
    /// that its bytes name, and those bytes list each subdirectory under its own key.
    pub open spec fn is_tree_of(&self, inp: Input, prefix: &KeyPrefix) -> bool {
        let keys = key_texts(self.keys@);
        &&& self.keys.wf()
        &&& self.dirs.wf()
        &&& self.chunks.wf()
        &&& forall|d: Seq<char>| #[trigger] keys.dom().contains(d) <==> inp.is_dir(d)
        &&& forall|d: Seq<char>| #[trigger]
            keys.dom().contains(d) ==> keys[d] == prefix.tree_text(
                chunk::content_name(inp.dir_bytes(keys, d)),
            )
        &&& self.root.wf()
        &&& self.root.bytes@ == inp.dir_bytes(keys, Seq::empty())
        &&& forall|d: Seq<char>| #[trigger]
            keys.dom().contains(d) ==> self.dirs@.dom().contains(
                chunk::content_name(inp.dir_bytes(keys, d)),
            )
        &&& forall|n: Seq<char>| #[trigger]
            self.dirs@.dom().contains(n) ==> self.dirs@[n].wf() && self.dirs@[n].sha256@ == n
        &&& forall|n: Seq<char>| #[trigger]
            self.dirs@.dom().contains(n) ==> exists|d: Seq<char>| #[trigger]
                keys.dom().contains(d) && self.dirs@[n].bytes@ == inp.dir_bytes(keys, d)
        &&& forall|n: Seq<char>| #[trigger]
            self.dirs@.dom().contains(n) ==> last_named(
                inp,
                keys,
                order::views(self.order@),
                n,
            ) == Some(self.dirs@[n].bytes@)
        &&& forall|id: Seq<u8>| #[trigger]
            self.chunks.has(id) <==> reads_chunk(
                all_parts(inp, keys, order::views(self.order@)),
                id,
            )
    }
}

impl BuiltTree {
    /// The parts of every directory, in the order in which the directories were built.
    pub open spec fn parts(&self, inp: Input) -> Seq<Part> {
        all_parts(inp, key_texts(self.keys@), order::views(self.order@))
    }

    /// Whether this is what a build of the listing gives from what was read, and `files` the index
    /// that it leaves.
    pub open spec fn is_build_of(
        &self,
        listing: &Listing,
        reads: &Reads,
        prefix: &KeyPrefix,
        files: Map<Seq<char>, IndexedFile>,
    ) -> bool {
        let inp = input_of(listing, reads);
        let dirs = order::views(self.order@);
        &&& self.is_tree_of(inp, prefix)
        &&& dirs == deepest_first(
            order::views(self.keys.keys@),
            max_depth(order::views(self.keys.keys@)),
        )
        &&& index_is(files, self.parts(inp))
        &&& self.stats.files == count::capped(total_files(inp, dirs))
        &&& self.stats.vanished == count::capped(total_vanished(inp, dirs))
        &&& self.stats.chunks == self.chunks.items@.len()
        &&& self.stats.files_read == reads.counts.files_read
        &&& self.stats.bytes_read == reads.counts.bytes_read
        &&& self.stats.chunks_new == reads.counts.chunks_new
        &&& self.stats.torn == count::capped(count_torn(self.parts(inp)))
    }
}

/// Whether the index holds what was read for the tree, and nothing else.
pub open spec fn index_is(
    files: Map<Seq<char>, IndexedFile>,
    parts: Seq<Part>,
) -> bool {
    &&& forall|v: Seq<char>| #[trigger] files.dom().contains(v) <==> read_of(parts, v) is Some
    &&& forall|v: Seq<char>| #[trigger]
        files.dom().contains(v) ==> indexes(files[v], read_of(parts, v)->0)
}

fn count_dir(
    listing: &Listing,
    reads: &Reads,
    first: &FirstNames,
    d: &String,
    ks: &Vec<String>,
    grouped: &SortedSet<String>,
    stats: &mut BuildStats,
    Ghost(files): Ghost<nat>,
    Ghost(vanished): Ghost<nat>,
)
    requires
        listing.wf(),
        reads.wf(),
        first.of(order::views(listing.entries.keys@), listing.entries@),
        order::views(ks@) == kids(order::views(listing.entries.keys@), d@),
        grouped.wf(),
        forall|v: Seq<char>| #[trigger]
            grouped.has(v) <==> in_group(listing.entries@, d@, order::views(ks@), v),
        old(stats).files == count::capped(files),
        old(stats).vanished == count::capped(vanished),
    ensures
        final(stats).files == count::capped(
            files + input_of(listing, reads).count_files(d@, order::views(ks@), order::views(ks@)),
        ),
        final(stats).vanished == count::capped(
            vanished + input_of(listing, reads).count_vanished(
                d@,
                order::views(ks@),
                order::views(ks@),
            ),
        ),
        final(stats).chunks == old(stats).chunks,
        final(stats).files_read == old(stats).files_read,
        final(stats).bytes_read == old(stats).bytes_read,
        final(stats).chunks_new == old(stats).chunks_new,
        final(stats).torn == old(stats).torn,
{
    let ghost inp = input_of(listing, reads);
    let ghost l = listing.entries@;
    let ghost ps = order::views(listing.entries.keys@);
    let ghost kv = order::views(ks@);
    let mut i: usize = 0;
    assert(kv.take(0) =~= Seq::empty());
    while i < ks.len()
        invariant
            0 <= i <= ks@.len(),
            listing.wf(),
            reads.wf(),
            first.of(ps, l),
            inp == input_of(listing, reads),
            l == listing.entries@,
            ps == order::views(listing.entries.keys@),
            kv == order::views(ks@),
            kv == kids(ps, d@),
            grouped.wf(),
            forall|v: Seq<char>| #[trigger] grouped.has(v) <==> in_group(l, d@, kv, v),
            stats.files == count::capped(files + inp.count_files(d@, kv, kv.take(i as int))),
            stats.vanished == count::capped(vanished + inp.count_vanished(d@, kv, kv.take(i as int))),
            stats.chunks == old(stats).chunks,
            stats.files_read == old(stats).files_read,
            stats.bytes_read == old(stats).bytes_read,
            stats.chunks_new == old(stats).chunks_new,
            stats.torn == old(stats).torn,
        decreases ks@.len() - i,
    {
        let v: &String = &ks[i];
        proof {
            let t = kv.take(i + 1);
            assert(t.drop_last() =~= kv.take(i as int));
            assert(t.last() == v@);
            lemma_kids(ps, d@);
            assert(kv[i as int] == v@);
            lemma_listed(listing, v@);
            assert(grouped.has(v@) <==> in_group(l, d@, kv, v@));
        }
        let mut listed: u64 = 0;
        let mut gone: u64 = 0;
        match group_of(listing, d, v) {
            Some(_) => {
                listed = 2;
                if !reads.groups.contains(v) {
                    gone = 2;
                }
            },
            None => {},
        }
        if !grouped.contains(v) {
            match listing.entries.get(v) {
                Some(meta) => {
                    if meta.kind == FileKind::File {
                        listed = listed + 1;
                        let target: Option<String> = first.target(meta, v, Ghost(ps), Ghost(l));
                        if target.is_none() && !reads.files.contains(v) {
                            gone = gone + 1;
                        }
                    } else if meta.kind == FileKind::Symlink {
                        if !reads.links.contains(v) {
                            gone = gone + 1;
                        }
                    }
                },
                None => {},
            }
        }
        stats.files = stats.files.saturating_add(listed);
        stats.vanished = stats.vanished.saturating_add(gone);
        i = i + 1;
    }
    assert(kv.take(kv.len() as int) =~= kv);
}

/// Builds dir objects for a [`Listing`].
pub struct TreeBuilder {
    /// The prefix under which dir objects are stored.
    pub prefix: KeyPrefix,
}

impl TreeBuilder {
    /// `prefix` maps a dir object's sha256 to its store key.
    pub fn new(prefix: KeyPrefix) -> (r: Self)
        ensures
            r.prefix == prefix,
    {
        TreeBuilder { prefix }
    }

    /// Build the dir object of every directory, the deepest first.
    #[verifier::rlimit(60)]
    #[verifier::spinoff_prover]
    fn build_dirs(&self, listing: &Listing, reads: &Reads) -> (r: (Building, Vec<String>))
        requires
            listing.wf(),
            reads.wf(),
        ensures
            r.0.inv(input_of(listing, reads), &self.prefix, order::views(r.1@)),
            order::views(r.1@) == deepest_first(
                order::views(r.0.keys.keys@),
                max_depth(order::views(r.0.keys.keys@)),
            ),
            order::views(r.1@).contains(Seq::empty()),
            forall|d: Seq<char>| #[trigger]
                key_texts(r.0.keys@).dom().contains(d) <==> input_of(listing, reads).is_dir(d),
    {
        let ghost inp = input_of(listing, reads);
        let ghost ps = order::views(listing.entries.keys@);
        let first: FirstNames = FirstNames::new(listing);
        let children: Children = Children::new(listing);
        let order: Vec<String> = by_depth(&children.map.keys);
        let ghost ds = order::views(children.map.keys@);
        let ghost ord = order::views(order@);
        let mut state: Building = Building::new();
        let mut j: usize = 0;
        proof {
            lemma_max_depth(ds);
            lemma_deepest_first(ds, max_depth(ds));
            assert forall|d: Seq<char>| ds.contains(d) <==> #[trigger] inp.is_dir(d) by {
                lemma_dirs(listing, reads, children, d);
            }
            assert(ord.take(0) =~= Seq::empty());
            lemma_building_starts(inp, &self.prefix, state);
        }
        while j < order.len()
            invariant
                0 <= j <= order@.len(),
                listing.wf(),
                reads.wf(),
                inp == input_of(listing, reads),
                ps == order::views(listing.entries.keys@),
                first.of(ps, listing.entries@),
                children.of(ps, listing.entries@),
                ds == order::views(children.map.keys@),
                ord == order::views(order@),
                ord == deepest_first(ds, max_depth(ds)),
                forall|d: Seq<char>| ds.contains(d) <==> #[trigger] inp.is_dir(d),
                state.inv(inp, &self.prefix, ord.take(j as int)),
            decreases order@.len() - j,
        {
            let d: &String = &order[j];
            let ghost done = ord.take(j as int);
            proof {
                assert(ord[j as int] == d@);
                lemma_kids_before(listing, reads, ds, d@, j as int);
                assert(order::views(children.map.list(d@)) == kids(ps, d@));
                assert(ord.take(j + 1) =~= done.push(d@));
                assert(kids_known(inp, key_texts(state.keys@), d@)) by {
                    assert(keys_inv(inp, &self.prefix, key_texts(state.keys@), state.dirs@, done));
                }
            }
            let none: Vec<String> = Vec::new();
            let ks: &Vec<String> = match children.map.get(d) {
                Some(ks) => ks,
                None => &none,
            };
            assert(order::views(ks@) =~= kids(ps, d@));
            state.step(listing, reads, &first, &self.prefix, d, ks, Ghost(done));
            j = j + 1;
        }
        assert(ord.take(ord.len() as int) =~= ord);
        proof {
            assert(inp.is_dir(Seq::empty()));
            assert(ds.contains(Seq::empty()));
            assert(ord.contains(Seq::empty()));
            lemma_same_keys(
                children.map.keys@,
                state.keys.keys@,
                inp,
                &self.prefix,
                state.keys,
                state.dirs@,
                ds,
            );
        }
        (state, order)
    }

    /// Build the tree for `listing` from what was read, and make the index hold exactly that.
    #[verifier::rlimit(60)]
    #[verifier::spinoff_prover]
    pub fn build(&self, index: &mut TreeIndex, listing: &Listing, reads: &Reads) -> (r: BuiltTree)
        requires
            listing.wf(),
            reads.wf(),
        ensures
            r.is_build_of(listing, reads, &self.prefix, final(index).files@),
            final(index).wf(),
    {
        let ghost inp = input_of(listing, reads);
        let (state, order): (Building, Vec<String>) = self.build_dirs(listing, reads);
        let Building { keys, dirs, root, gathered, stats } = state;
        let Gathered { entries, chunks, files, torn, here, all } = gathered;
        index.files = files;
        let mut stats: BuildStats = stats;
        stats.chunks = chunks.items.len() as u64;
        stats.files_read = reads.counts.files_read;
        stats.bytes_read = reads.counts.bytes_read;
        stats.chunks_new = reads.counts.chunks_new;
        stats.torn = torn;
        let root: EncodedDir = match root {
            Some(e) => e,
            None => {
                assert(false);
                let empty: DirObject = DirObject { entries: Vec::new() };
                empty.encode()
            },
        };
        BuiltTree { root, dirs, chunks, stats, keys, order }
    }
}

/// A build in the middle: the keys and dir objects of the directories done, and what was
/// gathered from them.
struct Building {
    keys: SortedMap<String, String>,
    dirs: SortedMap<String, EncodedDir>,
    root: Option<EncodedDir>,
    gathered: Gathered,
    stats: BuildStats,
}

/// Whether the keys and dir objects are those of the directories `done`.
spec fn keys_inv(
    inp: Input,
    prefix: &KeyPrefix,
    keys: Map<Seq<char>, Seq<char>>,
    dirs: Map<Seq<char>, EncodedDir>,
    done: Seq<Seq<char>>,
) -> bool {
    &&& forall|d: Seq<char>| #[trigger] keys.dom().contains(d) <==> done.contains(d)
    &&& forall|d: Seq<char>| #[trigger] keys.dom().contains(d) ==> kids_known(inp, keys, d)
    &&& forall|d: Seq<char>| #[trigger]
        keys.dom().contains(d) ==> keys[d] == prefix.tree_text(
            chunk::content_name(inp.dir_bytes(keys, d)),
        )
    &&& forall|d: Seq<char>| #[trigger]
        keys.dom().contains(d) ==> dirs.dom().contains(chunk::content_name(inp.dir_bytes(keys, d)))
    &&& forall|n: Seq<char>| #[trigger]
        dirs.dom().contains(n) ==> dirs[n].wf() && dirs[n].sha256@ == n
    &&& forall|n: Seq<char>| #[trigger]
        dirs.dom().contains(n) ==> exists|d: Seq<char>| #[trigger]
            keys.dom().contains(d) && dirs[n].bytes@ == inp.dir_bytes(keys, d)
    &&& forall|n: Seq<char>| #[trigger]
        dirs.dom().contains(n) ==> last_named(inp, keys, done, n) == Some(dirs[n].bytes@)
}

proof fn lemma_building_starts(inp: Input, prefix: &KeyPrefix, state: Building)
    requires
        state.keys@ == Map::<Seq<char>, String>::empty(),
        state.keys.wf(),
        state.dirs@ == Map::<Seq<char>, EncodedDir>::empty(),
        state.dirs.wf(),
        state.root is None,
        state.gathered.inv(),
        state.gathered.all@.len() == 0,
        state.stats.files == 0,
        state.stats.vanished == 0,
        state.stats.chunks == 0 && state.stats.files_read == 0 && state.stats.bytes_read == 0
            && state.stats.chunks_new == 0 && state.stats.torn == 0,
    ensures
        state.inv(inp, prefix, Seq::empty()),
{
    let keys = key_texts(state.keys@);
    assert(keys.dom() =~= Set::empty());
    assert(state.gathered.all@ =~= all_parts(inp, keys, Seq::empty()));
}

/// One more directory, in which every directory is known.
proof fn lemma_keys_step(
    inp: Input,
    prefix: &KeyPrefix,
    k0: Map<Seq<char>, Seq<char>>,
    dirs0: Map<Seq<char>, EncodedDir>,
    done: Seq<Seq<char>>,
    d: Seq<char>,
    encoded: EncodedDir,
)
    requires
        keys_inv(inp, prefix, k0, dirs0, done),
        kids_known(inp, k0, d),
        encoded.wf(),
        encoded.bytes@ == inp.dir_bytes(k0, d),
    ensures
        ({
            let k1 = k0.insert(d, prefix.tree_text(encoded.sha256@));
            &&& keys_inv(
                inp,
                prefix,
                k1,
                dirs0.insert(encoded.sha256@, encoded),
                done.push(d),
            )
            &&& inp.dir_bytes(k1, d) == inp.dir_bytes(k0, d)
            &&& k0.dom().contains(Seq::empty()) ==> inp.dir_bytes(k1, Seq::empty())
                == inp.dir_bytes(k0, Seq::empty())
            &&& all_parts(inp, k1, done.push(d)) == all_parts(inp, k0, done) + inp.parts(k0, d)
        }),
{
    let key = prefix.tree_text(encoded.sha256@);
    let k1 = k0.insert(d, key);
    let dirs1 = dirs0.insert(encoded.sha256@, encoded);
    let next = done.push(d);
    assert forall|x: Seq<char>| #[trigger] k1.dom().contains(x) <==> next.contains(x) by {
        assert(k0.dom().contains(x) <==> done.contains(x));
        if done.contains(x) {
            let i = choose|i: int| 0 <= i < done.len() && done[i] == x;
            assert(next[i] == x);
        }
        if x == d {
            assert(next[done.len() as int] == x);
        }
        if next.contains(x) {
            let i = choose|i: int| 0 <= i < next.len() && next[i] == x;
            if i < done.len() {
                assert(done[i] == x);
            }
        }
    }
    assert forall|e: Seq<char>| #[trigger] k1.dom().contains(e) implies inp.dir_bytes(k1, e)
        == inp.dir_bytes(k0, e) && kids_known(inp, k1, e) by {
        if e != d {
            assert(k0.dom().contains(e));
        }
        lemma_bytes_agree(inp, k0, d, key, e);
    }
    assert(k1.dom().contains(d));
    assert forall|e: Seq<char>| #[trigger] k1.dom().contains(e) implies k1[e] == prefix.tree_text(
        chunk::content_name(inp.dir_bytes(k1, e)),
    ) by {
        if e != d {
            assert(k0.dom().contains(e));
        }
    }
    assert forall|e: Seq<char>| #[trigger] k1.dom().contains(e) implies dirs1.dom().contains(
        chunk::content_name(inp.dir_bytes(k1, e)),
    ) by {
        if e != d {
            assert(k0.dom().contains(e));
        }
    }
    assert forall|n: Seq<char>| #[trigger] dirs1.dom().contains(n) implies exists|e: Seq<char>|
     #[trigger]
        k1.dom().contains(e) && dirs1[n].bytes@ == inp.dir_bytes(k1, e) by {
        if n != encoded.sha256@ {
            assert(dirs0.dom().contains(n));
            let e = choose|e: Seq<char>| #[trigger]
                k0.dom().contains(e) && dirs0[n].bytes@ == inp.dir_bytes(k0, e);
            assert(k1.dom().contains(e));
        }
    }
    assert(next.drop_last() =~= done);
    assert forall|n: Seq<char>| #[trigger] dirs1.dom().contains(n) implies last_named(
        inp,
        k1,
        next,
        n,
    ) == Some(dirs1[n].bytes@) by {
        assert forall|e: Seq<char>| #[trigger] done.contains(e) implies inp.dir_bytes(k1, e)
            == inp.dir_bytes(k0, e) by {
            assert(k0.dom().contains(e));
            assert(k1.dom().contains(e));
        }
        lemma_last_named_agree(inp, k1, inp, k0, done, n);
        assert(next.last() == d);
    }
    if k0.dom().contains(Seq::empty()) {
        assert(k1.dom().contains(Seq::empty()));
    }
    assert forall|e: Seq<char>| #[trigger] done.contains(e) implies kids_known(inp, k0, e) by {
        assert(k0.dom().contains(e));
    }
    lemma_all_parts_agree(inp, k0, d, key, done);
    assert(next.drop_last() =~= done);
    let ks = kids(inp.paths, d);
    lemma_plain_agree(inp, k0, k1, d, ks, ks);
}

impl Building {
    spec fn inv(&self, inp: Input, prefix: &KeyPrefix, done: Seq<Seq<char>>) -> bool {
        let keys = key_texts(self.keys@);
        &&& self.keys.wf()
        &&& self.dirs.wf()
        &&& self.gathered.inv()
        &&& keys_inv(inp, prefix, keys, self.dirs@, done)
        &&& self.gathered.all@ == all_parts(inp, keys, done)
        &&& match self.root {
            Some(e) => e.wf() && keys.dom().contains(Seq::empty()) && e.bytes@ == inp.dir_bytes(
                keys,
                Seq::empty(),
            ),
            None => !done.contains(Seq::empty()),
        }
        &&& self.stats.files == count::capped(total_files(inp, done))
        &&& self.stats.vanished == count::capped(total_vanished(inp, done))
        &&& self.stats.chunks == 0 && self.stats.files_read == 0 && self.stats.bytes_read == 0
            && self.stats.chunks_new == 0 && self.stats.torn == 0
    }

    fn new() -> (r: Self)
        ensures
            r.keys@ == Map::<Seq<char>, String>::empty(),
            r.keys.wf(),
            r.dirs@ == Map::<Seq<char>, EncodedDir>::empty(),
            r.dirs.wf(),
            r.root is None,
            r.gathered.inv(),
            r.gathered.all@.len() == 0,
            r.stats.files == 0,
            r.stats.vanished == 0,
            r.stats.chunks == 0 && r.stats.files_read == 0 && r.stats.bytes_read == 0
                && r.stats.chunks_new == 0 && r.stats.torn == 0,
    {
        let gathered = Gathered {
            entries: Vec::new(),
            chunks: SortedSet::new(),
            files: SortedMap::new(),
            torn: 0,
            here: Ghost(Seq::empty()),
            all: Ghost(Seq::empty()),
        };
        assert(order::views(gathered.entries@) =~= entries_of(gathered.here@));
        Building {
            keys: SortedMap::new(),
            dirs: SortedMap::new(),
            root: None,
            gathered,
            stats: BuildStats::zero(),
        }
    }

    /// Build one more directory.
    fn step(
        &mut self,
        listing: &Listing,
        reads: &Reads,
        first: &FirstNames,
        prefix: &KeyPrefix,
        d: &String,
        ks: &Vec<String>,
        Ghost(done): Ghost<Seq<Seq<char>>>,
    )
        requires
            listing.wf(),
            reads.wf(),
            first.of(order::views(listing.entries.keys@), listing.entries@),
            order::views(ks@) == kids(order::views(listing.entries.keys@), d@),
            old(self).inv(input_of(listing, reads), prefix, done),
            kids_known(input_of(listing, reads), key_texts(old(self).keys@), d@),
        ensures
            final(self).inv(input_of(listing, reads), prefix, done.push(d@)),
    {
        let ghost inp = input_of(listing, reads);
        let ghost k0 = key_texts(self.keys@);
        let ghost dirs0 = self.dirs@;
        let ghost next = done.push(d@);
        let grouped: SortedSet<String> = grouped_paths(listing, d, ks);
        count_dir(
            listing,
            reads,
            first,
            d,
            ks,
            &grouped,
            &mut self.stats,
            Ghost(total_files(inp, done)),
            Ghost(total_vanished(inp, done)),
        );
        self.gathered.entries = Vec::new();
        self.gathered.here = Ghost(Seq::empty());
        assert(order::views(self.gathered.entries@) =~= entries_of(self.gathered.here@));
        gather_dir(listing, reads, first, &self.keys, d, ks, &grouped, &mut self.gathered);
        let mut listed: Vec<DirEntry> = Vec::new();
        std::mem::swap(&mut listed, &mut self.gathered.entries);
        self.gathered.here = Ghost(Seq::empty());
        assert(order::views(self.gathered.entries@) =~= entries_of(self.gathered.here@));
        let object: DirObject = DirObject { entries: listed };
        let encoded: EncodedDir = object.encode();
        let key: String = prefix.tree(encoded.sha256.as_str());
        let ghost key_text = key@;
        let old_key: Option<String> = self.keys.insert(d.clone(), key);
        proof {
            assert(key_texts(self.keys@) =~= k0.insert(d@, key_text));
            lemma_keys_step(inp, prefix, k0, dirs0, done, d@, encoded);
            assert(next.drop_last() =~= done);
            assert(next.contains(Seq::empty()) ==> done.contains(Seq::empty()) || d@
                == Seq::<char>::empty()) by {
                if next.contains(Seq::empty()) {
                    let i = choose|i: int| 0 <= i < next.len() && next[i] == Seq::<char>::empty();
                    if i < done.len() {
                        assert(done[i] == Seq::<char>::empty());
                    }
                }
            }
        }
        if d.as_str().is_empty() {
            self.root = Some(encoded.copy());
            assert(d@ =~= Seq::empty());
            assert(next[done.len() as int] == d@);
        }
        let old_dir: Option<EncodedDir> = self.dirs.insert(encoded.sha256.clone(), encoded);
    }
}

/// Two ascending lists of the same texts are the same list.
pub proof fn lemma_same_ascending(a: Seq<String>, b: Seq<String>)
    requires
        order::ascending(a),
        order::ascending(b),
        forall|x: Seq<char>| #[trigger] order::holds(a, x) <==> order::holds(b, x),
    ensures
        order::views(a) == order::views(b),
    decreases a.len(),
{
    if a.len() == 0 {
        if b.len() > 0 {
            assert(order::holds(b, b[0]@));
            assert(order::holds(a, b[0]@));
        }
        assert(order::views(a) =~= order::views(b));
    } else {
        assert(order::holds(a, a[0]@));
        assert(order::holds(b, a[0]@));
        assert(b.len() > 0);
        let (x, y) = (a.last(), b.last());
        assert(order::holds(a, x@)) by {
            assert(a[a.len() - 1]@ == x@);
        }
        assert(order::holds(b, y@)) by {
            assert(b[b.len() - 1]@ == y@);
        }
        assert(order::holds(b, x@) && order::holds(a, y@));
        let i = choose|i: int| 0 <= i < b.len() && #[trigger] b[i]@ == x@;
        let j = choose|j: int| 0 <= j < a.len() && #[trigger] a[j]@ == y@;
        if i < b.len() - 1 {
            assert(order::rank_less(text::text_rank(b[i]@), text::text_rank(b[b.len() - 1]@)));
            if j < a.len() - 1 {
                assert(order::rank_less(text::text_rank(a[j]@), text::text_rank(a[a.len() - 1]@)));
                order::lemma_rank_asymmetric(text::text_rank(x@), text::text_rank(y@));
            }
        }
        assert(x@ == y@);
        let (a1, b1) = (a.drop_last(), b.drop_last());
        assert(a1 =~= a.remove(a.len() - 1));
        assert(b1 =~= b.remove(b.len() - 1));
        order::lemma_removed(a, a.len() - 1);
        order::lemma_removed(b, b.len() - 1);
        assert forall|k: Seq<char>| #[trigger] order::holds(a1, k) <==> order::holds(b1, k) by {
            assert(order::holds(a1, k) <==> order::holds(a, k) && k != x@);
            assert(order::holds(b1, k) <==> order::holds(b, k) && k != y@);
            assert(order::holds(a, k) <==> order::holds(b, k));
        }
        lemma_same_ascending(a1, b1);
        assert(order::views(a) =~= order::views(a1).push(x@));
        assert(order::views(b) =~= order::views(b1).push(y@));
    }
}

/// The directories that got a key are those that have a list of children.
proof fn lemma_same_keys(
    a: Seq<String>,
    b: Seq<String>,
    inp: Input,
    prefix: &KeyPrefix,
    keys: SortedMap<String, String>,
    dirs: Map<Seq<char>, EncodedDir>,
    ds: Seq<Seq<char>>,
)
    requires
        order::ascending(a),
        keys.wf(),
        keys.keys@ == b,
        ds == order::views(a),
        keys_inv(inp, prefix, key_texts(keys@), dirs, deepest_first(ds, max_depth(ds))),
        forall|d: Seq<char>| ds.contains(d) <==> #[trigger] inp.is_dir(d),
    ensures
        order::views(b) == ds,
        forall|d: Seq<char>| #[trigger]
            key_texts(keys@).dom().contains(d) <==> inp.is_dir(d),
{
    let ord = deepest_first(ds, max_depth(ds));
    lemma_max_depth(ds);
    lemma_deepest_first(ds, max_depth(ds));
    assert forall|d: Seq<char>| #[trigger] key_texts(keys@).dom().contains(d) <==> inp.is_dir(
        d,
    ) by {
        assert(key_texts(keys@).dom().contains(d) <==> ord.contains(d));
        if inp.is_dir(d) {
            assert(ds.contains(d));
        }
        if ord.contains(d) {
            let i = choose|i: int| 0 <= i < ord.len() && ord[i] == d;
            assert(ds.contains(ord[i]));
        }
    }
    assert forall|d: Seq<char>| #[trigger] order::holds(a, d) <==> order::holds(b, d) by {
        assert(key_texts(keys@).dom().contains(d) <==> order::holds(b, d));
        assert(ds.contains(d) <==> order::holds(a, d)) by {
            if ds.contains(d) {
                let i = choose|i: int| 0 <= i < ds.len() && ds[i] == d;
                assert(a[i]@ == d);
            }
            if order::holds(a, d) {
                let i = choose|i: int| 0 <= i < a.len() && #[trigger] a[i]@ == d;
                assert(ds[i] == d);
            }
        }
        assert(ds.contains(d) <==> inp.is_dir(d));
    }
    lemma_same_ascending(a, b);
}

/// The directories of a listing are those that have a list of children.
proof fn lemma_dirs(listing: &Listing, reads: &Reads, children: Children, d: Seq<char>)
    requires
        listing.wf(),
        children.of(order::views(listing.entries.keys@), listing.entries@),
    ensures
        order::views(children.map.keys@).contains(d) <==> input_of(listing, reads).is_dir(d),
{
    let ps = order::views(listing.entries.keys@);
    let l = listing.entries@;
    let ds = order::views(children.map.keys@);
    assert(children.map@.dom().contains(d) <==> is_dir_of(ps, l, d));
    if ds.contains(d) {
        let i = choose|i: int| 0 <= i < ds.len() && ds[i] == d;
        children.map.lemma_entry(i);
    }
    if children.map@.dom().contains(d) {
        let i = order::spot(children.map.keys@, d);
        assert(0 <= i < children.map.keys@.len() && children.map.keys@[i]@ == d);
        assert(ds[i] == d);
    }
    if exists|i: int| 0 <= i < ps.len() && #[trigger] ps[i] == d && l[d].kind == FileKind::Dir {
        let i = choose|i: int|
            0 <= i < ps.len() && #[trigger] ps[i] == d && l[d].kind == FileKind::Dir;
        listing.entries.lemma_entry(i);
        assert(l.dom().contains(d));
    }
    if l.dom().contains(d) && l[d].kind == FileKind::Dir {
        let i = order::spot(listing.entries.keys@, d);
        assert(0 <= i < listing.entries.keys@.len() && listing.entries.keys@[i]@ == d);
        assert(ps[i] == d);
        assert(is_dir_of(ps, l, d));
    }
    let inp = input_of(listing, reads);
    assert(inp.paths == ps && inp.listing == l);
    if is_dir_of(ps, l, d) && d.len() > 0 {
        if exists|i: int| 0 <= i < ps.len() && paths::parent(#[trigger] ps[i]) == d {
            let i = choose|i: int| 0 <= i < ps.len() && paths::parent(#[trigger] ps[i]) == d;
            assert(paths::parent(inp.paths[i]) == d);
        }
        assert(inp.is_dir(d));
    }
    if inp.is_dir(d) && d.len() > 0 {
        if exists|i: int| 0 <= i < inp.paths.len() && paths::parent(#[trigger] inp.paths[i]) == d {
            let i = choose|i: int|
                0 <= i < inp.paths.len() && paths::parent(#[trigger] inp.paths[i]) == d;
            assert(paths::parent(ps[i]) == d);
        }
        assert(is_dir_of(ps, l, d));
    }
}

/// When a directory is reached, every directory in it has been.
proof fn lemma_kids_before(listing: &Listing, reads: &Reads, ds: Seq<Seq<char>>, d: Seq<char>, j: int)
    requires
        listing.wf(),
        forall|x: Seq<char>| ds.contains(x) <==> #[trigger] input_of(listing, reads).is_dir(x),
        0 <= j < deepest_first(ds, max_depth(ds)).len(),
        deepest_first(ds, max_depth(ds))[j] == d,
    ensures
        ({
            let inp = input_of(listing, reads);
            forall|i: int|
                0 <= i < kids(inp.paths, d).len() && inp.listing[#[trigger] kids(inp.paths, d)[i]].kind
                    == FileKind::Dir ==> deepest_first(ds, max_depth(ds)).take(j).contains(
                    kids(inp.paths, d)[i],
                )
        }),
{
    let inp = input_of(listing, reads);
    lemma_max_depth(ds);
    lemma_deepest_first(ds, max_depth(ds));
    lemma_kids(inp.paths, d);
    assert forall|i: int|
        0 <= i < kids(inp.paths, d).len() && inp.listing[#[trigger] kids(inp.paths, d)[i]].kind
            == FileKind::Dir implies deepest_first(ds, max_depth(ds)).take(j).contains(
        kids(inp.paths, d)[i],
    ) by {
        let v = kids(inp.paths, d)[i];
        lemma_listed(listing, v);
        paths::lemma_depth_of_parent(v);
        assert(inp.is_dir(v));
        assert(ds.contains(v));
        assert(paths::depth(deepest_first(ds, max_depth(ds))[j]) < paths::depth(v));
    }
}

proof fn lemma_all_parts_agree(
    inp: Input,
    k: Map<Seq<char>, Seq<char>>,
    e: Seq<char>,
    key: Seq<char>,
    dirs: Seq<Seq<char>>,
)
    requires
        forall|d: Seq<char>| #[trigger] dirs.contains(d) ==> kids_known(inp, k, d),
        k.dom().contains(e) ==> k[e] == key,
    ensures
        all_parts(inp, k.insert(e, key), dirs) == all_parts(inp, k, dirs),
    decreases dirs.len(),
{
    if dirs.len() > 0 {
        assert forall|d: Seq<char>| #[trigger] dirs.drop_last().contains(d) implies kids_known(
            inp,
            k,
            d,
        ) by {
            let i = choose|i: int| 0 <= i < dirs.drop_last().len() && dirs.drop_last()[i] == d;
            assert(dirs[i] == d);
            assert(dirs.contains(d));
        }
        lemma_all_parts_agree(inp, k, e, key, dirs.drop_last());
        let d = dirs.last();
        assert(dirs[dirs.len() - 1] == d);
        assert(dirs.contains(d));
        let ks = kids(inp.paths, d);
        assert(kids_known(inp, k, d));
        lemma_plain_agree(inp, k, k.insert(e, key), d, ks, ks);
    }
}


/// Something to be read for a tree.
pub enum Task {
    /// A `db` + `-wal` group, to be read together.
    Group {
        /// The `-wal`.
        wal: String,
        /// The database.
        db: String,
    },
    /// A file.
    File(String),
    /// A symlink's text.
    Link(String),
}

/// What a task stands for.
pub enum TaskModel {
    /// A `db` + `-wal` group.
    Group {
        /// The `-wal`.
        wal: Seq<char>,
        /// The database.
        db: Seq<char>,
    },
    /// A file.
    File(Seq<char>),
    /// A symlink's text.
    Link(Seq<char>),
}

impl View for Task {
    type V = TaskModel;

    open spec fn view(&self) -> TaskModel {
        match self {
            Task::Group { wal, db } => TaskModel::Group { wal: wal@, db: db@ },
            Task::File(v) => TaskModel::File(v@),
            Task::Link(v) => TaskModel::Link(v@),
        }
    }
}

/// The groups to be read among the paths.
pub open spec fn group_tasks(
    l: Map<Seq<char>, Meta>,
    d: Seq<char>,
    some: Seq<Seq<char>>,
) -> Seq<TaskModel>
    decreases some.len(),
{
    if some.len() == 0 {
        Seq::empty()
    } else {
        let front = group_tasks(l, d, some.drop_last());
        let w = some.last();
        if is_group(l, d, w) {
            front.push(TaskModel::Group { wal: w, db: db_path(d, w) })
        } else {
            front
        }
    }
}

/// The files and symlinks to be read among the paths that are in no group: a file with an
/// earlier name is not.
pub open spec fn plain_tasks(
    ps: Seq<Seq<char>>,
    l: Map<Seq<char>, Meta>,
    d: Seq<char>,
    ks: Seq<Seq<char>>,
    some: Seq<Seq<char>>,
) -> Seq<TaskModel>
    decreases some.len(),
{
    if some.len() == 0 {
        Seq::empty()
    } else {
        let front = plain_tasks(ps, l, d, ks, some.drop_last());
        let v = some.last();
        if in_group(l, d, ks, v) {
            front
        } else if l[v].kind == FileKind::Symlink {
            front.push(TaskModel::Link(v))
        } else if l[v].kind == FileKind::File && link_target(ps, l, v) is None {
            front.push(TaskModel::File(v))
        } else {
            front
        }
    }
}

/// Everything to be read for the directories, one after the other: first the groups of a
/// directory, then the rest of it.
pub open spec fn tasks(
    ps: Seq<Seq<char>>,
    l: Map<Seq<char>, Meta>,
    dirs: Seq<Seq<char>>,
) -> Seq<TaskModel>
    decreases dirs.len(),
{
    if dirs.len() == 0 {
        Seq::empty()
    } else {
        let d = dirs.last();
        let ks = kids(ps, d);
        tasks(ps, l, dirs.drop_last()) + group_tasks(l, d, ks) + plain_tasks(ps, l, d, ks, ks)
    }
}

fn plan_dir(
    listing: &Listing,
    first: &FirstNames,
    d: &String,
    ks: &Vec<String>,
    out: &mut Vec<Task>,
)
    requires
        listing.wf(),
        first.of(order::views(listing.entries.keys@), listing.entries@),
        order::views(ks@) == kids(order::views(listing.entries.keys@), d@),
    ensures
        order::views(final(out)@) == order::views(old(out)@) + group_tasks(
            listing.entries@,
            d@,
            order::views(ks@),
        ) + plain_tasks(
            order::views(listing.entries.keys@),
            listing.entries@,
            d@,
            order::views(ks@),
            order::views(ks@),
        ),
{
    let ghost l = listing.entries@;
    let ghost ps = order::views(listing.entries.keys@);
    let ghost kv = order::views(ks@);
    let ghost start = order::views(out@);
    let grouped: SortedSet<String> = grouped_paths(listing, d, ks);
    let mut i: usize = 0;
    assert(kv.take(0) =~= Seq::empty());
    assert(start + group_tasks(l, d@, kv.take(0)) =~= start);
    while i < ks.len()
        invariant
            0 <= i <= ks@.len(),
            listing.wf(),
            l == listing.entries@,
            kv == order::views(ks@),
            order::views(out@) == start + group_tasks(l, d@, kv.take(i as int)),
        decreases ks@.len() - i,
    {
        let w: &String = &ks[i];
        let ghost before = order::views(out@);
        proof {
            assert(kv.take(i + 1).drop_last() =~= kv.take(i as int));
            assert(kv.take(i + 1).last() == w@);
        }
        match group_of(listing, d, w) {
            Some((base, db)) => {
                let task = Task::Group { wal: w.clone(), db };
                out.push(task);
                assert(order::views(out@) =~= before.push(task@));
            },
            None => {},
        }
        assert(order::views(out@) =~= start + group_tasks(l, d@, kv.take(i + 1)));
        i = i + 1;
    }
    assert(kv.take(kv.len() as int) =~= kv);
    let ghost mid = order::views(out@);
    let mut j: usize = 0;
    assert(mid + plain_tasks(ps, l, d@, kv, kv.take(0)) =~= mid);
    while j < ks.len()
        invariant
            0 <= j <= ks@.len(),
            listing.wf(),
            first.of(ps, l),
            l == listing.entries@,
            ps == order::views(listing.entries.keys@),
            kv == order::views(ks@),
            kv == kids(ps, d@),
            grouped.wf(),
            forall|v: Seq<char>| #[trigger] grouped.has(v) <==> in_group(l, d@, kv, v),
            order::views(out@) == mid + plain_tasks(ps, l, d@, kv, kv.take(j as int)),
        decreases ks@.len() - j,
    {
        let v: &String = &ks[j];
        let ghost before = order::views(out@);
        proof {
            assert(kv.take(j + 1).drop_last() =~= kv.take(j as int));
            assert(kv.take(j + 1).last() == v@);
            lemma_kids(ps, d@);
            assert(kv[j as int] == v@);
            lemma_listed(listing, v@);
            assert(grouped.has(v@) <==> in_group(l, d@, kv, v@));
        }
        if !grouped.contains(v) {
            match listing.entries.get(v) {
                Some(meta) => {
                    if meta.kind == FileKind::Symlink {
                        out.push(Task::Link(v.clone()));
                        assert(order::views(out@) =~= before.push(TaskModel::Link(v@)));
                    } else if meta.kind == FileKind::File {
                        let target: Option<String> = first.target(meta, v, Ghost(ps), Ghost(l));
                        if target.is_none() {
                            out.push(Task::File(v.clone()));
                            assert(order::views(out@) =~= before.push(TaskModel::File(v@)));
                        }
                    }
                },
                None => {},
            }
        }
        assert(order::views(out@) =~= mid + plain_tasks(ps, l, d@, kv, kv.take(j + 1)));
        j = j + 1;
    }
    assert(kv.take(kv.len() as int) =~= kv);
}

/// Whether these are texts in order, each once.
pub open spec fn are_sorted(ds: Seq<Seq<char>>) -> bool {
    forall|i: int, j: int|
        0 <= i < j < ds.len() ==> text::text_less(#[trigger] ds[i], #[trigger] ds[j])
}

/// Whether this is what has to be read for the tree of `listing`: the tasks of each directory, the
/// deepest directories first.
pub open spec fn is_plan(listing: &Listing, plan: Seq<TaskModel>) -> bool {
    exists|ds: Seq<Seq<char>>|
        #![trigger max_depth(ds)]
        (forall|d: Seq<char>| ds.contains(d) <==> #[trigger] dirs_input(listing).is_dir(d))
            && are_sorted(ds) && plan == tasks(
            order::views(listing.entries.keys@),
            listing.entries@,
            deepest_first(ds, max_depth(ds)),
        )
}

/// Everything that has to be read for the tree of `listing`, in the order in which it is read:
/// the deepest directories first.
pub fn read_plan(listing: &Listing) -> (r: Vec<Task>)
    requires
        listing.wf(),
    ensures
        is_plan(listing, order::views(r@)),
{
    let ghost l = listing.entries@;
    let ghost ps = order::views(listing.entries.keys@);
    let first: FirstNames = FirstNames::new(listing);
    let children: Children = Children::new(listing);
    let order: Vec<String> = by_depth(&children.map.keys);
    let ghost ds = order::views(children.map.keys@);
    let ghost ord = order::views(order@);
    let mut out: Vec<Task> = Vec::new();
    let mut j: usize = 0;
    assert(ord.take(0) =~= Seq::empty());
    assert(order::views(out@) =~= tasks(ps, l, ord.take(0)));
    while j < order.len()
        invariant
            0 <= j <= order@.len(),
            listing.wf(),
            l == listing.entries@,
            ps == order::views(listing.entries.keys@),
            first.of(ps, l),
            children.of(ps, l),
            ord == order::views(order@),
            order::views(out@) == tasks(ps, l, ord.take(j as int)),
        decreases order@.len() - j,
    {
        let d: &String = &order[j];
        proof {
            assert(ord[j as int] == d@);
            assert(ord.take(j + 1).drop_last() =~= ord.take(j as int));
            assert(ord.take(j + 1).last() == d@);
            assert(order::views(children.map.list(d@)) == kids(ps, d@));
        }
        let none: Vec<String> = Vec::new();
        let ks: &Vec<String> = match children.map.get(d) {
            Some(ks) => ks,
            None => &none,
        };
        assert(order::views(ks@) =~= kids(ps, d@));
        plan_dir(listing, &first, d, ks, &mut out);
        j = j + 1;
    }
    proof {
        assert(ord.take(ord.len() as int) =~= ord);
        assert forall|i: int, j: int| 0 <= i < j < ds.len() implies text::text_less(
            #[trigger] ds[i],
            #[trigger] ds[j],
        ) by {
            assert(ds[i] == children.map.keys@[i]@ && ds[j] == children.map.keys@[j]@);
        }
        assert forall|d: Seq<char>| ds.contains(d) <==> #[trigger] dirs_input(listing).is_dir(d) by {
            lemma_plan_dirs(listing, children, d);
        }
        assert(max_depth(ds) == max_depth(ds));
    }
    out
}

/// The input that a listing makes before anything is read.
pub open spec fn dirs_input(listing: &Listing) -> Input {
    Input {
        listing: listing.entries@,
        paths: order::views(listing.entries.keys@),
        files: Map::empty(),
        groups: Map::empty(),
        links: Map::empty(),
    }
}

proof fn lemma_plan_dirs(listing: &Listing, children: Children, d: Seq<char>)
    requires
        listing.wf(),
        children.of(order::views(listing.entries.keys@), listing.entries@),
    ensures
        order::views(children.map.keys@).contains(d) <==> dirs_input(listing).is_dir(d),
{
    let none: Reads = arbitrary();
    lemma_dirs(listing, &none, children, d);
    let (a, b) = (input_of(listing, &none), dirs_input(listing));
    assert(a.is_dir(d) <==> b.is_dir(d)) by {
        if exists|i: int| 0 <= i < a.paths.len() && paths::parent(#[trigger] a.paths[i]) == d {
            let i = choose|i: int| 0 <= i < a.paths.len() && paths::parent(#[trigger] a.paths[i]) == d;
            assert(paths::parent(b.paths[i]) == d);
        }
        if exists|i: int| 0 <= i < b.paths.len() && paths::parent(#[trigger] b.paths[i]) == d {
            let i = choose|i: int| 0 <= i < b.paths.len() && paths::parent(#[trigger] b.paths[i]) == d;
            assert(paths::parent(a.paths[i]) == d);
        }
    }
}

/// Whether a task was done.
pub open spec fn is_read(inp: Input, t: TaskModel) -> bool {
    match t {
        TaskModel::Group { wal, db } => inp.groups.dom().contains(wal),
        TaskModel::File(v) => inp.files.dom().contains(v),
        TaskModel::Link(v) => inp.links.dom().contains(v),
    }
}

/// Nothing counts as vanished just where everything on the plan was read.
pub proof fn law_a_fully_read_plan_has_no_vanished_files(inp: Input, dirs: Seq<Seq<char>>)
    ensures
        total_vanished(inp, dirs) == 0 <==> (forall|i: int|
            0 <= i < tasks(inp.paths, inp.listing, dirs).len() ==> is_read(
                inp,
                #[trigger] tasks(inp.paths, inp.listing, dirs)[i],
            )),
{
    if total_vanished(inp, dirs) == 0 {
        lemma_none_vanished_is_fully_read(inp, dirs);
    } else if forall|i: int|
        0 <= i < tasks(inp.paths, inp.listing, dirs).len() ==> is_read(
            inp,
            #[trigger] tasks(inp.paths, inp.listing, dirs)[i],
        ) {
        lemma_fully_read_has_none_vanished(inp, dirs);
    }
}

proof fn lemma_none_vanished_is_fully_read(inp: Input, dirs: Seq<Seq<char>>)
    requires
        total_vanished(inp, dirs) == 0,
    ensures
        forall|i: int|
            0 <= i < tasks(inp.paths, inp.listing, dirs).len() ==> is_read(
                inp,
                #[trigger] tasks(inp.paths, inp.listing, dirs)[i],
            ),
    decreases dirs.len(),
{
    if dirs.len() > 0 {
        let d = dirs.last();
        let ks = kids(inp.paths, d);
        let all = tasks(inp.paths, inp.listing, dirs);
        let front = tasks(inp.paths, inp.listing, dirs.drop_last());
        let groups = group_tasks(inp.listing, d, ks);
        let plain = plain_tasks(inp.paths, inp.listing, d, ks, ks);
        lemma_none_vanished_is_fully_read(inp, dirs.drop_last());
        lemma_none_vanished_in(inp, d, ks, ks);
        assert forall|i: int| 0 <= i < all.len() implies is_read(inp, #[trigger] all[i]) by {
            if i < front.len() {
                assert(all[i] == front[i]);
            } else if i < front.len() + groups.len() {
                assert(all[i] == groups[i - front.len()]);
            } else {
                assert(all[i] == plain[i - front.len() - groups.len()]);
            }
        }
    }
}

proof fn lemma_none_vanished_in(inp: Input, d: Seq<char>, ks: Seq<Seq<char>>, some: Seq<Seq<char>>)
    requires
        inp.count_vanished(d, ks, some) == 0,
    ensures
        forall|i: int|
            0 <= i < group_tasks(inp.listing, d, some).len() ==> is_read(
                inp,
                #[trigger] group_tasks(inp.listing, d, some)[i],
            ),
        forall|i: int|
            0 <= i < plain_tasks(inp.paths, inp.listing, d, ks, some).len() ==> is_read(
                inp,
                #[trigger] plain_tasks(inp.paths, inp.listing, d, ks, some)[i],
            ),
    decreases some.len(),
{
    if some.len() > 0 {
        lemma_none_vanished_in(inp, d, ks, some.drop_last());
        let (g, g1) = (
            group_tasks(inp.listing, d, some),
            group_tasks(inp.listing, d, some.drop_last()),
        );
        let (p, p1) = (
            plain_tasks(inp.paths, inp.listing, d, ks, some),
            plain_tasks(inp.paths, inp.listing, d, ks, some.drop_last()),
        );
        assert forall|i: int| 0 <= i < g.len() implies is_read(inp, #[trigger] g[i]) by {
            assert(i < g1.len() ==> g[i] == g1[i]);
        }
        assert forall|i: int| 0 <= i < p.len() implies is_read(inp, #[trigger] p[i]) by {
            assert(i < p1.len() ==> p[i] == p1[i]);
        }
    }
}

proof fn lemma_fully_read_has_none_vanished(inp: Input, dirs: Seq<Seq<char>>)
    requires
        forall|i: int|
            0 <= i < tasks(inp.paths, inp.listing, dirs).len() ==> is_read(
                inp,
                #[trigger] tasks(inp.paths, inp.listing, dirs)[i],
            ),
    ensures
        total_vanished(inp, dirs) == 0,
    decreases dirs.len(),
{
    if dirs.len() > 0 {
        let d = dirs.last();
        let ks = kids(inp.paths, d);
        let all = tasks(inp.paths, inp.listing, dirs);
        let front = tasks(inp.paths, inp.listing, dirs.drop_last());
        let groups = group_tasks(inp.listing, d, ks);
        let plain = plain_tasks(inp.paths, inp.listing, d, ks, ks);
        assert forall|i: int| 0 <= i < front.len() implies is_read(inp, #[trigger] front[i]) by {
            assert(front[i] == all[i]);
        }
        assert forall|i: int| 0 <= i < groups.len() implies is_read(inp, #[trigger] groups[i]) by {
            assert(groups[i] == all[front.len() + i]);
        }
        assert forall|i: int| 0 <= i < plain.len() implies is_read(inp, #[trigger] plain[i]) by {
            assert(plain[i] == all[front.len() + groups.len() + i]);
        }
        lemma_fully_read_has_none_vanished(inp, dirs.drop_last());
        lemma_no_vanished(inp, d, ks, ks);
    }
}

proof fn lemma_no_vanished(inp: Input, d: Seq<char>, ks: Seq<Seq<char>>, some: Seq<Seq<char>>)
    requires
        forall|i: int|
            0 <= i < group_tasks(inp.listing, d, some).len() ==> is_read(
                inp,
                #[trigger] group_tasks(inp.listing, d, some)[i],
            ),
        forall|i: int|
            0 <= i < plain_tasks(inp.paths, inp.listing, d, ks, some).len() ==> is_read(
                inp,
                #[trigger] plain_tasks(inp.paths, inp.listing, d, ks, some)[i],
            ),
    ensures
        inp.count_vanished(d, ks, some) == 0,
    decreases some.len(),
{
    if some.len() > 0 {
        let g = group_tasks(inp.listing, d, some);
        let g1 = group_tasks(inp.listing, d, some.drop_last());
        let p = plain_tasks(inp.paths, inp.listing, d, ks, some);
        let p1 = plain_tasks(inp.paths, inp.listing, d, ks, some.drop_last());
        assert forall|i: int| 0 <= i < g1.len() implies is_read(inp, #[trigger] g1[i]) by {
            assert(g1[i] == g[i]);
        }
        assert forall|i: int| 0 <= i < p1.len() implies is_read(inp, #[trigger] p1[i]) by {
            assert(p1[i] == p[i]);
        }
        lemma_no_vanished(inp, d, ks, some.drop_last());
        if g.len() > g1.len() {
            assert(is_read(inp, g[g.len() - 1]));
        }
        if p.len() > p1.len() {
            assert(is_read(inp, p[p.len() - 1]));
        }
    }
}

/// Whether something was read under a path.
pub open spec fn has_read(parts: Seq<Part>, v: Seq<char>, read: ReadModel) -> bool {
    exists|k: int|
        0 <= k < parts.len() && (#[trigger] parts[k]).path == v && parts[k].read == Some(read)
}

/// Whether the parts were read as their files are listed, and one that was read twice was read the
/// same.
pub open spec fn is_as_listed(l: Map<Seq<char>, Meta>, parts: Seq<Part>) -> bool {
    &&& forall|i: int|
        0 <= i < parts.len() && (#[trigger] parts[i]).read is Some ==> parts[i].read->0.stat
            == l[parts[i].path].stat
    &&& forall|i: int, j: int|
        0 <= i < parts.len() && 0 <= j < parts.len() && (#[trigger] parts[i]).path == (
        #[trigger] parts[j]).path && parts[i].read is Some && parts[j].read is Some
            ==> parts[i].read == parts[j].read
}

/// Whether nothing changed while the parts were read, nor since: no file is torn, and each was read
/// as it is listed.
spec fn at_rest(l: Map<Seq<char>, Meta>, parts: Seq<Part>) -> bool {
    &&& forall|i: int|
        0 <= i < parts.len() && (#[trigger] parts[i]).read is Some ==> !parts[i].read->0.torn
    &&& is_as_listed(l, parts)
}

proof fn lemma_none_torn(parts: Seq<Part>)
    requires
        count_torn(parts) == 0,
    ensures
        forall|i: int|
            0 <= i < parts.len() && (#[trigger] parts[i]).read is Some ==> !parts[i].read->0.torn,
    decreases parts.len(),
{
    if parts.len() > 0 {
        lemma_none_torn(parts.drop_last());
        assert forall|i: int|
            0 <= i < parts.len() && (#[trigger] parts[i]).read is Some implies !parts[i].read->0.torn by {
            assert(i < parts.len() - 1 ==> parts.drop_last()[i] == parts[i]);
        }
    }
}

proof fn lemma_same_count(a: Input, b: Input, d: Seq<char>, ks: Seq<Seq<char>>, some: Seq<Seq<char>>)
    requires
        a.listing == b.listing,
    ensures
        a.count_files(d, ks, some) == b.count_files(d, ks, some),
    decreases some.len(),
{
    if some.len() > 0 {
        lemma_same_count(a, b, d, ks, some.drop_last());
    }
}

proof fn lemma_same_total(a: Input, b: Input, dirs: Seq<Seq<char>>)
    requires
        a.listing == b.listing,
        a.paths == b.paths,
    ensures
        total_files(a, dirs) == total_files(b, dirs),
    decreases dirs.len(),
{
    if dirs.len() > 0 {
        let ks = kids(a.paths, dirs.last());
        lemma_same_total(a, b, dirs.drop_last());
        lemma_same_count(a, b, dirs.last(), ks, ks);
    }
}

/// Whether the index knows what a task would read, so that nothing is read for it.
pub open spec fn is_known(
    t: TaskModel,
    files: Map<Seq<char>, IndexedFile>,
    l: Map<Seq<char>, Meta>,
    stored: Set<Seq<u8>>,
) -> bool {
    match t {
        TaskModel::Group { wal, db } => is_current(files, wal, l[wal].stat, stored) && is_current(
            files,
            db,
            l[db].stat,
            stored,
        ),
        TaskModel::File(v) => is_current(files, v, l[v].stat, stored),
        TaskModel::Link(_) => true,
    }
}

/// Whether `again` holds for a task what the index knows of its files, and the text of a symlink as
/// it was read before.
pub open spec fn is_reused(
    t: TaskModel,
    files: Map<Seq<char>, IndexedFile>,
    inp: Input,
    again: Input,
) -> bool {
    match t {
        TaskModel::Group { wal, db } => {
            &&& again.groups.dom().contains(wal)
            &&& again.groups[wal].wal@ == known_read(files, wal)
            &&& again.groups[wal].db@ == known_read(files, db)
        },
        TaskModel::File(v) => {
            &&& again.files.dom().contains(v)
            &&& again.files[v]@ == known_read(files, v)
        },
        TaskModel::Link(v) => {
            &&& again.links.dom().contains(v)
            &&& again.links[v]@ == inp.links[v]@
        },
    }
}

/// Whether two inputs hold the same for a task.
spec fn is_same_read(t: TaskModel, inp: Input, again: Input) -> bool {
    match t {
        TaskModel::Group { wal, db } => {
            &&& inp.groups.dom().contains(wal) && again.groups.dom().contains(wal)
            &&& again.groups[wal].wal@ == inp.groups[wal].wal@
            &&& again.groups[wal].db@ == inp.groups[wal].db@
        },
        TaskModel::File(v) => {
            &&& inp.files.dom().contains(v) && again.files.dom().contains(v)
            &&& again.files[v]@ == inp.files[v]@
        },
        TaskModel::Link(v) => {
            &&& inp.links.dom().contains(v) && again.links.dom().contains(v)
            &&& again.links[v]@ == inp.links[v]@
        },
    }
}

/// Whether the parts hold what was read for a task.
spec fn is_in(t: TaskModel, inp: Input, parts: Seq<Part>) -> bool {
    match t {
        TaskModel::Group { wal, db } => has_read(parts, wal, inp.groups[wal].wal@) && has_read(
            parts,
            db,
            inp.groups[wal].db@,
        ),
        TaskModel::File(v) => has_read(parts, v, inp.files[v]@),
        TaskModel::Link(_) => true,
    }
}

proof fn lemma_has_read_joined(a: Seq<Part>, b: Seq<Part>, v: Seq<char>, read: ReadModel)
    ensures
        has_read(a, v, read) ==> has_read(a + b, v, read),
        has_read(b, v, read) ==> has_read(a + b, v, read),
{
    let all = a + b;
    if has_read(a, v, read) {
        let k = choose|k: int|
            0 <= k < a.len() && (#[trigger] a[k]).path == v && a[k].read == Some(read);
        assert(all[k] == a[k]);
    }
    if has_read(b, v, read) {
        let k = choose|k: int|
            0 <= k < b.len() && (#[trigger] b[k]).path == v && b[k].read == Some(read);
        assert(all[a.len() + k] == b[k]);
    }
}

proof fn lemma_is_in_joined(t: TaskModel, inp: Input, a: Seq<Part>, b: Seq<Part>)
    ensures
        is_in(t, inp, a) ==> is_in(t, inp, a + b),
        is_in(t, inp, b) ==> is_in(t, inp, a + b),
{
    match t {
        TaskModel::Group { wal, db } => {
            lemma_has_read_joined(a, b, wal, inp.groups[wal].wal@);
            lemma_has_read_joined(a, b, db, inp.groups[wal].db@);
        },
        TaskModel::File(v) => {
            lemma_has_read_joined(a, b, v, inp.files[v]@);
        },
        TaskModel::Link(_) => {},
    }
}

proof fn lemma_group_tasks_are_in(inp: Input, d: Seq<char>, some: Seq<Seq<char>>)
    requires
        forall|i: int|
            0 <= i < group_tasks(inp.listing, d, some).len() ==> is_read(
                inp,
                #[trigger] group_tasks(inp.listing, d, some)[i],
            ),
    ensures
        forall|i: int|
            0 <= i < group_tasks(inp.listing, d, some).len() ==> is_in(
                #[trigger] group_tasks(inp.listing, d, some)[i],
                inp,
                inp.group_parts(d, some),
            ),
    decreases some.len(),
{
    if some.len() > 0 {
        let front = group_tasks(inp.listing, d, some.drop_last());
        let all = group_tasks(inp.listing, d, some);
        assert forall|i: int| 0 <= i < front.len() implies is_read(inp, #[trigger] front[i]) by {
            assert(front[i] == all[i]);
        }
        lemma_group_tasks_are_in(inp, d, some.drop_last());
        let w = some.last();
        let a = inp.group_parts(d, some.drop_last());
        let b = inp.one_group(d, w);
        assert forall|i: int| 0 <= i < all.len() implies is_in(
            #[trigger] all[i],
            inp,
            inp.group_parts(d, some),
        ) by {
            lemma_is_in_joined(all[i], inp, a, b);
            if i < front.len() {
                assert(all[i] == front[i]);
            } else {
                assert(is_read(inp, all[i]));
                assert(all[i] == (TaskModel::Group { wal: w, db: db_path(d, w) }));
                assert(b[0].path == w && b[0].read == Some(inp.groups[w].wal@));
                assert(b[1].path == db_path(d, w) && b[1].read == Some(inp.groups[w].db@));
            }
        }
    }
}

proof fn lemma_plain_tasks_are_in(
    inp: Input,
    keys: Map<Seq<char>, Seq<char>>,
    d: Seq<char>,
    ks: Seq<Seq<char>>,
    some: Seq<Seq<char>>,
)
    requires
        forall|i: int|
            0 <= i < plain_tasks(inp.paths, inp.listing, d, ks, some).len() ==> is_read(
                inp,
                #[trigger] plain_tasks(inp.paths, inp.listing, d, ks, some)[i],
            ),
    ensures
        forall|i: int|
            0 <= i < plain_tasks(inp.paths, inp.listing, d, ks, some).len() ==> is_in(
                #[trigger] plain_tasks(inp.paths, inp.listing, d, ks, some)[i],
                inp,
                inp.plain_parts(keys, d, ks, some),
            ),
    decreases some.len(),
{
    if some.len() > 0 {
        let front = plain_tasks(inp.paths, inp.listing, d, ks, some.drop_last());
        let all = plain_tasks(inp.paths, inp.listing, d, ks, some);
        assert forall|i: int| 0 <= i < front.len() implies is_read(inp, #[trigger] front[i]) by {
            assert(front[i] == all[i]);
        }
        lemma_plain_tasks_are_in(inp, keys, d, ks, some.drop_last());
        let v = some.last();
        let a = inp.plain_parts(keys, d, ks, some.drop_last());
        let parts = inp.plain_parts(keys, d, ks, some);
        let b = parts.skip(a.len() as int);
        assert(parts =~= a + b);
        assert forall|i: int| 0 <= i < all.len() implies is_in(#[trigger] all[i], inp, parts) by {
            lemma_is_in_joined(all[i], inp, a, b);
            if i < front.len() {
                assert(all[i] == front[i]);
            } else {
                assert(is_read(inp, all[i]));
                if all[i] == TaskModel::File(v) {
                    assert(parts[a.len() as int].path == v && parts[a.len() as int].read == Some(
                        inp.files[v]@,
                    ));
                }
            }
        }
    }
}

proof fn lemma_tasks_are_in(inp: Input, keys: Map<Seq<char>, Seq<char>>, dirs: Seq<Seq<char>>)
    requires
        forall|i: int|
            0 <= i < tasks(inp.paths, inp.listing, dirs).len() ==> is_read(
                inp,
                #[trigger] tasks(inp.paths, inp.listing, dirs)[i],
            ),
    ensures
        forall|i: int|
            0 <= i < tasks(inp.paths, inp.listing, dirs).len() ==> is_in(
                #[trigger] tasks(inp.paths, inp.listing, dirs)[i],
                inp,
                all_parts(inp, keys, dirs),
            ),
    decreases dirs.len(),
{
    if dirs.len() > 0 {
        let d = dirs.last();
        let ks = kids(inp.paths, d);
        let all = tasks(inp.paths, inp.listing, dirs);
        let front = tasks(inp.paths, inp.listing, dirs.drop_last());
        let groups = group_tasks(inp.listing, d, ks);
        let plain = plain_tasks(inp.paths, inp.listing, d, ks, ks);
        assert forall|i: int| 0 <= i < front.len() implies is_read(inp, #[trigger] front[i]) by {
            assert(front[i] == all[i]);
        }
        assert forall|i: int| 0 <= i < groups.len() implies is_read(inp, #[trigger] groups[i]) by {
            assert(groups[i] == all[front.len() + i]);
        }
        assert forall|i: int| 0 <= i < plain.len() implies is_read(inp, #[trigger] plain[i]) by {
            assert(plain[i] == all[front.len() + groups.len() + i]);
        }
        lemma_tasks_are_in(inp, keys, dirs.drop_last());
        lemma_group_tasks_are_in(inp, d, ks);
        lemma_plain_tasks_are_in(inp, keys, d, ks, ks);
        let a = all_parts(inp, keys, dirs.drop_last());
        let g = inp.group_parts(d, ks);
        let p = inp.plain_parts(keys, d, ks, ks);
        assert forall|i: int| 0 <= i < all.len() implies is_in(
            #[trigger] all[i],
            inp,
            all_parts(inp, keys, dirs),
        ) by {
            lemma_is_in_joined(all[i], inp, a, g + p);
            lemma_is_in_joined(all[i], inp, g, p);
            if i < front.len() {
                assert(all[i] == front[i]);
            } else if i < front.len() + groups.len() {
                assert(all[i] == groups[i - front.len()]);
            } else {
                assert(all[i] == plain[i - front.len() - groups.len()]);
            }
        }
    }
}

proof fn lemma_read_of_is_read(parts: Seq<Part>, v: Seq<char>)
    ensures
        read_of(parts, v) is Some ==> has_read(parts, v, read_of(parts, v)->0),
        (exists|k: int|
            0 <= k < parts.len() && (#[trigger] parts[k]).path == v && parts[k].read is Some)
            ==> read_of(parts, v) is Some,
    decreases parts.len(),
{
    if parts.len() > 0 {
        let front = parts.drop_last();
        lemma_read_of_is_read(front, v);
        if read_of(front, v) is Some {
            let k = choose|k: int|
                0 <= k < front.len() && (#[trigger] front[k]).path == v && front[k].read == Some(
                    read_of(front, v)->0,
                );
            assert(parts[k] == front[k]);
        }
        if parts.last().path == v && parts.last().read is Some {
            assert(parts[parts.len() - 1].read == Some(parts.last().read->0));
        }
        if exists|k: int|
            0 <= k < parts.len() && (#[trigger] parts[k]).path == v && parts[k].read is Some {
            let k = choose|k: int|
                0 <= k < parts.len() && (#[trigger] parts[k]).path == v && parts[k].read is Some;
            if k < front.len() {
                assert(front[k] == parts[k]);
            }
        }
    }
}

/// What was read at rest is in the index, as it was read.
proof fn lemma_indexed_at_rest(
    l: Map<Seq<char>, Meta>,
    parts: Seq<Part>,
    files: Map<Seq<char>, IndexedFile>,
    stored: Set<Seq<u8>>,
    v: Seq<char>,
    read: ReadModel,
)
    requires
        at_rest(l, parts),
        index_is(files, parts),
        forall|id: Seq<u8>| #[trigger] reads_chunk(parts, id) ==> stored.contains(id),
        has_read(parts, v, read),
    ensures
        is_current(files, v, l[v].stat, stored),
        known_read(files, v) == read,
{
    let k = choose|k: int|
        0 <= k < parts.len() && (#[trigger] parts[k]).path == v && parts[k].read == Some(read);
    lemma_read_of_is_read(parts, v);
    let last = read_of(parts, v)->0;
    let j = choose|j: int|
        0 <= j < parts.len() && (#[trigger] parts[j]).path == v && parts[j].read == Some(last);
    assert(parts[k].read == parts[j].read);
    assert(files.dom().contains(v));
    let ids = order::views(files[v].chunks@);
    assert forall|i: int| 0 <= i < files[v].chunks@.len() implies stored.contains(
        #[trigger] files[v].chunks@[i]@,
    ) by {
        assert(ids[i] == files[v].chunks@[i]@);
        assert(read.chunks.contains(ids[i]));
        assert(reads_chunk(parts, ids[i]));
    }
}

/// Of a tree that was read whole and did not change since the index knows everything that the plan
/// asks for, as long as the sink holds the chunks.
proof fn lemma_an_unchanged_tree_is_known(
    inp: Input,
    keys: Map<Seq<char>, Seq<char>>,
    dirs: Seq<Seq<char>>,
    files: Map<Seq<char>, IndexedFile>,
    stored: Set<Seq<u8>>,
)
    requires
        forall|i: int|
            0 <= i < tasks(inp.paths, inp.listing, dirs).len() ==> is_read(
                inp,
                #[trigger] tasks(inp.paths, inp.listing, dirs)[i],
            ),
        at_rest(inp.listing, all_parts(inp, keys, dirs)),
        index_is(files, all_parts(inp, keys, dirs)),
        forall|id: Seq<u8>| #[trigger]
            reads_chunk(all_parts(inp, keys, dirs), id) ==> stored.contains(id),
    ensures
        forall|i: int|
            0 <= i < tasks(inp.paths, inp.listing, dirs).len() ==> is_known(
                #[trigger] tasks(inp.paths, inp.listing, dirs)[i],
                files,
                inp.listing,
                stored,
            ),
{
    let all = tasks(inp.paths, inp.listing, dirs);
    let parts = all_parts(inp, keys, dirs);
    lemma_tasks_are_in(inp, keys, dirs);
    assert forall|i: int| 0 <= i < all.len() implies is_known(
        #[trigger] all[i],
        files,
        inp.listing,
        stored,
    ) by {
        assert(is_in(all[i], inp, parts));
        match all[i] {
            TaskModel::Group { wal, db } => {
                let g = inp.groups[wal];
                lemma_indexed_at_rest(inp.listing, parts, files, stored, wal, g.wal@);
                lemma_indexed_at_rest(inp.listing, parts, files, stored, db, g.db@);
            },
            TaskModel::File(v) => {
                lemma_indexed_at_rest(inp.listing, parts, files, stored, v, inp.files[v]@);
            },
            TaskModel::Link(_) => {},
        }
    }
}

proof fn lemma_same_groups(inp: Input, again: Input, d: Seq<char>, some: Seq<Seq<char>>)
    requires
        inp.listing == again.listing,
        forall|i: int|
            0 <= i < group_tasks(inp.listing, d, some).len() ==> is_same_read(
                #[trigger] group_tasks(inp.listing, d, some)[i],
                inp,
                again,
            ),
    ensures
        inp.group_parts(d, some) == again.group_parts(d, some),
    decreases some.len(),
{
    if some.len() > 0 {
        let front = group_tasks(inp.listing, d, some.drop_last());
        let all = group_tasks(inp.listing, d, some);
        assert forall|i: int| 0 <= i < front.len() implies is_same_read(
            #[trigger] front[i],
            inp,
            again,
        ) by {
            assert(front[i] == all[i]);
        }
        lemma_same_groups(inp, again, d, some.drop_last());
        if is_group(inp.listing, d, some.last()) {
            assert(is_same_read(all[all.len() - 1], inp, again));
        }
    }
}

proof fn lemma_same_plain(
    inp: Input,
    again: Input,
    keys: Map<Seq<char>, Seq<char>>,
    d: Seq<char>,
    ks: Seq<Seq<char>>,
    some: Seq<Seq<char>>,
)
    requires
        inp.listing == again.listing,
        inp.paths == again.paths,
        forall|i: int|
            0 <= i < plain_tasks(inp.paths, inp.listing, d, ks, some).len() ==> is_same_read(
                #[trigger] plain_tasks(inp.paths, inp.listing, d, ks, some)[i],
                inp,
                again,
            ),
    ensures
        inp.plain_parts(keys, d, ks, some) == again.plain_parts(keys, d, ks, some),
    decreases some.len(),
{
    if some.len() > 0 {
        let front = plain_tasks(inp.paths, inp.listing, d, ks, some.drop_last());
        let all = plain_tasks(inp.paths, inp.listing, d, ks, some);
        assert forall|i: int| 0 <= i < front.len() implies is_same_read(
            #[trigger] front[i],
            inp,
            again,
        ) by {
            assert(front[i] == all[i]);
        }
        lemma_same_plain(inp, again, keys, d, ks, some.drop_last());
        if all.len() > front.len() {
            assert(is_same_read(all[all.len() - 1], inp, again));
        }
    }
}

/// The tasks of one directory among those of several.
proof fn lemma_same_dir(inp: Input, again: Input, dirs: Seq<Seq<char>>, d: Seq<char>)
    requires
        inp.listing == again.listing,
        inp.paths == again.paths,
        forall|i: int|
            0 <= i < tasks(inp.paths, inp.listing, dirs).len() ==> is_same_read(
                #[trigger] tasks(inp.paths, inp.listing, dirs)[i],
                inp,
                again,
            ),
        dirs.contains(d),
    ensures
        forall|keys: Map<Seq<char>, Seq<char>>| #[trigger]
            inp.parts(keys, d) == again.parts(keys, d),
    decreases dirs.len(),
{
    let all = tasks(inp.paths, inp.listing, dirs);
    let front = tasks(inp.paths, inp.listing, dirs.drop_last());
    let e = dirs.last();
    let ks = kids(inp.paths, e);
    let groups = group_tasks(inp.listing, e, ks);
    let plain = plain_tasks(inp.paths, inp.listing, e, ks, ks);
    if e == d {
        assert forall|i: int| 0 <= i < groups.len() implies is_same_read(
            #[trigger] groups[i],
            inp,
            again,
        ) by {
            assert(groups[i] == all[front.len() + i]);
        }
        assert forall|i: int| 0 <= i < plain.len() implies is_same_read(
            #[trigger] plain[i],
            inp,
            again,
        ) by {
            assert(plain[i] == all[front.len() + groups.len() + i]);
        }
        lemma_same_groups(inp, again, d, ks);
        assert forall|keys: Map<Seq<char>, Seq<char>>| #[trigger]
            inp.parts(keys, d) == again.parts(keys, d) by {
            lemma_same_plain(inp, again, keys, d, ks, ks);
        }
    } else {
        assert forall|i: int| 0 <= i < front.len() implies is_same_read(
            #[trigger] front[i],
            inp,
            again,
        ) by {
            assert(front[i] == all[i]);
        }
        let i = choose|i: int| 0 <= i < dirs.len() && dirs[i] == d;
        assert(dirs.drop_last()[i] == d);
        lemma_same_dir(inp, again, dirs.drop_last(), d);
    }
}

proof fn lemma_same_all(
    inp: Input,
    again: Input,
    keys: Map<Seq<char>, Seq<char>>,
    dirs: Seq<Seq<char>>,
    some: Seq<Seq<char>>,
)
    requires
        inp.listing == again.listing,
        inp.paths == again.paths,
        forall|i: int|
            0 <= i < tasks(inp.paths, inp.listing, dirs).len() ==> is_same_read(
                #[trigger] tasks(inp.paths, inp.listing, dirs)[i],
                inp,
                again,
            ),
        forall|i: int| 0 <= i < some.len() ==> dirs.contains(#[trigger] some[i]),
    ensures
        all_parts(inp, keys, some) == all_parts(again, keys, some),
    decreases some.len(),
{
    if some.len() > 0 {
        assert forall|i: int| 0 <= i < some.drop_last().len() implies dirs.contains(
            #[trigger] some.drop_last()[i],
        ) by {
            assert(some.drop_last()[i] == some[i]);
        }
        lemma_same_all(inp, again, keys, dirs, some.drop_last());
        assert(some[some.len() - 1] == some.last());
        lemma_same_dir(inp, again, dirs, some.last());
        assert(inp.parts(keys, some.last()) == again.parts(keys, some.last()));
    }
}

/// The keys of a tree are determined by what it is made of: the deepest directories first, each by
/// the keys of those in it.
proof fn lemma_keys_are_determined(
    listing: &Listing,
    reads: &Reads,
    again: &Reads,
    prefix: &KeyPrefix,
    a: BuiltTree,
    b: BuiltTree,
    dirs: Seq<Seq<char>>,
    ds: Seq<Seq<char>>,
    d: Seq<char>,
)
    requires
        listing.wf(),
        a.is_tree_of(input_of(listing, reads), prefix),
        b.is_tree_of(input_of(listing, again), prefix),
        forall|x: Seq<char>| ds.contains(x) <==> #[trigger] input_of(listing, reads).is_dir(x),
        forall|x: Seq<char>| #[trigger] ds.contains(x) ==> dirs.contains(x),
        forall|i: int|
            0 <= i < tasks(
                input_of(listing, reads).paths,
                listing.entries@,
                dirs,
            ).len() ==> is_same_read(
                #[trigger] tasks(input_of(listing, reads).paths, listing.entries@, dirs)[i],
                input_of(listing, reads),
                input_of(listing, again),
            ),
        input_of(listing, reads).is_dir(d),
    ensures
        key_texts(a.keys@)[d] == key_texts(b.keys@)[d],
        input_of(listing, reads).parts(key_texts(a.keys@), d) == input_of(listing, again).parts(
            key_texts(b.keys@),
            d,
        ),
    decreases max_depth(ds) - paths::depth(d),
{
    let (inp, inp2) = (input_of(listing, reads), input_of(listing, again));
    let (k1, k2) = (key_texts(a.keys@), key_texts(b.keys@));
    let ks = kids(inp.paths, d);
    lemma_max_depth(ds);
    lemma_kids(inp.paths, d);
    assert(ds.contains(d));
    assert forall|x: Seq<char>| #[trigger] inp2.is_dir(x) <==> inp.is_dir(x) by {
        lemma_same_dirs(inp, inp2, x);
    }
    assert(k1.dom().contains(d) && k2.dom().contains(d));
    assert forall|i: int|
        0 <= i < ks.len() && inp.listing[#[trigger] ks[i]].kind == FileKind::Dir implies (
    k1.dom().contains(ks[i]) <==> k2.dom().contains(ks[i])) && (k1.dom().contains(ks[i])
        ==> k1[ks[i]] == k2[ks[i]]) by {
        let v = ks[i];
        lemma_listed(listing, v);
        paths::lemma_depth_of_parent(v);
        assert(inp.is_dir(v));
        assert(ds.contains(v));
        lemma_keys_are_determined(listing, reads, again, prefix, a, b, dirs, ds, v);
    }
    lemma_plain_agree(inp, k1, k2, d, ks, ks);
    assert(inp.parts(k1, d) == inp.parts(k2, d));
    lemma_same_dir(inp, inp2, dirs, d);
    assert(inp.parts(k2, d) == inp2.parts(k2, d));
}

proof fn lemma_same_dirs(a: Input, b: Input, d: Seq<char>)
    requires
        a.listing == b.listing,
        a.paths == b.paths,
    ensures
        a.is_dir(d) <==> b.is_dir(d),
{
    if a.is_dir(d) && d.len() > 0 && !(a.listing.dom().contains(d) && a.listing[d].kind
        == FileKind::Dir) {
        let i = choose|i: int| 0 <= i < a.paths.len() && paths::parent(#[trigger] a.paths[i]) == d;
        assert(paths::parent(b.paths[i]) == d);
    }
    if b.is_dir(d) && d.len() > 0 && !(b.listing.dom().contains(d) && b.listing[d].kind
        == FileKind::Dir) {
        let i = choose|i: int| 0 <= i < b.paths.len() && paths::parent(#[trigger] b.paths[i]) == d;
        assert(paths::parent(a.paths[i]) == d);
    }
}

/// Of a tree that was read whole and did not change since, a second build from what the index knows
/// gives the same root, the same dir objects and the same chunks, and leaves the index as it was.
proof fn lemma_an_unchanged_tree_is_built_the_same(
    listing: &Listing,
    reads: &Reads,
    again: &Reads,
    prefix: &KeyPrefix,
    a: BuiltTree,
    b: BuiltTree,
    files: Map<Seq<char>, IndexedFile>,
    files_again: Map<Seq<char>, IndexedFile>,
)
    requires
        listing.wf(),
        a.is_tree_of(input_of(listing, reads), prefix),
        b.is_tree_of(input_of(listing, again), prefix),
        order::views(a.order@) == deepest_first(
            order::views(a.keys.keys@),
            max_depth(order::views(a.keys.keys@)),
        ),
        order::views(b.order@) == deepest_first(
            order::views(b.keys.keys@),
            max_depth(order::views(b.keys.keys@)),
        ),
        index_is(
            files,
            all_parts(input_of(listing, reads), key_texts(a.keys@), order::views(a.order@)),
        ),
        index_is(
            files_again,
            all_parts(input_of(listing, again), key_texts(b.keys@), order::views(b.order@)),
        ),
        at_rest(
            listing.entries@,
            all_parts(input_of(listing, reads), key_texts(a.keys@), order::views(a.order@)),
        ),
        forall|i: int|
            0 <= i < tasks(
                order::views(listing.entries.keys@),
                listing.entries@,
                order::views(a.order@),
            ).len() ==> {
                let t = #[trigger] tasks(
                    order::views(listing.entries.keys@),
                    listing.entries@,
                    order::views(a.order@),
                )[i];
                &&& is_read(input_of(listing, reads), t)
                &&& is_reused(t, files, input_of(listing, reads), input_of(listing, again))
            },
    ensures
        order::views(b.order@) == order::views(a.order@),
        b.parts(input_of(listing, again)) == a.parts(input_of(listing, reads)),
        b.root.bytes@ == a.root.bytes@,
        b.root.sha256@ == a.root.sha256@,
        key_texts(b.keys@) == key_texts(a.keys@),
        b.dirs@.dom() == a.dirs@.dom(),
        forall|n: Seq<char>| #[trigger]
            a.dirs@.dom().contains(n) ==> b.dirs@[n].bytes@ == a.dirs@[n].bytes@,
        forall|id: Seq<u8>| #[trigger] b.chunks.has(id) <==> a.chunks.has(id),
        files_again.dom() == files.dom(),
        forall|v: Seq<char>| #[trigger]
            files.dom().contains(v) ==> files_again[v].stat == files[v].stat && order::views(
                files_again[v].chunks@,
            ) == order::views(files[v].chunks@),
{
    let (inp, inp2) = (input_of(listing, reads), input_of(listing, again));
    let (k1, k2) = (key_texts(a.keys@), key_texts(b.keys@));
    let dirs = order::views(a.order@);
    let ds = order::views(a.keys.keys@);
    let all = tasks(inp.paths, inp.listing, dirs);
    let parts = all_parts(inp, k1, dirs);
    assert forall|i: int| 0 <= i < all.len() implies is_read(inp, #[trigger] all[i]) by {}
    lemma_tasks_are_in(inp, k1, dirs);
    let stored = Set::new(|id: Seq<u8>| true);
    assert forall|i: int| 0 <= i < all.len() implies is_same_read(
        #[trigger] all[i],
        inp,
        inp2,
    ) by {
        assert(is_in(all[i], inp, parts));
        assert(is_reused(all[i], files, inp, inp2));
        assert(is_read(inp, all[i]));
        match all[i] {
            TaskModel::Group { wal, db } => {
                let g = inp.groups[wal];
                lemma_indexed_at_rest(inp.listing, parts, files, stored, wal, g.wal@);
                lemma_indexed_at_rest(inp.listing, parts, files, stored, db, g.db@);
            },
            TaskModel::File(v) => {
                lemma_indexed_at_rest(inp.listing, parts, files, stored, v, inp.files[v]@);
            },
            TaskModel::Link(_) => {},
        }
    }
    lemma_keys_listed(a.keys);
    lemma_keys_listed(b.keys);
    assert forall|x: Seq<char>| ds.contains(x) <==> #[trigger] inp.is_dir(x) by {
        assert(k1.dom().contains(x) <==> inp.is_dir(x));
    }
    assert forall|x: Seq<char>| #[trigger] inp2.is_dir(x) <==> inp.is_dir(x) by {
        lemma_same_dirs(inp, inp2, x);
    }
    lemma_max_depth(ds);
    lemma_deepest_first(ds, max_depth(ds));
    assert forall|x: Seq<char>| #[trigger] ds.contains(x) implies dirs.contains(x) by {}
    assert forall|x: Seq<char>| #[trigger] k1.dom().contains(x) implies k1[x] == k2[x]
        && inp.parts(k1, x) == inp2.parts(k2, x) by {
        assert(inp.is_dir(x));
        lemma_keys_are_determined(listing, reads, again, prefix, a, b, dirs, ds, x);
    }
    assert forall|x: Seq<char>| #[trigger] k2.dom().contains(x) <==> k1.dom().contains(x) by {
        assert(inp2.is_dir(x) <==> inp.is_dir(x));
    }
    assert(k2 =~= k1);
    assert forall|x: Seq<char>| #[trigger] order::holds(a.keys.keys@, x) <==> order::holds(
        b.keys.keys@,
        x,
    ) by {
        assert(k1.dom().contains(x) <==> k2.dom().contains(x));
    }
    lemma_same_ascending(a.keys.keys@, b.keys.keys@);
    assert(order::views(b.order@) == dirs);
    assert forall|i: int| 0 <= i < dirs.len() implies dirs.contains(#[trigger] dirs[i]) by {}
    lemma_same_all(inp, inp2, k1, dirs, dirs);
    assert(all_parts(inp2, k2, dirs) == parts);
    assert(inp.is_dir(Seq::empty()));
    assert(k1.dom().contains(Seq::empty()));
    assert forall|x: Seq<char>| #[trigger] dirs.contains(x) implies inp.dir_bytes(k1, x)
        == inp2.dir_bytes(k2, x) by {
        let i = choose|i: int| 0 <= i < dirs.len() && dirs[i] == x;
        assert(ds.contains(dirs[i]));
        assert(inp.is_dir(x));
        assert(k1.dom().contains(x));
    }
    assert forall|n: Seq<char>| a.dirs@.dom().contains(n) <==> #[trigger] b.dirs@.dom().contains(
        n,
    ) by {
        if a.dirs@.dom().contains(n) {
            let d = choose|d: Seq<char>| #[trigger]
                k1.dom().contains(d) && a.dirs@[n].bytes@ == inp.dir_bytes(k1, d);
            assert(a.dirs@[n].wf());
            assert(k2.dom().contains(d));
            assert(inp.dir_bytes(k1, d) == inp2.dir_bytes(k2, d));
        }
        if b.dirs@.dom().contains(n) {
            let d = choose|d: Seq<char>| #[trigger]
                k2.dom().contains(d) && b.dirs@[n].bytes@ == inp2.dir_bytes(k2, d);
            assert(b.dirs@[n].wf());
            assert(k1.dom().contains(d));
            assert(inp.dir_bytes(k1, d) == inp2.dir_bytes(k2, d));
        }
    }
    assert(b.dirs@.dom() =~= a.dirs@.dom());
    assert forall|n: Seq<char>| #[trigger] a.dirs@.dom().contains(n) implies b.dirs@[n].bytes@
        == a.dirs@[n].bytes@ by {
        assert(b.dirs@.dom().contains(n));
        lemma_last_named_agree(inp, k1, inp2, k2, dirs, n);
    }
    assert(files_again.dom() =~= files.dom()) by {
        assert forall|v: Seq<char>| files_again.dom().contains(v) <==> #[trigger] files.dom().contains(
            v,
        ) by {}
    }
    assert forall|v: Seq<char>| #[trigger] files.dom().contains(v) implies files_again[v].stat
        == files[v].stat && order::views(files_again[v].chunks@) == order::views(
        files[v].chunks@,
    ) by {
        assert(files_again.dom().contains(v));
    }
}

proof fn lemma_keys_listed(keys: SortedMap<String, String>)
    requires
        keys.wf(),
    ensures
        forall|d: Seq<char>| #[trigger]
            key_texts(keys@).dom().contains(d) <==> order::views(keys.keys@).contains(d),
        forall|d: Seq<char>| #[trigger]
            key_texts(keys@).dom().contains(d) <==> order::holds(keys.keys@, d),
{
    assert forall|d: Seq<char>| #[trigger] order::holds(keys.keys@, d) <==> order::views(
        keys.keys@,
    ).contains(d) by {
        let vs = order::views(keys.keys@);
        if vs.contains(d) {
            let i = choose|i: int| 0 <= i < vs.len() && vs[i] == d;
            assert(keys.keys@[i]@ == d);
        }
        if order::holds(keys.keys@, d) {
            let i = choose|i: int| 0 <= i < keys.keys@.len() && #[trigger] keys.keys@[i]@ == d;
            assert(vs[i] == d);
        }
    }
    assert forall|d: Seq<char>| #[trigger] key_texts(keys@).dom().contains(d) <==> order::views(
        keys.keys@,
    ).contains(d) by {
        assert(order::holds(keys.keys@, d) <==> order::views(keys.keys@).contains(d));
    }
}

/// The reading of a plan in the middle: what is read so far, and the chunks that the sink holds.
pub struct Pass {
    /// What is read so far.
    pub reads: Reads,
    /// The chunks that the sink holds.
    pub stored: Set<Seq<u8>>,
}

/// Whether a task that the index knows took the reading from `before` to `after`: what the index
/// knows is taken over as [`Reads::reuse_file`] and [`Reads::finish_group`] do, a symlink's text is
/// read as `inp` has it, and neither the counters nor the sink change.
pub open spec fn is_taken_over(
    t: TaskModel,
    files: Map<Seq<char>, IndexedFile>,
    inp: Input,
    before: Pass,
    after: Pass,
) -> bool {
    &&& after.stored == before.stored
    &&& after.reads.counts == before.reads.counts
    &&& match t {
        TaskModel::File(v) => {
            &&& after.reads.groups == before.reads.groups
            &&& after.reads.links == before.reads.links
            &&& after.reads.files@.dom() == before.reads.files@.dom().insert(v)
            &&& after.reads.files@[v]@ == known_read(files, v)
            &&& forall|w: Seq<char>| #[trigger]
                before.reads.files@.dom().contains(w) && w != v ==> after.reads.files@[w]
                    == before.reads.files@[w]
        },
        TaskModel::Group { wal, db } => {
            &&& after.reads.files == before.reads.files
            &&& after.reads.links == before.reads.links
            &&& exists|g: GroupRead|
                after.reads.groups@ == #[trigger] before.reads.groups@.insert(wal, g) && g.wal@
                    == known_read(files, wal) && g.db@ == known_read(files, db)
        },
        TaskModel::Link(v) => {
            &&& after.reads.files == before.reads.files
            &&& after.reads.groups == before.reads.groups
            &&& exists|to: String|
                after.reads.links@ == #[trigger] before.reads.links@.insert(v, to) && to@
                    == inp.links[v]@
        },
    }
}

/// Whether the plan was worked through with the index at hand, task by task from the beginning: each
/// task that the index knows is taken over. Of the others, which are read, nothing is said.
pub open spec fn is_run(
    run: Seq<Pass>,
    plan: Seq<TaskModel>,
    files: Map<Seq<char>, IndexedFile>,
    inp: Input,
) -> bool {
    &&& run.len() == plan.len() + 1
    &&& run[0].reads.files@ == Map::<Seq<char>, FileRead>::empty()
    &&& run[0].reads.groups@ == Map::<Seq<char>, GroupRead>::empty()
    &&& run[0].reads.links@ == Map::<Seq<char>, String>::empty()
    &&& run[0].reads.counts == (ReadCounts { files_read: 0, bytes_read: 0, chunks_new: 0 })
    &&& forall|i: int|
        0 <= i < plan.len() && is_known(
            #[trigger] plan[i],
            files,
            inp.listing,
            run[i].stored,
        ) ==> is_taken_over(plan[i], files, inp, run[i], run[i + 1])
}

/// The database of a group on the plan is the one that goes with its `-wal`.
spec fn is_paired(t: TaskModel) -> bool {
    t matches TaskModel::Group { wal, db } ==> db == db_path(paths::parent(wal), wal)
}

proof fn lemma_kids_are_in(ps: Seq<Seq<char>>, d: Seq<char>)
    ensures
        forall|i: int| 0 <= i < kids(ps, d).len() ==> paths::parent(#[trigger] kids(ps, d)[i]) == d,
    decreases ps.len(),
{
    if ps.len() > 0 {
        lemma_kids_are_in(ps.drop_last(), d);
        let front = kids(ps.drop_last(), d);
        assert forall|i: int| 0 <= i < kids(ps, d).len() implies paths::parent(
            #[trigger] kids(ps, d)[i],
        ) == d by {
            assert(i < front.len() ==> kids(ps, d)[i] == front[i]);
        }
    }
}

proof fn lemma_group_tasks_are_paired(l: Map<Seq<char>, Meta>, d: Seq<char>, some: Seq<Seq<char>>)
    requires
        forall|i: int| 0 <= i < some.len() ==> paths::parent(#[trigger] some[i]) == d,
    ensures
        forall|i: int|
            0 <= i < group_tasks(l, d, some).len() ==> is_paired(
                #[trigger] group_tasks(l, d, some)[i],
            ),
    decreases some.len(),
{
    if some.len() > 0 {
        lemma_group_tasks_are_paired(l, d, some.drop_last());
        let (all, front) = (group_tasks(l, d, some), group_tasks(l, d, some.drop_last()));
        assert forall|i: int| 0 <= i < all.len() implies is_paired(#[trigger] all[i]) by {
            assert(paths::parent(some[some.len() - 1]) == d);
            assert(i < front.len() ==> all[i] == front[i]);
        }
    }
}

proof fn lemma_plain_tasks_are_paired(
    ps: Seq<Seq<char>>,
    l: Map<Seq<char>, Meta>,
    d: Seq<char>,
    ks: Seq<Seq<char>>,
    some: Seq<Seq<char>>,
)
    ensures
        forall|i: int|
            0 <= i < plain_tasks(ps, l, d, ks, some).len() ==> is_paired(
                #[trigger] plain_tasks(ps, l, d, ks, some)[i],
            ),
    decreases some.len(),
{
    if some.len() > 0 {
        lemma_plain_tasks_are_paired(ps, l, d, ks, some.drop_last());
        let all = plain_tasks(ps, l, d, ks, some);
        let front = plain_tasks(ps, l, d, ks, some.drop_last());
        assert forall|i: int| 0 <= i < all.len() implies is_paired(#[trigger] all[i]) by {
            assert(i < front.len() ==> all[i] == front[i]);
        }
    }
}

proof fn lemma_tasks_are_paired(ps: Seq<Seq<char>>, l: Map<Seq<char>, Meta>, dirs: Seq<Seq<char>>)
    ensures
        forall|i: int|
            0 <= i < tasks(ps, l, dirs).len() ==> is_paired(#[trigger] tasks(ps, l, dirs)[i]),
    decreases dirs.len(),
{
    if dirs.len() > 0 {
        let d = dirs.last();
        let ks = kids(ps, d);
        lemma_tasks_are_paired(ps, l, dirs.drop_last());
        lemma_kids_are_in(ps, d);
        lemma_group_tasks_are_paired(l, d, ks);
        lemma_plain_tasks_are_paired(ps, l, d, ks, ks);
        let all = tasks(ps, l, dirs);
        let front = tasks(ps, l, dirs.drop_last());
        let groups = group_tasks(l, d, ks);
        let plain = plain_tasks(ps, l, d, ks, ks);
        assert forall|i: int| 0 <= i < all.len() implies is_paired(#[trigger] all[i]) by {
            if i < front.len() {
                assert(all[i] == front[i]);
            } else if i < front.len() + groups.len() {
                assert(all[i] == groups[i - front.len()]);
            } else {
                assert(all[i] == plain[i - front.len() - groups.len()]);
            }
        }
    }
}

/// Two sorted lists of the same texts are the same list.
proof fn lemma_same_sorted(a: Seq<Seq<char>>, b: Seq<Seq<char>>)
    requires
        are_sorted(a),
        are_sorted(b),
        forall|x: Seq<char>| #[trigger] a.contains(x) <==> b.contains(x),
    ensures
        a == b,
    decreases a.len(),
{
    if a.len() == 0 {
        if b.len() > 0 {
            assert(b.contains(b[0]));
            assert(a.contains(b[0]));
        }
        assert(a =~= b);
    } else {
        assert(a.contains(a[0]));
        assert(b.contains(a[0]));
        let (x, y) = (a.last(), b.last());
        assert(a.contains(x) && b.contains(y));
        assert(b.contains(x) && a.contains(y));
        let i = choose|i: int| 0 <= i < b.len() && b[i] == x;
        let j = choose|j: int| 0 <= j < a.len() && a[j] == y;
        if i < b.len() - 1 {
            assert(text::text_less(b[i], b[b.len() - 1]));
            if j < a.len() - 1 {
                assert(text::text_less(a[j], a[a.len() - 1]));
                order::lemma_rank_asymmetric(text::text_rank(x), text::text_rank(y));
            }
        }
        assert(x == y);
        let (a1, b1) = (a.drop_last(), b.drop_last());
        assert forall|k: Seq<char>| #[trigger] a1.contains(k) <==> b1.contains(k) by {
            lemma_without_last(a, k);
            lemma_without_last(b, k);
        }
        lemma_same_sorted(a1, b1);
        assert(a =~= a1.push(x));
        assert(b =~= b1.push(y));
    }
}

proof fn lemma_without_last(a: Seq<Seq<char>>, k: Seq<char>)
    requires
        are_sorted(a),
        a.len() > 0,
    ensures
        a.drop_last().contains(k) <==> a.contains(k) && k != a.last(),
{
    let front = a.drop_last();
    if front.contains(k) {
        let i = choose|i: int| 0 <= i < front.len() && front[i] == k;
        assert(a[i] == k);
        assert(text::text_less(a[i], a[a.len() - 1]));
        order::lemma_rank_irreflexive(text::text_rank(k));
    }
    if a.contains(k) && k != a.last() {
        let i = choose|i: int| 0 <= i < a.len() && a[i] == k;
        assert(front[i] == k);
    }
}

/// A plan that the index knows is worked through without a change of the counters or the sink, and
/// leaves every task with what the index knows.
proof fn lemma_known_run(
    listing: &Listing,
    inp: Input,
    run: Seq<Pass>,
    plan: Seq<TaskModel>,
    files: Map<Seq<char>, IndexedFile>,
    n: int,
)
    requires
        is_run(run, plan, files, inp),
        inp.listing == listing.entries@,
        0 <= n <= plan.len(),
        forall|i: int| 0 <= i < plan.len() ==> is_paired(#[trigger] plan[i]),
        forall|i: int|
            0 <= i < plan.len() ==> is_known(
                #[trigger] plan[i],
                files,
                inp.listing,
                run[0].stored,
            ),
    ensures
        run[n].reads.counts == run[0].reads.counts,
        run[n].stored == run[0].stored,
        forall|i: int|
            0 <= i < n ==> is_reused(
                #[trigger] plan[i],
                files,
                inp,
                input_of(listing, &run[n].reads),
            ),
    decreases n,
{
    if n > 0 {
        lemma_known_run(listing, inp, run, plan, files, n - 1);
        let (before, after) = (run[n - 1], run[n]);
        let t = plan[n - 1];
        assert(is_known(t, files, inp.listing, before.stored));
        assert(is_taken_over(t, files, inp, before, run[n - 1 + 1]));
        assert(is_paired(t));
        assert forall|i: int| 0 <= i < n implies is_reused(
            #[trigger] plan[i],
            files,
            inp,
            input_of(listing, &after.reads),
        ) by {
            assert(is_paired(plan[i]));
            if i < n - 1 {
                assert(is_reused(plan[i], files, inp, input_of(listing, &before.reads)));
            }
        }
    }
}

/// The plan asks for what the directories of the tree need.
proof fn lemma_plan_of_tree(
    listing: &Listing,
    reads: &Reads,
    prefix: &KeyPrefix,
    a: BuiltTree,
    plan: Seq<TaskModel>,
)
    requires
        a.is_tree_of(input_of(listing, reads), prefix),
        order::views(a.order@) == deepest_first(
            order::views(a.keys.keys@),
            max_depth(order::views(a.keys.keys@)),
        ),
        is_plan(listing, plan),
    ensures
        plan == tasks(
            order::views(listing.entries.keys@),
            listing.entries@,
            order::views(a.order@),
        ),
{
    let inp = input_of(listing, reads);
    let mine = order::views(a.keys.keys@);
    let ds = choose|ds: Seq<Seq<char>>|
        #![trigger max_depth(ds)]
        (forall|d: Seq<char>| ds.contains(d) <==> #[trigger] dirs_input(listing).is_dir(d))
            && are_sorted(ds) && plan == tasks(
            order::views(listing.entries.keys@),
            listing.entries@,
            deepest_first(ds, max_depth(ds)),
        );
    lemma_keys_listed(a.keys);
    assert forall|d: Seq<char>| #[trigger] ds.contains(d) <==> mine.contains(d) by {
        lemma_same_dirs(inp, dirs_input(listing), d);
        assert(dirs_input(listing).is_dir(d) <==> ds.contains(d));
        assert(key_texts(a.keys@).dom().contains(d) <==> inp.is_dir(d));
        assert(key_texts(a.keys@).dom().contains(d) <==> mine.contains(d));
    }
    assert(are_sorted(mine)) by {
        assert forall|i: int, j: int| 0 <= i < j < mine.len() implies text::text_less(
            #[trigger] mine[i],
            #[trigger] mine[j],
        ) by {
            assert(mine[i] == a.keys.keys@[i]@ && mine[j] == a.keys.keys@[j]@);
        }
    }
    lemma_same_sorted(ds, mine);
}

/// A second build of an unchanged tree does nothing: after a build for which no file was torn and
/// none had vanished, of a tree in which no file changed since, and with a sink that still holds the
/// tree's chunks, a second build with the index that the first one left reads no file and no byte
/// and stores no chunk, gives the same root, the same keys, the same dir objects and the same
/// chunks, and leaves the index as it was.
pub proof fn law_a_second_build_reads_nothing(
    listing: &Listing,
    plan: Seq<TaskModel>,
    reads: &Reads,
    run: Seq<Pass>,
    prefix: &KeyPrefix,
    a: BuiltTree,
    b: BuiltTree,
    files: Map<Seq<char>, IndexedFile>,
    files_again: Map<Seq<char>, IndexedFile>,
)
    requires
        listing.wf(),
        is_plan(listing, plan),
        a.is_build_of(listing, reads, prefix, files),
        a.stats.torn == 0,
        a.stats.vanished == 0,
        is_as_listed(listing.entries@, a.parts(input_of(listing, reads))),
        is_run(run, plan, files, input_of(listing, reads)),
        forall|id: Seq<u8>| #[trigger] a.chunks.has(id) ==> run[0].stored.contains(id),
        b.is_build_of(listing, &run.last().reads, prefix, files_again),
    ensures
        b.stats.files_read == 0,
        b.stats.bytes_read == 0,
        b.stats.chunks_new == 0,
        b.stats.vanished == 0,
        b.stats.torn == 0,
        b.stats.files == a.stats.files,
        run.last().stored == run[0].stored,
        b.root.bytes@ == a.root.bytes@,
        b.root.sha256@ == a.root.sha256@,
        key_texts(b.keys@) == key_texts(a.keys@),
        b.dirs@.dom() == a.dirs@.dom(),
        forall|n: Seq<char>| #[trigger]
            a.dirs@.dom().contains(n) ==> b.dirs@[n].bytes@ == a.dirs@[n].bytes@,
        forall|id: Seq<u8>| #[trigger] b.chunks.has(id) <==> a.chunks.has(id),
        files_again.dom() == files.dom(),
        forall|v: Seq<char>| #[trigger]
            files.dom().contains(v) ==> files_again[v].stat == files[v].stat && order::views(
                files_again[v].chunks@,
            ) == order::views(files[v].chunks@),
{
    let inp = input_of(listing, reads);
    let again = run.last().reads;
    let inp2 = input_of(listing, &again);
    let dirs = order::views(a.order@);
    lemma_plan_of_tree(listing, reads, prefix, a, plan);
    law_a_fully_read_plan_has_no_vanished_files(inp, dirs);
    lemma_none_torn(a.parts(inp));
    assert(at_rest(listing.entries@, a.parts(inp)));
    lemma_same_total(inp, inp2, dirs);
    lemma_tasks_are_paired(inp.paths, inp.listing, dirs);
    assert forall|id: Seq<u8>| #[trigger] reads_chunk(
        all_parts(inp, key_texts(a.keys@), dirs),
        id,
    ) implies run[0].stored.contains(id) by {
        assert(a.chunks.has(id));
    }
    lemma_an_unchanged_tree_is_known(inp, key_texts(a.keys@), dirs, files, run[0].stored);
    lemma_known_run(listing, inp, run, plan, files, plan.len() as int);
    assert(run.last() == run[plan.len() as int]);
    assert forall|i: int| 0 <= i < plan.len() implies is_read(inp2, #[trigger] plan[i]) by {
        assert(is_reused(plan[i], files, inp, inp2));
    }
    lemma_an_unchanged_tree_is_built_the_same(
        listing,
        reads,
        &again,
        prefix,
        a,
        b,
        files,
        files_again,
    );
    law_a_fully_read_plan_has_no_vanished_files(inp2, dirs);
}

/// Whether the built tree has a directory under its key, with an entry.
pub open spec fn holds_entry(
    built: BuiltTree,
    prefix: KeyPrefix,
    d: Seq<char>,
    e: EntryModel,
) -> bool {
    exists|es: Seq<EntryModel>|
        {
            let name = chunk::content_name(#[trigger] DirObject::bytes_of(es));
            &&& es.contains(e)
            &&& built.keys@.dom().contains(d)
            &&& built.keys@[d]@ == "captures/"@ + prefix.worktree_id@ + "/"@ + text::decimal(
                prefix.epoch as nat,
            ) + "/trees/"@ + name
            &&& built.dirs@.dom().contains(name)
        }
}

proof fn lemma_kid(ps: Seq<Seq<char>>, v: Seq<char>)
    requires
        ps.contains(v),
    ensures
        kids(ps, paths::parent(v)).contains(v),
    decreases ps.len(),
{
    let d = paths::parent(v);
    let (all, front) = (kids(ps, d), kids(ps.drop_last(), d));
    if ps.last() == v {
        assert(all[front.len() as int] == v);
    } else {
        let i = choose|i: int| 0 <= i < ps.len() && ps[i] == v;
        assert(ps.drop_last()[i] == v);
        lemma_kid(ps.drop_last(), v);
        let k = choose|k: int| 0 <= k < front.len() && front[k] == v;
        assert(all[k] == v);
    }
}

proof fn lemma_plain_part(
    inp: Input,
    keys: Map<Seq<char>, Seq<char>>,
    d: Seq<char>,
    ks: Seq<Seq<char>>,
    some: Seq<Seq<char>>,
    v: Seq<char>,
)
    requires
        some.contains(v),
        !in_group(inp.listing, d, ks, v),
        inp.one_plain(keys, v) is Some,
    ensures
        inp.plain_parts(keys, d, ks, some).contains(inp.one_plain(keys, v)->0),
    decreases some.len(),
{
    let p = inp.one_plain(keys, v)->0;
    let all = inp.plain_parts(keys, d, ks, some);
    let front = inp.plain_parts(keys, d, ks, some.drop_last());
    if some.last() == v {
        assert(all[front.len() as int] == p);
    } else {
        let i = choose|i: int| 0 <= i < some.len() && some[i] == v;
        assert(some.drop_last()[i] == v);
        lemma_plain_part(inp, keys, d, ks, some.drop_last(), v);
        let k = choose|k: int| 0 <= k < front.len() && front[k] == p;
        assert(all[k] == p);
    }
}

proof fn lemma_group_part(inp: Input, d: Seq<char>, some: Seq<Seq<char>>, w: Seq<char>, p: Part)
    requires
        some.contains(w),
        inp.one_group(d, w).contains(p),
    ensures
        inp.group_parts(d, some).contains(p),
    decreases some.len(),
{
    let all = inp.group_parts(d, some);
    let front = inp.group_parts(d, some.drop_last());
    if some.last() == w {
        let k = choose|k: int| 0 <= k < inp.one_group(d, w).len() && inp.one_group(d, w)[k] == p;
        assert(all[front.len() + k] == p);
    } else {
        let i = choose|i: int| 0 <= i < some.len() && some[i] == w;
        assert(some.drop_last()[i] == w);
        lemma_group_part(inp, d, some.drop_last(), w, p);
        let k = choose|k: int| 0 <= k < front.len() && front[k] == p;
        assert(all[k] == p);
    }
}

proof fn lemma_part_is_held(
    inp: Input,
    prefix: KeyPrefix,
    built: BuiltTree,
    d: Seq<char>,
    p: Part,
)
    requires
        built.is_tree_of(inp, &prefix),
        inp.is_dir(d),
        inp.parts(key_texts(built.keys@), d).contains(p),
    ensures
        holds_entry(built, prefix, d, p.entry),
{
    let keys = key_texts(built.keys@);
    let parts = inp.parts(keys, d);
    let es = entries_of(parts);
    let k = choose|k: int| 0 <= k < parts.len() && parts[k] == p;
    assert(es[k] == p.entry);
    assert(keys.dom().contains(d));
    assert(keys[d] == built.keys@[d]@);
    assert(DirObject::bytes_of(es) == inp.dir_bytes(keys, d));
}

proof fn lemma_listed_kid(listing: Listing, v: Seq<char>)
    requires
        listing.wf(),
        listing.entries@.dom().contains(v),
    ensures
        order::views(listing.entries.keys@).contains(v),
        kids(order::views(listing.entries.keys@), paths::parent(v)).contains(v),
{
    let ps = order::views(listing.entries.keys@);
    let i = order::spot(listing.entries.keys@, v);
    assert(listing.entries.keys@[i]@ == v);
    assert(ps[i] == v);
    lemma_kid(ps, v);
}

/// Everything that was listed and read is in the tree, in the directory that it lies in, as it was
/// listed and read: a file with its mode, size, time and chunks, and marked where it was torn, a
/// symlink with its text, a directory under its own key, and a further name of a file as a link to
/// the first. Groups aside, see [`law_groups_are_in_the_tree_together`].
pub proof fn law_everything_read_is_in_the_tree(
    builder: TreeBuilder,
    index: &mut TreeIndex,
    listing: Listing,
    reads: Reads,
    built: BuiltTree,
    v: Seq<char>,
)
    requires
        listing.wf(),
        reads.wf(),
        call_ensures(TreeBuilder::build, (&builder, index, &listing, &reads), built),
        listing.entries@.dom().contains(v),
        !in_group(
            listing.entries@,
            paths::parent(v),
            kids(order::views(listing.entries.keys@), paths::parent(v)),
            v,
        ),
    ensures
        ({
            let m = listing.entries@[v];
            let d = paths::parent(v);
            let first = link_target(order::views(listing.entries.keys@), listing.entries@, v);
            &&& m.kind == FileKind::File && first is None && reads.files@.dom().contains(v)
                ==> holds_entry(
                built,
                builder.prefix,
                d,
                EntryModel {
                    name: paths::name(v),
                    kind: EntryKind::File,
                    mode: (m.mode & 0o7777) as nat,
                    size: reads.files@[v].stat.size as nat,
                    mtime: reads.files@[v].stat.mtime as int,
                    chunks: Some(order::views(reads.files@[v].chunks@)),
                    target: None,
                    child: None,
                    group: None,
                    torn: if reads.files@[v].torn {
                        Some(true)
                    } else {
                        None
                    },
                },
            )
            &&& m.kind == FileKind::Symlink && reads.links@.dom().contains(v) ==> holds_entry(
                built,
                builder.prefix,
                d,
                EntryModel {
                    name: paths::name(v),
                    kind: EntryKind::Symlink,
                    mode: (m.mode & 0o7777) as nat,
                    size: 0,
                    mtime: m.stat.mtime as int,
                    chunks: None,
                    target: Some(reads.links@[v]@),
                    child: None,
                    group: None,
                    torn: None,
                },
            )
            &&& m.kind == FileKind::Dir ==> built.keys@.dom().contains(v) && holds_entry(
                built,
                builder.prefix,
                d,
                EntryModel {
                    name: paths::name(v),
                    kind: EntryKind::Dir,
                    mode: (m.mode & 0o7777) as nat,
                    size: 0,
                    mtime: m.stat.mtime as int,
                    chunks: None,
                    target: None,
                    child: Some(built.keys@[v]@),
                    group: None,
                    torn: None,
                },
            )
            &&& m.kind == FileKind::File && first is Some ==> holds_entry(
                built,
                builder.prefix,
                d,
                EntryModel {
                    name: paths::name(v),
                    kind: EntryKind::HardlinkGroup,
                    mode: (m.mode & 0o7777) as nat,
                    size: m.stat.size as nat,
                    mtime: m.stat.mtime as int,
                    chunks: None,
                    target: Some(first->0),
                    child: None,
                    group: None,
                    torn: None,
                },
            )
        }),
{
    let inp = input_of(&listing, &reads);
    let d = paths::parent(v);
    let ks = kids(inp.paths, d);
    let keys = key_texts(built.keys@);
    lemma_listed_kid(listing, v);
    let i = order::spot(listing.entries.keys@, v);
    assert(inp.paths[i] == v);
    assert(inp.is_dir(d));
    let m = listing.entries@[v];
    if m.kind == FileKind::Dir {
        assert(inp.is_dir(v));
        assert(keys.dom().contains(v));
        assert(keys[v] == built.keys@[v]@);
    }
    if inp.one_plain(keys, v) is Some {
        let p = inp.one_plain(keys, v)->0;
        lemma_plain_part(inp, keys, d, ks, ks, v);
        let plain = inp.plain_parts(keys, d, ks, ks);
        let k = choose|k: int| 0 <= k < plain.len() && plain[k] == p;
        assert(inp.parts(keys, d)[inp.group_parts(d, ks).len() + k] == p);
        lemma_part_is_held(inp, builder.prefix, built, d, p);
    }
}

/// A database and its log that were read together are in the tree together, each with what was read
/// of it, under the name of the database.
pub proof fn law_groups_are_in_the_tree_together(
    builder: TreeBuilder,
    index: &mut TreeIndex,
    listing: Listing,
    reads: Reads,
    built: BuiltTree,
    w: Seq<char>,
    base: Seq<char>,
)
    requires
        listing.wf(),
        reads.wf(),
        call_ensures(TreeBuilder::build, (&builder, index, &listing, &reads), built),
        base.len() > 0,
        paths::name(w) == base + "-wal"@,
        listing.entries@.dom().contains(w),
        listing.entries@[w].kind == FileKind::File,
        listing.entries@.dom().contains(paths::joined(paths::parent(w), base)),
        listing.entries@[paths::joined(paths::parent(w), base)].kind == FileKind::File,
        reads.groups@.dom().contains(w),
    ensures
        ({
            let db = paths::joined(paths::parent(w), base);
            let g = reads.groups@[w];
            &&& holds_entry(
                built,
                builder.prefix,
                paths::parent(w),
                EntryModel {
                    name: paths::name(w),
                    kind: EntryKind::File,
                    mode: (listing.entries@[w].mode & 0o7777) as nat,
                    size: g.wal.stat.size as nat,
                    mtime: g.wal.stat.mtime as int,
                    chunks: Some(order::views(g.wal.chunks@)),
                    target: None,
                    child: None,
                    group: Some(base),
                    torn: if g.wal.torn {
                        Some(true)
                    } else {
                        None
                    },
                },
            )
            &&& holds_entry(
                built,
                builder.prefix,
                paths::parent(w),
                EntryModel {
                    name: paths::name(db),
                    kind: EntryKind::File,
                    mode: (listing.entries@[db].mode & 0o7777) as nat,
                    size: g.db.stat.size as nat,
                    mtime: g.db.stat.mtime as int,
                    chunks: Some(order::views(g.db.chunks@)),
                    target: None,
                    child: None,
                    group: Some(base),
                    torn: if g.db.torn {
                        Some(true)
                    } else {
                        None
                    },
                },
            )
        }),
{
    let inp = input_of(&listing, &reads);
    let d = paths::parent(w);
    let ks = kids(inp.paths, d);
    let keys = key_texts(built.keys@);
    lemma_listed_kid(listing, w);
    let i = order::spot(listing.entries.keys@, w);
    assert(inp.paths[i] == w);
    assert(inp.is_dir(d));
    let n = paths::name(w);
    assert(n.skip(n.len() - "-wal"@.len()) =~= "-wal"@);
    assert(wal_base(w) =~= base);
    assert(db_path(d, w) == paths::joined(d, base));
    assert(is_group(inp.listing, d, w));
    let two = inp.one_group(d, w);
    assert(two[0] == file_part(inp.listing[w], w, inp.groups[w].wal@, Some(base)));
    assert(two.contains(two[0]) && two.contains(two[1]));
    lemma_group_part(inp, d, ks, w, two[0]);
    lemma_group_part(inp, d, ks, w, two[1]);
    let all = inp.group_parts(d, ks);
    let a = choose|a: int| 0 <= a < all.len() && all[a] == two[0];
    let b = choose|b: int| 0 <= b < all.len() && all[b] == two[1];
    assert(inp.parts(keys, d)[a] == two[0]);
    assert(inp.parts(keys, d)[b] == two[1]);
    lemma_part_is_held(inp, builder.prefix, built, d, two[0]);
    lemma_part_is_held(inp, builder.prefix, built, d, two[1]);
}

/// Only a log and the database that it belongs to are grouped.
pub proof fn law_only_a_log_and_its_database_are_grouped(
    l: Map<Seq<char>, Meta>,
    d: Seq<char>,
    ks: Seq<Seq<char>>,
    v: Seq<char>,
)
    ensures
        in_group(l, d, ks, v) ==> exists|i: int|
            0 <= i < ks.len() && text::has_suffix(paths::name(#[trigger] ks[i]), "-wal"@)
                && l.dom().contains(ks[i]) && l[ks[i]].kind == FileKind::File && (v == ks[i] || v
                == paths::joined(
                d,
                paths::name(ks[i]).take(paths::name(ks[i]).len() - 4),
            )),
{
    reveal_strlit("-wal");
    if in_group(l, d, ks, v) {
        let i = choose|i: int|
            0 <= i < ks.len() && #[trigger] is_group(l, d, ks[i]) && (v == ks[i] || v == db_path(
                d,
                ks[i],
            ));
        assert(text::has_suffix(paths::name(ks[i]), "-wal"@));
    }
}

/// A further name of a file is a link to a listed name of that very file, never to itself; a file
/// with one name is none.
pub proof fn law_links_lead_to_the_same_file(
    ps: Seq<Seq<char>>,
    l: Map<Seq<char>, Meta>,
    v: Seq<char>,
)
    requires
        l.dom().contains(v),
        l[v].kind == FileKind::File,
    ensures
        l[v].nlink <= 1 ==> link_target(ps, l, v) is None,
        link_target(ps, l, v) matches Some(c) ==> {
            &&& c != v
            &&& ps.contains(c)
            &&& l.dom().contains(c) && l[c].kind == FileKind::File
            &&& l[c].stat.dev == l[v].stat.dev && l[c].stat.ino == l[v].stat.ino
            &&& link_target(ps, l, c) is None
        },
        l[v].nlink > 1 && (exists|i: int, j: int|
            0 <= i < j < ps.len() && #[trigger] ps[j] == v && is_linked(l, #[trigger] ps[i])
                && identity(l, ps[i]) == identity(l, v)) && ps.no_duplicates() ==> link_target(
            ps,
            l,
            v,
        ) is Some,
{
    lemma_first_name(ps, l, identity(l, v));
    if let Some(c) = link_target(ps, l, v) {
        assert(identity(l, c) == identity(l, v));
    }
    if l[v].nlink > 1 && ps.no_duplicates() && exists|i: int, j: int|
        0 <= i < j < ps.len() && #[trigger] ps[j] == v && is_linked(l, #[trigger] ps[i])
            && identity(l, ps[i]) == identity(l, v) {
        let (i, j) = choose|i: int, j: int|
            0 <= i < j < ps.len() && #[trigger] ps[j] == v && is_linked(l, #[trigger] ps[i])
                && identity(l, ps[i]) == identity(l, v);
        lemma_first_name_comes_first(ps, l, identity(l, v), i, j);
    }
}

proof fn lemma_first_name(ps: Seq<Seq<char>>, l: Map<Seq<char>, Meta>, id: (int, int))
    ensures
        first_name(ps, l, id) matches Some(c) ==> ps.contains(c) && is_linked(l, c) && identity(
            l,
            c,
        ) == id,
    decreases ps.len(),
{
    if ps.len() > 0 {
        lemma_first_name(ps.drop_last(), l, id);
        if let Some(c) = first_name(ps.drop_last(), l, id) {
            let front = ps.drop_last();
            let k = choose|k: int| 0 <= k < front.len() && front[k] == c;
            assert(ps[k] == c);
        } else {
            assert(ps[ps.len() - 1] == ps.last());
        }
    }
}

proof fn lemma_first_name_comes_first(
    ps: Seq<Seq<char>>,
    l: Map<Seq<char>, Meta>,
    id: (int, int),
    i: int,
    j: int,
)
    requires
        0 <= i < j < ps.len(),
        is_linked(l, ps[i]),
        identity(l, ps[i]) == id,
        ps.no_duplicates(),
    ensures
        first_name(ps, l, id) is Some,
        first_name(ps, l, id) != Some(ps[j]),
    decreases ps.len(),
{
    let front = ps.drop_last();
    assert(front.no_duplicates());
    if j < ps.len() - 1 {
        lemma_first_name_comes_first(front, l, id, i, j);
    } else {
        lemma_first_name_found(front, l, id, i);
        lemma_first_name(front, l, id);
        let c = first_name(front, l, id)->0;
        let k = choose|k: int| 0 <= k < front.len() && front[k] == c;
        assert(ps[k] == c && ps[j] != ps[k]);
    }
}

proof fn lemma_first_name_found(
    ps: Seq<Seq<char>>,
    l: Map<Seq<char>, Meta>,
    id: (int, int),
    i: int,
)
    requires
        0 <= i < ps.len(),
        is_linked(l, ps[i]),
        identity(l, ps[i]) == id,
    ensures
        first_name(ps, l, id) is Some,
    decreases ps.len(),
{
    if i < ps.len() - 1 {
        lemma_first_name_found(ps.drop_last(), l, id, i);
    }
}

/// A tree's chunks are those of its files, all of them, and its index knows just the files that were
/// read, with what was read of them.
pub proof fn law_a_tree_has_the_chunks_of_its_files(
    builder: TreeBuilder,
    index: &mut TreeIndex,
    listing: Listing,
    reads: Reads,
    built: BuiltTree,
    v: Seq<char>,
    id: Seq<u8>,
)
    requires
        listing.wf(),
        reads.wf(),
        call_ensures(TreeBuilder::build, (&builder, index, &listing, &reads), built),
        listing.entries@.dom().contains(v),
        listing.entries@[v].kind == FileKind::File,
        link_target(order::views(listing.entries.keys@), listing.entries@, v) is None,
        reads.files@.dom().contains(v),
        !in_group(
            listing.entries@,
            paths::parent(v),
            kids(order::views(listing.entries.keys@), paths::parent(v)),
            v,
        ),
    ensures
        order::views(reads.files@[v].chunks@).contains(id) ==> built.chunks.has(id),
        final(index).files@.dom().contains(v),
        built.stats.files_read == reads.counts.files_read,
        built.stats.bytes_read == reads.counts.bytes_read,
        built.stats.chunks_new == reads.counts.chunks_new,
        built.stats.chunks == built.chunks.items@.len(),
{
    let inp = input_of(&listing, &reads);
    let d = paths::parent(v);
    let ks = kids(inp.paths, d);
    let keys = key_texts(built.keys@);
    let dirs = order::views(built.order@);
    lemma_listed_kid(listing, v);
    let i = order::spot(listing.entries.keys@, v);
    assert(inp.paths[i] == v);
    assert(inp.is_dir(d));
    let p = inp.one_plain(keys, v)->0;
    assert(p == file_part(inp.listing[v], v, inp.files[v]@, None));
    lemma_plain_part(inp, keys, d, ks, ks, v);
    let plain = inp.plain_parts(keys, d, ks, ks);
    let k = choose|k: int| 0 <= k < plain.len() && plain[k] == p;
    assert(inp.parts(keys, d)[inp.group_parts(d, ks).len() + k] == p);
    lemma_keys_listed(built.keys);
    let ds = order::views(built.keys.keys@);
    assert(keys.dom().contains(d));
    assert(ds.contains(d));
    lemma_max_depth(ds);
    lemma_deepest_first(ds, max_depth(ds));
    assert(dirs.contains(d));
    lemma_parts_of_a_directory(inp, keys, dirs, d, p);
    let all = all_parts(inp, keys, dirs);
    let at = choose|at: int| 0 <= at < all.len() && all[at] == p;
    if order::views(reads.files@[v].chunks@).contains(id) {
        assert(all[at].read->0.chunks.contains(id));
        assert(reads_chunk(all, id));
    }
    lemma_read_of_found(all, v, at);
}

proof fn lemma_read_of_found(parts: Seq<Part>, v: Seq<char>, i: int)
    requires
        0 <= i < parts.len(),
        parts[i].path == v,
        parts[i].read is Some,
    ensures
        read_of(parts, v) is Some,
    decreases parts.len(),
{
    if i < parts.len() - 1 {
        lemma_read_of_found(parts.drop_last(), v, i);
    }
}

proof fn lemma_parts_of_a_directory(
    inp: Input,
    keys: Map<Seq<char>, Seq<char>>,
    dirs: Seq<Seq<char>>,
    d: Seq<char>,
    p: Part,
)
    requires
        dirs.contains(d),
        inp.parts(keys, d).contains(p),
    ensures
        all_parts(inp, keys, dirs).contains(p),
    decreases dirs.len(),
{
    let all = all_parts(inp, keys, dirs);
    let front = all_parts(inp, keys, dirs.drop_last());
    if dirs.last() == d {
        let k = choose|k: int| 0 <= k < inp.parts(keys, d).len() && inp.parts(keys, d)[k] == p;
        assert(all[front.len() + k] == p);
    } else {
        let i = choose|i: int| 0 <= i < dirs.len() && dirs[i] == d;
        assert(dirs.drop_last()[i] == d);
        lemma_parts_of_a_directory(inp, keys, dirs.drop_last(), d, p);
        let k = choose|k: int| 0 <= k < front.len() && front[k] == p;
        assert(all[k] == p);
    }
}

/// A file that changed while it was read is read again, as long as attempts are left, and then taken
/// and marked; one that did not is taken as it is.
pub proof fn law_a_file_that_changed_is_read_again(
    reads: &mut Reads,
    v: String,
    run: FileRun,
    attempt: u32,
    before: FileStat,
    after: FileStat,
    verdict: ReadVerdict,
)
    requires
        old(reads).wf(),
        call_ensures(Reads::finish_file, (reads, &v, run, attempt, &before, &after), verdict),
        old(reads).counts.files_read < u64::MAX,
        old(reads).counts.bytes_read + run.bytes <= u64::MAX,
    ensures
        before == after && attempt < 3 ==> verdict == ReadVerdict::Settled,
        before != after ==> verdict == ReadVerdict::Retry || verdict == ReadVerdict::Torn,
        before != after && attempt < 3 ==> verdict == ReadVerdict::Retry,
        attempt >= 3 ==> verdict == ReadVerdict::Torn,
        verdict != ReadVerdict::Retry ==> final(reads).files@.dom().contains(v@) && final(reads).files@[v@].chunks == run.chunks && final(reads).files@[v@].stat == after && final(reads).files@[v@].torn == (verdict == ReadVerdict::Torn),
        verdict == ReadVerdict::Retry ==> final(reads).files@ == old(reads).files@,
        final(reads).counts.files_read == old(reads).counts.files_read + 1,
        final(reads).counts.bytes_read == old(reads).counts.bytes_read + run.bytes,
{
}

/// The same of a database and its log, of which either may have changed.
pub proof fn law_a_group_that_changed_is_read_again(
    reads: &mut Reads,
    wal: String,
    w: Vec<ChunkId>,
    d: Vec<ChunkId>,
    attempt: u32,
    before: (FileStat, FileStat),
    after: (FileStat, FileStat),
    verdict: ReadVerdict,
)
    requires
        old(reads).wf(),
        call_ensures(Reads::finish_group, (reads, &wal, w, d, attempt, &before, &after), verdict),
    ensures
        before == after ==> verdict == ReadVerdict::Settled,
        before != after ==> verdict == ReadVerdict::Retry || verdict == ReadVerdict::Torn,
        before != after && attempt == 0 ==> verdict == ReadVerdict::Retry,
        before != after && attempt >= 2 ==> verdict == ReadVerdict::Torn,
        verdict != ReadVerdict::Retry ==> final(reads).groups@.dom().contains(wal@) && final(reads).groups@[wal@].wal.chunks == w && final(reads).groups@[wal@].db.chunks == d && final(reads).groups@[wal@].wal.stat == after.0 && final(reads).groups@[wal@].db.stat == after.1
            && final(reads).groups@[wal@].wal.torn == (before != after) && final(reads).groups@[wal@].db.torn == (before != after),
        verdict == ReadVerdict::Retry ==> final(reads).groups@ == old(reads).groups@,
{
}

/// A file is taken from the index, unread, only if its size, time and identity are those indexed and
/// every chunk of it is stored; and then it is.
pub proof fn law_a_file_is_reused_only_as_indexed<S: ChunkSink>(
    reads: &mut Reads,
    index: TreeIndex,
    v: String,
    stat: FileStat,
    sink: S,
    r: bool,
)
    requires
        old(reads).wf(),
        index.wf(),
        sink.inv(),
        call_ensures(Reads::reuse_file::<S>, (reads, &index, &v, &stat, &sink), r),
    ensures
        r <==> {
            &&& index.files@.dom().contains(v@)
            &&& index.files@[v@].stat == stat
            &&& forall|i: int|
                0 <= i < index.files@[v@].chunks@.len() ==> sink.stored().contains(
                    (#[trigger] index.files@[v@].chunks@[i])@,
                )
        },
        r ==> final(reads).files@.dom().contains(v@) && order::views(
            final(reads).files@[v@].chunks@,
        ) == order::views(index.files@[v@].chunks@) && final(reads).files@[v@].stat == stat
            && !final(reads).files@[v@].torn,
        !r ==> final(reads).files == old(reads).files,
        final(reads).counts == old(reads).counts,
{
    if r {
        assert(final(reads).files@[v@]@ == known_read(index.files@, v@));
    }
}

/// Each chunk of a content is stored, if it was not, and counted as new just then; the content's
/// chunks are noted in order.
pub proof fn law_new_chunks_are_stored_and_counted<S: ChunkSink>(
    run: &mut FileRun,
    c: Chunk,
    sink: &mut S,
    counts: &mut ReadCounts,
    r: Result<(), PackError>,
)
    requires
        old(sink).inv(),
        pack::packable(c.data@.len()),
        old(counts).chunks_new < u64::MAX,
        old(run).bytes + c.data@.len() <= u64::MAX,
        call_ensures(FileRun::stored::<S>, (run, &c, sink, counts), r),
    ensures
        old(sink).stored().contains(c.id@) ==> r is Ok,
        r is Ok ==> final(sink).stored().contains(c.id@),
        r is Ok ==> final(run).chunks@.len() == old(run).chunks@.len() + 1 && final(run).chunks@.last() == c.id && final(run).chunks@.drop_last() == old(run).chunks@,
        r is Ok ==> final(run).bytes == old(run).bytes + c.data@.len(),
        r is Ok ==> final(counts).chunks_new == old(counts).chunks_new + if old(sink).stored().contains(c.id@) {
            0int
        } else {
            1int
        },
        final(counts).files_read == old(counts).files_read,
        r is Ok && !old(sink).stored().contains(c.id@) && !old(sink).kept().dom().contains(c.id@)
            ==> final(sink).kept().dom().contains(c.id@) && final(sink).kept()[c.id@] == c.data@,
        r is Err ==> *final(run) == *old(run) && final(sink).stored() == old(sink).stored(),
        forall|x: Seq<u8>| #[trigger]
            old(sink).stored().contains(x) ==> final(sink).stored().contains(x),
{
}

/// Everything that has to be read for a tree is on its plan: every file outside a group that is no
/// further name of another, every symlink, and every database with its log.
pub proof fn law_a_plan_asks_for_everything(
    listing: Listing,
    plan: Vec<Task>,
    v: Seq<char>,
    base: Seq<char>,
)
    requires
        listing.wf(),
        call_ensures(read_plan, (&listing,), plan),
        listing.entries@.dom().contains(v),
    ensures
        ({
            let m = listing.entries@[v];
            let d = paths::parent(v);
            let ps = order::views(listing.entries.keys@);
            let grouped = in_group(listing.entries@, d, kids(ps, d), v);
            let db = paths::joined(d, base);
            &&& m.kind == FileKind::Symlink && !grouped ==> order::views(plan@).contains(
                TaskModel::Link(v),
            )
            &&& m.kind == FileKind::File && !grouped && link_target(ps, listing.entries@, v) is None
                ==> order::views(plan@).contains(TaskModel::File(v))
            &&& m.kind == FileKind::File && base.len() > 0 && paths::name(v) == base + "-wal"@
                && listing.entries@.dom().contains(db) && listing.entries@[db].kind
                == FileKind::File ==> order::views(plan@).contains(
                TaskModel::Group { wal: v, db },
            )
        }),
{
    let l = listing.entries@;
    let ps = order::views(listing.entries.keys@);
    let d = paths::parent(v);
    let ks = kids(ps, d);
    lemma_listed_kid(listing, v);
    let all = order::views(plan@);
    let ds = choose|ds: Seq<Seq<char>>|
        #![trigger max_depth(ds)]
        (forall|x: Seq<char>| ds.contains(x) <==> #[trigger] dirs_input(&listing).is_dir(x))
            && are_sorted(ds) && all == tasks(ps, l, deepest_first(ds, max_depth(ds)));
    let dirs = deepest_first(ds, max_depth(ds));
    let i = order::spot(listing.entries.keys@, v);
    assert(dirs_input(&listing).paths[i] == v);
    assert(dirs_input(&listing).is_dir(d));
    assert(ds.contains(d));
    lemma_max_depth(ds);
    lemma_deepest_first(ds, max_depth(ds));
    assert(dirs.contains(d));
    let m = l[v];
    let grouped = in_group(l, d, ks, v);
    if m.kind == FileKind::Symlink && !grouped {
        lemma_plain_task(ps, l, d, ks, ks, v, TaskModel::Link(v));
        lemma_task_of_a_directory(ps, l, dirs, d, TaskModel::Link(v));
    }
    if m.kind == FileKind::File && !grouped && link_target(ps, l, v) is None {
        lemma_plain_task(ps, l, d, ks, ks, v, TaskModel::File(v));
        lemma_task_of_a_directory(ps, l, dirs, d, TaskModel::File(v));
    }
    let db = paths::joined(d, base);
    if m.kind == FileKind::File && base.len() > 0 && paths::name(v) == base + "-wal"@
        && l.dom().contains(db) && l[db].kind == FileKind::File {
        let n = paths::name(v);
        assert(n.skip(n.len() - "-wal"@.len()) =~= "-wal"@);
        assert(wal_base(v) =~= base);
        assert(is_group(l, d, v));
        lemma_group_task(l, d, ks, v);
        lemma_task_of_a_directory(ps, l, dirs, d, TaskModel::Group { wal: v, db });
    }
}

proof fn lemma_plain_task(
    ps: Seq<Seq<char>>,
    l: Map<Seq<char>, Meta>,
    d: Seq<char>,
    ks: Seq<Seq<char>>,
    some: Seq<Seq<char>>,
    v: Seq<char>,
    t: TaskModel,
)
    requires
        some.contains(v),
        !in_group(l, d, ks, v),
        l[v].kind == FileKind::Symlink && t == TaskModel::Link(v) || l[v].kind == FileKind::File
            && link_target(ps, l, v) is None && t == TaskModel::File(v),
    ensures
        plain_tasks(ps, l, d, ks, some).contains(t),
    decreases some.len(),
{
    let all = plain_tasks(ps, l, d, ks, some);
    let front = plain_tasks(ps, l, d, ks, some.drop_last());
    if some.last() == v {
        assert(all[front.len() as int] == t);
    } else {
        let i = choose|i: int| 0 <= i < some.len() && some[i] == v;
        assert(some.drop_last()[i] == v);
        lemma_plain_task(ps, l, d, ks, some.drop_last(), v, t);
        let k = choose|k: int| 0 <= k < front.len() && front[k] == t;
        assert(all[k] == t);
    }
}

proof fn lemma_group_task(
    l: Map<Seq<char>, Meta>,
    d: Seq<char>,
    some: Seq<Seq<char>>,
    w: Seq<char>,
)
    requires
        some.contains(w),
        is_group(l, d, w),
    ensures
        group_tasks(l, d, some).contains(TaskModel::Group { wal: w, db: db_path(d, w) }),
    decreases some.len(),
{
    let t = TaskModel::Group { wal: w, db: db_path(d, w) };
    let all = group_tasks(l, d, some);
    let front = group_tasks(l, d, some.drop_last());
    if some.last() == w {
        assert(all[front.len() as int] == t);
    } else {
        let i = choose|i: int| 0 <= i < some.len() && some[i] == w;
        assert(some.drop_last()[i] == w);
        lemma_group_task(l, d, some.drop_last(), w);
        let k = choose|k: int| 0 <= k < front.len() && front[k] == t;
        assert(all[k] == t);
    }
}

proof fn lemma_task_of_a_directory(
    ps: Seq<Seq<char>>,
    l: Map<Seq<char>, Meta>,
    dirs: Seq<Seq<char>>,
    d: Seq<char>,
    t: TaskModel,
)
    requires
        dirs.contains(d),
        group_tasks(l, d, kids(ps, d)).contains(t) || plain_tasks(
            ps,
            l,
            d,
            kids(ps, d),
            kids(ps, d),
        ).contains(t),
    ensures
        tasks(ps, l, dirs).contains(t),
    decreases dirs.len(),
{
    let all = tasks(ps, l, dirs);
    let front = tasks(ps, l, dirs.drop_last());
    if dirs.last() == d {
        let ks = kids(ps, d);
        let g = group_tasks(l, d, ks);
        let p = plain_tasks(ps, l, d, ks, ks);
        if g.contains(t) {
            let k = choose|k: int| 0 <= k < g.len() && g[k] == t;
            assert(all[front.len() + k] == t);
        } else {
            let k = choose|k: int| 0 <= k < p.len() && p[k] == t;
            assert(all[front.len() + g.len() + k] == t);
        }
    } else {
        let i = choose|i: int| 0 <= i < dirs.len() && dirs[i] == d;
        assert(dirs.drop_last()[i] == d);
        lemma_task_of_a_directory(ps, l, dirs.drop_last(), d, t);
        let k = choose|k: int| 0 <= k < front.len() && front[k] == t;
        assert(all[k] == t);
    }
}

/// The chunks of a file that was chunked are those of its content, in order, all of them stored, and
/// as many counted as new as the sink had not.
pub proof fn law_a_chunked_file_is_stored_whole<S: ChunkSink>(
    data: &[u8],
    sink: &mut S,
    counts: &mut ReadCounts,
    run: FileRun,
    pieces: Vec<Chunk>,
    i: int,
)
    requires
        old(sink).inv(),
        call_ensures(chunk_file::<S>, (data, sink, counts), Ok(run)),
        call_ensures(chunk::chunk_bytes, (data,), pieces),
    ensures
        run.bytes == data@.len(),
        run.chunks@.len() == pieces@.len(),
        0 <= i < pieces@.len() ==> run.chunks@[i]@ == pieces@[i].id@ && final(sink).stored().contains(pieces@[i].id@),
        forall|x: Seq<u8>| #[trigger]
            old(sink).stored().contains(x) ==> final(sink).stored().contains(x),
{
    let ids = content_ids(data@);
    let rv = order::views(run.chunks@);
    assert(rv.len() == run.chunks@.len());
    let parts = content_pieces(data@);
    assert(chunk::chunk_data(pieces@) == parts);
    assert(chunk::chunk_data(pieces@).len() == pieces@.len());
    if 0 <= i < pieces@.len() {
        assert(parts[i] == pieces@[i].data@);
        assert(ids[i] == chunk::sha256(parts[i]));
        assert(rv[i] == run.chunks@[i]@);
        assert(ids.contains(ids[i]));
    }
}

/// A database and its log are taken from the index, unread, only together, each as it was indexed
/// with every chunk stored.
pub proof fn law_a_group_is_reused_only_whole<S: ChunkSink>(
    index: TreeIndex,
    wal: String,
    db: String,
    stats: (FileStat, FileStat),
    sink: S,
    r: Option<(Vec<ChunkId>, Vec<ChunkId>)>,
)
    requires
        index.wf(),
        sink.inv(),
        call_ensures(group_chunks::<S>, (&index, &wal, &db, &stats, &sink), r),
    ensures
        r is Some <==> {
            &&& index.files@.dom().contains(wal@) && index.files@[wal@].stat == stats.0
            &&& index.files@.dom().contains(db@) && index.files@[db@].stat == stats.1
            &&& forall|i: int|
                0 <= i < index.files@[wal@].chunks@.len() ==> sink.stored().contains(
                    (#[trigger] index.files@[wal@].chunks@[i])@,
                )
            &&& forall|i: int|
                0 <= i < index.files@[db@].chunks@.len() ==> sink.stored().contains(
                    (#[trigger] index.files@[db@].chunks@[i])@,
                )
        },
        r matches Some((w, d)) ==> w@ == index.files@[wal@].chunks@ && d@
            == index.files@[db@].chunks@,
{
}

/// A torn file is counted, and where none is torn none is counted.
pub proof fn law_torn_files_are_counted(
    builder: TreeBuilder,
    index: &mut TreeIndex,
    listing: Listing,
    reads: Reads,
    built: BuiltTree,
    i: int,
)
    requires
        listing.wf(),
        reads.wf(),
        call_ensures(TreeBuilder::build, (&builder, index, &listing, &reads), built),
    ensures
        ({
            let parts = built.parts(input_of(&listing, &reads));
            &&& built.stats.torn == 0 && 0 <= i < parts.len() && parts[i].read is Some
                ==> !parts[i].read->0.torn
            &&& (forall|k: int|
                0 <= k < parts.len() && (#[trigger] parts[k]).read is Some
                    ==> !parts[k].read->0.torn) ==> built.stats.torn == 0
        }),
{
    let parts = built.parts(input_of(&listing, &reads));
    if built.stats.torn == 0 {
        lemma_none_torn(parts);
    }
    if forall|k: int|
        0 <= k < parts.len() && (#[trigger] parts[k]).read is Some ==> !parts[k].read->0.torn {
        lemma_torn_none(parts);
    }
}

proof fn lemma_torn_none(parts: Seq<Part>)
    requires
        forall|k: int|
            0 <= k < parts.len() && (#[trigger] parts[k]).read is Some ==> !parts[k].read->0.torn,
    ensures
        count_torn(parts) == 0,
    decreases parts.len(),
{
    if parts.len() > 0 {
        let front = parts.drop_last();
        assert forall|k: int| 0 <= k < front.len() && (
        #[trigger] front[k]).read is Some implies !front[k].read->0.torn by {
            assert(front[k] == parts[k]);
        }
        lemma_torn_none(front);
        assert(parts[parts.len() - 1] == parts.last());
    }
}

/// A file or a pair of files that did not change while it was read is taken as read, one that changed
/// is read anew while there are attempts left, and is torn after the last.
pub proof fn law_what_changed_meanwhile_is_not_taken_as_read(
    attempt: u32,
    before: FileStat,
    after: FileStat,
    r: ReadVerdict,
    pair: (FileStat, FileStat),
    then: (FileStat, FileStat),
    both: ReadVerdict,
)
    requires
        call_ensures(judge_read, (attempt, &before, &after), r),
        call_ensures(judge_group, (attempt, &pair, &then), both),
    ensures
        before != after ==> !(r is Settled),
        attempt < 3 ==> (r is Settled <==> before == after) && !(r is Torn),
        attempt >= 3 ==> r is Torn,
        both is Settled <==> pair.0 == then.0 && pair.1 == then.1,
        both is Retry ==> attempt < 2,
        both is Torn ==> attempt >= 2,
{
}

} // verus!
