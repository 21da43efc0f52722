//! The capture engine: what a snap packs, which sections its manifest has, which objects it
//! stages, and where on the chain it stands.
//!
//! Reading the tree and the repository, writing objects and asking the clock happen elsewhere; the
//! engine is handed what was read and says what to stage.

use vstd::prelude::*;
use vstd::string::*;
use crate::builder;
use crate::builder::{BuiltTree, ChunkSink, FileRead};
use crate::calendar;
use crate::chunk;
use crate::chunk::ChunkId;
use crate::count;
use crate::gitpack::{Closure, FinishedGitPack, GitError, GitPackResult};
use crate::index;
use crate::index::{IndexedFile, TreeIndex, DAEMON_DIR};
use crate::keys::KeyPrefix;
use crate::manifest;
use crate::manifest::{
    BulkSection, BulkState, CaptureKind, EncodedManifest, GitSection, Manifest, PendingTag, Sections,
    WorkspaceSection,
};
use crate::materialize::MaterializeError;
use crate::order;
use crate::order::{SortedMap, SortedSet};
use crate::pacing;
use crate::pack;
use crate::pack::{FinishedPack, PackBuilder, PackError, PackIndexEntry, MAX_PACK_BYTES};
use crate::paths;
use crate::paths::FsPath;
use crate::registrar::RegisterRequest;
use crate::ship;
use crate::ship::{QueueEntry, RefusedCapture, ShipError, Staging, Upload, UploadModel};
use crate::text;
use crate::watch::WatchPolicy;

verus! {

/// Snap cadence, in nanoseconds.
#[derive(Debug, Clone, Copy, PartialEq, Eq, Structural)]
pub struct Cadence {
    /// Quiet period after a change before a small-class snap.
    pub quiet: u64,
    /// Longest interval between small-class snaps while the tree stays dirty.
    pub max_interval: u64,
    /// Quiet period after a bulk change before a bulk-class snap.
    pub bulk_quiet: u64,
    /// Longest interval between bulk-class snaps while the bulk tree stays dirty (and the polling
    /// interval when bulk is not watched).
    pub bulk_max_interval: u64,
    /// Lease heartbeat interval.
    pub heartbeat: u64,
    /// Lease TTL: pause the agent once this elapses without a successful heartbeat.
    pub lease_ttl: u64,
}

impl Default for Cadence {
    fn default() -> (r: Self)
        ensures
            r.quiet == 2 * pacing::SECOND,
            r.max_interval == 10 * pacing::SECOND,
            r.bulk_quiet == 30 * pacing::SECOND,
            r.bulk_max_interval == 120 * pacing::SECOND,
            r.heartbeat == 10 * pacing::SECOND,
            r.lease_ttl == 30 * pacing::SECOND,
    {
        Cadence {
            quiet: 2 * pacing::SECOND,
            max_interval: 10 * pacing::SECOND,
            bulk_quiet: 30 * pacing::SECOND,
            bulk_max_interval: 120 * pacing::SECOND,
            heartbeat: 10 * pacing::SECOND,
            lease_ttl: 30 * pacing::SECOND,
        }
    }
}

/// Engine configuration.
pub struct CaptureConfig {
    /// Worktree id (the key of the work product).
    pub worktree_id: String,
    /// Lease epoch this executor holds.
    pub epoch: u64,
    /// Worktree root.
    pub root: FsPath,
    /// Harness home (transcripts, agent state); captured in the workspace class, but for its
    /// credential files.
    pub harness_home: Option<FsPath>,
    /// The credential files of the harness, relative to its home (never captured).
    pub credential_files: Vec<String>,
    /// Staging directory; default `<root>/.sealantd/capture`.
    pub staging_at: Option<FsPath>,
    /// Directory names treated as bulk wherever they appear.
    pub bulk_dirs: Vec<String>,
    /// Whether bulk snaps are taken at all.
    pub capture_bulk: bool,
    /// Cadence.
    pub cadence: Cadence,
    /// How the cadence learns about changes.
    pub watch: WatchPolicy,
    /// `<os>-<arch>-<libc>` stamped on bulk captures.
    pub platform: String,
    /// CDC pack cap.
    pub pack_cap: u64,
}

impl CaptureConfig {
    /// Defaults for `root`.
    #[must_use]
    pub fn new(
        worktree_id: &str,
        epoch: u64,
        root: &FsPath,
        platform: &str,
        credential_files: Vec<String>,
    ) -> (r: Self)
        ensures
            r.worktree_id@ == worktree_id@,
            r.epoch == epoch,
            r.root@ == root@,
            r.harness_home is None,
            r.credential_files == credential_files,
            r.staging_at is None,
            order::views(r.bulk_dirs@) == index::default_bulk_names(),
            r.capture_bulk,
            r.cadence.quiet == 2 * pacing::SECOND,
            r.cadence.max_interval == 10 * pacing::SECOND,
            r.cadence.bulk_quiet == 30 * pacing::SECOND,
            r.cadence.bulk_max_interval == 120 * pacing::SECOND,
            r.cadence.heartbeat == 10 * pacing::SECOND,
            r.cadence.lease_ttl == 30 * pacing::SECOND,
            r.watch.enabled,
            r.watch.budget is None,
            !r.watch.raise_limit,
            r.platform@ == platform@,
            r.pack_cap == MAX_PACK_BYTES,
    {
        CaptureConfig {
            worktree_id: worktree_id.to_owned(),
            epoch,
            root: root.copy(),
            harness_home: None,
            credential_files,
            staging_at: None,
            bulk_dirs: index::default_bulk_dirs(),
            capture_bulk: true,
            cadence: Cadence::default(),
            watch: WatchPolicy::default(),
            platform: platform.to_owned(),
            pack_cap: MAX_PACK_BYTES,
        }
    }

    /// The staging directory in effect.
    pub open spec fn staging_place(&self) -> paths::PathModel {
        match self.staging_at {
            Some(p) => p@,
            None => self.root@.child(DAEMON_DIR@).child("capture"@),
        }
    }

    /// The staging directory in effect.
    #[must_use]
    pub fn staging_dir(&self) -> (r: FsPath)
        ensures
            r@ == self.staging_place(),
    {
        match &self.staging_at {
            Some(p) => p.copy(),
            None => self.root.child(DAEMON_DIR).child("capture"),
        }
    }

    /// The key prefix.
    #[must_use]
    pub fn prefix(&self) -> (r: KeyPrefix)
        ensures
            r.worktree_id == self.worktree_id,
            r.epoch == self.epoch,
    {
        KeyPrefix { worktree_id: self.worktree_id.clone(), epoch: self.epoch }
    }

    /// The root-relative paths that stay out of the git section: the daemon's directory, and the
    /// staging directory where it lies below the root.
    pub fn daemon_excludes(&self) -> (r: Vec<String>)
        ensures
            order::views(r@) == if self.staging_place().starts_with(self.root@) {
                seq![DAEMON_DIR@, slashed(self.staging_place().below(self.root@))]
            } else {
                seq![DAEMON_DIR@]
            },
    {
        let mut out: Vec<String> = Vec::new();
        out.push(DAEMON_DIR.to_owned());
        let staging: FsPath = self.staging_dir();
        match staging.strip_prefix(&self.root) {
            Some(rel) => {
                out.push(join_slashes(&rel));
                assert(order::views(out@) =~= seq![
                    DAEMON_DIR@,
                    slashed(self.staging_place().below(self.root@)),
                ]);
            },
            None => {
                assert(order::views(out@) =~= seq![DAEMON_DIR@]);
            },
        }
        out
    }
}

/// Components with a slash between them.
pub open spec fn slashed(parts: Seq<Seq<char>>) -> Seq<char>
    decreases parts.len(),
{
    if parts.len() == 0 {
        Seq::empty()
    } else if parts.len() == 1 {
        parts[0]
    } else {
        slashed(parts.drop_last()) + "/"@ + parts.last()
    }
}

fn join_slashes(parts: &Vec<String>) -> (r: String)
    ensures
        r@ == slashed(order::views(parts@)),
{
    let ghost all = order::views(parts@);
    let mut out: String = String::new();
    let mut i: usize = 0;
    assert(all.take(0) =~= Seq::empty());
    while i < parts.len()
        invariant
            0 <= i <= parts@.len(),
            all == order::views(parts@),
            out@ == slashed(all.take(i as int)),
        decreases parts@.len() - i,
    {
        if i > 0 {
            out.append("/");
        }
        out.append(parts[i].as_str());
        proof {
            let t = all.take(i + 1);
            assert(t.drop_last() =~= all.take(i as int));
            assert(t.last() == parts@[i as int]@);
            if i == 0 {
                assert(out@ =~= t[0]);
            }
        }
        i = i + 1;
    }
    assert(all.take(all.len() as int) =~= all);
    out
}

/// Which class to snap.
#[derive(Debug, Clone, Copy, PartialEq, Eq, Structural)]
pub enum Class {
    /// Git pack, `.git` bookkeeping, harness home.
    Small,
    /// Dependencies and build outputs.
    Bulk,
}

/// Engine errors.
#[derive(Debug)]
pub enum EngineError {
    /// Git.
    Git(GitError),
    /// Pack.
    Pack(PackError),
    /// Shipping.
    Ship(ShipError),
    /// Materialize.
    Materialize(MaterializeError),
    /// I/O.
    Io(String),
}

impl EngineError {
    /// What the error says: what the one inside it does.
    pub open spec fn says(&self) -> Seq<char> {
        match self {
            EngineError::Git(e) => e.says(),
            EngineError::Pack(e) => e.says(),
            EngineError::Ship(e) => e.says(),
            EngineError::Materialize(e) => e.says(),
            EngineError::Io(why) => why@,
        }
    }

    /// What the error says.
    pub fn message(&self) -> (r: String)
        ensures
            r@ == self.says(),
    {
        match self {
            EngineError::Git(e) => e.message(),
            EngineError::Pack(e) => e.message(),
            EngineError::Ship(e) => e.message(),
            EngineError::Materialize(e) => e.message(),
            EngineError::Io(why) => why.clone(),
        }
    }
}

/// Numbers from one snap.
#[derive(Debug, Clone, Copy, PartialEq, Eq, Structural)]
pub struct SnapStats {
    /// Wall time in milliseconds.
    pub elapsed_ms: u64,
    /// Git pack bytes (0 when nothing was new).
    pub git_pack_bytes: u64,
    /// Objects in the git pack.
    pub git_objects: u32,
    /// pack-objects attempts.
    pub git_attempts: u32,
    /// New CDC packs.
    pub cdc_packs: u64,
    /// Bytes of new CDC packs.
    pub cdc_pack_bytes: u64,
    /// Files listed in the chunked class.
    pub files: u64,
    /// Files read this snap.
    pub files_read: u64,
    /// Bytes read this snap.
    pub bytes_read: u64,
    /// Chunks referenced by the tree.
    pub chunks: u64,
    /// Chunks new this snap.
    pub chunks_new: u64,
    /// Dir objects new this snap.
    pub dirs_new: u64,
    /// Bytes staged for upload by this snap (all object files).
    pub staged_bytes: u64,
    /// Files marked torn.
    pub torn: u64,
}

impl SnapStats {
    /// All numbers at zero.
    pub fn zero() -> (r: Self)
        ensures
            r == (SnapStats {
                elapsed_ms: 0,
                git_pack_bytes: 0,
                git_objects: 0,
                git_attempts: 0,
                cdc_packs: 0,
                cdc_pack_bytes: 0,
                files: 0,
                files_read: 0,
                bytes_read: 0,
                chunks: 0,
                chunks_new: 0,
                dirs_new: 0,
                staged_bytes: 0,
                torn: 0,
            }),
    {
        SnapStats {
            elapsed_ms: 0,
            git_pack_bytes: 0,
            git_objects: 0,
            git_attempts: 0,
            cdc_packs: 0,
            cdc_pack_bytes: 0,
            files: 0,
            files_read: 0,
            bytes_read: 0,
            chunks: 0,
            chunks_new: 0,
            dirs_new: 0,
            staged_bytes: 0,
            torn: 0,
        }
    }
}

/// A snap request.
#[derive(Debug, Clone, Copy, PartialEq, Eq, Structural)]
pub struct SnapRequest {
    /// Kind.
    pub kind: CaptureKind,
    /// Class.
    pub class: Class,
    /// Execution sequence at snap start.
    pub seq: u64,
}

/// Which pack holds each chunk.
pub struct ChunkMap {
    /// chunk → pack key.
    pub packs: SortedMap<ChunkId, String>,
}

impl ChunkMap {
    /// Whether the chunks are in order.
    pub open spec fn wf(&self) -> bool {
        self.packs.wf()
    }

    /// No chunk known.
    pub fn empty() -> (r: Self)
        ensures
            r.wf(),
            r.packs@ == Map::<Seq<u8>, String>::empty(),
    {
        ChunkMap { packs: SortedMap::new() }
    }

    /// Keep the chunks whose pack is under `base`. Locations from another epoch are never reused: a
    /// new epoch never skips an upload because a prior epoch holds the bytes.
    pub fn retain_under(self, base: &str) -> (r: Self)
        requires
            self.wf(),
        ensures
            r.wf(),
            forall|id: Seq<u8>| #[trigger]
                r.packs@.dom().contains(id) <==> self.packs@.dom().contains(id)
                    && text::has_prefix(self.packs@[id]@, base@),
            forall|id: Seq<u8>| #[trigger]
                r.packs@.dom().contains(id) ==> r.packs@[id] == self.packs@[id],
    {
        let mut flags: Vec<bool> = Vec::new();
        let mut i: usize = 0;
        while i < self.packs.values.len()
            invariant
                0 <= i <= self.packs.values@.len(),
                flags@.len() == i,
                forall|j: int|
                    0 <= j < i ==> #[trigger] flags@[j] == text::has_prefix(
                        self.packs.values@[j]@,
                        base@,
                    ),
            decreases self.packs.values@.len() - i,
        {
            flags.push(text::starts_with(self.packs.values[i].as_str(), base));
            i = i + 1;
        }
        let r: ChunkMap = ChunkMap { packs: order::select(&self.packs, &flags) };
        proof {
            assert forall|id: Seq<u8>| #[trigger]
                r.packs@.dom().contains(id) <==> self.packs@.dom().contains(id)
                    && text::has_prefix(self.packs@[id]@, base@) by {
                if self.packs@.dom().contains(id) {
                    let at = order::spot(self.packs.keys@, id);
                    assert(0 <= at < self.packs.keys@.len() && self.packs.keys@[at]@ == id);
                    assert(flags@[at] == text::has_prefix(self.packs.values@[at]@, base@));
                }
            }
        }
        r
    }

    /// Forget the chunks whose pack is one of `keys`: a pack that is not staged must not be the
    /// location of any chunk.
    pub fn forget(&mut self, keys: &Vec<String>)
        requires
            old(self).wf(),
        ensures
            final(self).wf(),
            forall|id: Seq<u8>| #[trigger]
                final(self).packs@.dom().contains(id) <==> old(self).packs@.dom().contains(id)
                    && !text::among(keys@, old(self).packs@[id]@),
            forall|id: Seq<u8>| #[trigger]
                final(self).packs@.dom().contains(id) ==> final(self).packs@[id]
                    == old(self).packs@[id],
    {
        let mut flags: Vec<bool> = Vec::new();
        let mut i: usize = 0;
        while i < self.packs.values.len()
            invariant
                0 <= i <= self.packs.values@.len(),
                flags@.len() == i,
                forall|j: int|
                    0 <= j < i ==> #[trigger] flags@[j] == !text::among(
                        keys@,
                        self.packs.values@[j]@,
                    ),
            decreases self.packs.values@.len() - i,
        {
            flags.push(!text::contains(keys, self.packs.values[i].as_str()));
            i = i + 1;
        }
        let kept: SortedMap<ChunkId, String> = order::select(&self.packs, &flags);
        proof {
            assert forall|id: Seq<u8>| #[trigger]
                kept@.dom().contains(id) <==> self.packs@.dom().contains(id) && !text::among(
                    keys@,
                    self.packs@[id]@,
                ) by {
                if self.packs@.dom().contains(id) {
                    let at = order::spot(self.packs.keys@, id);
                    assert(0 <= at < self.packs.keys@.len() && self.packs.keys@[at]@ == id);
                    assert(flags@[at] == !text::among(keys@, self.packs.values@[at]@));
                }
            }
        }
        self.packs = kept;
    }
}

/// Chunk sink over a pack builder plus the known-chunk map (and, for a resumed bulk build, the
/// packs a yielded attempt already wrote).
pub struct PackSink<'a> {
    /// The packs being written.
    pub builder: PackBuilder,
    /// Chunks that staged or shipped packs hold.
    pub known: &'a SortedMap<ChunkId, String>,
    /// Chunks that the packs of a yielded attempt hold.
    pub carried: &'a SortedMap<ChunkId, String>,
}

impl<'a> PackSink<'a> {
    /// A sink that has stored nothing yet.
    pub fn new(
        cap: u64,
        known: &'a SortedMap<ChunkId, String>,
        carried: &'a SortedMap<ChunkId, String>,
    ) -> (r: Self)
        requires
            known.wf(),
            carried.wf(),
        ensures
            r.inv(),
            r.known == known,
            r.carried == carried,
            r.builder.plain@ == Map::<Seq<u8>, Seq<u8>>::empty(),
    {
        PackSink { builder: PackBuilder::new(cap), known, carried }
    }
}

impl<'a> ChunkSink for PackSink<'a> {
    open spec fn stored(&self) -> Set<Seq<u8>> {
        self.known@.dom().union(self.carried@.dom()).union(self.builder.plain@.dom())
    }

    open spec fn kept(&self) -> Map<Seq<u8>, Seq<u8>> {
        self.builder.plain@
    }

    open spec fn inv(&self) -> bool {
        self.known.wf() && self.carried.wf() && self.builder.wf()
    }

    fn contains(&self, id: &ChunkId) -> (r: bool) {
        self.known.contains(id) || self.carried.contains(id) || self.builder.contains(id)
    }

    fn put(&mut self, id: ChunkId, data: &[u8]) -> (r: Result<(), PackError>)
        ensures
            final(self).known == old(self).known,
            final(self).carried == old(self).carried,
            old(self).builder.adds(final(self).builder, id, data@, r),
    {
        let ghost before = self.stored();
        let ghost plain = self.builder.plain@;
        let r: Result<(), PackError> = self.builder.add(id, data);
        proof {
            if r is Ok {
                assert(self.builder.plain@.dom() =~= plain.dom().insert(id@));
                assert(self.stored() =~= before.insert(id@));
            } else {
                assert(self.stored() =~= before);
            }
        }
        r
    }
}

/// A class build's working set: the index it updates and the packs it finished. For a bulk build
/// this outlives yields, holding the packs the yielded attempts wrote. Nothing here is persisted
/// until the capture is staged.
pub struct ClassWork {
    /// The index.
    pub index: TreeIndex,
    /// The packs written.
    pub packs: Vec<Upload>,
    /// Where the chunks of those packs are.
    pub chunks: SortedMap<ChunkId, String>,
}

/// Whether a file was read at rest.
pub open spec fn is_settled(reads: Map<Seq<char>, FileRead>, v: Seq<char>) -> bool {
    reads.dom().contains(v) && !reads[v].torn
}

/// Chunk locations as texts.
pub open spec fn located(m: Map<Seq<u8>, String>) -> Map<Seq<u8>, Seq<char>> {
    m.map_values(|s: String| s@)
}

/// Chunk locations with the chunks of one pack.
pub open spec fn with_entries(
    m: Map<Seq<u8>, Seq<char>>,
    entries: Seq<PackIndexEntry>,
    key: Seq<char>,
) -> Map<Seq<u8>, Seq<char>>
    decreases entries.len(),
{
    if entries.len() == 0 {
        m
    } else {
        with_entries(m, entries.drop_last(), key).insert(entries.last().hash@, key)
    }
}

/// Chunk locations with the chunks of packs.
pub open spec fn with_packs(
    m: Map<Seq<u8>, Seq<char>>,
    packs: Seq<FinishedPack>,
    prefix: KeyPrefix,
) -> Map<Seq<u8>, Seq<char>>
    decreases packs.len(),
{
    if packs.len() == 0 {
        m
    } else {
        with_entries(
            with_packs(m, packs.drop_last(), prefix),
            packs.last().entries@,
            prefix.pack_text(packs.last().sha256@),
        )
    }
}

/// The uploads of packs: each under the key that its bytes name.
pub open spec fn pack_uploads(packs: Seq<FinishedPack>, prefix: KeyPrefix) -> Seq<UploadModel> {
    Seq::new(
        packs.len(),
        |i: int|
            UploadModel {
                key: prefix.pack_text(packs[i].sha256@),
                file: packs[i].sha256@,
                bytes: packs[i].bytes,
            },
    )
}

/// The sizes of packs.
pub open spec fn pack_sizes(packs: Seq<FinishedPack>) -> Seq<u64> {
    Seq::new(packs.len(), |i: int| packs[i].bytes)
}

impl ClassWork {
    /// Whether the maps are in order.
    pub open spec fn wf(&self) -> bool {
        self.index.wf() && self.chunks.wf()
    }

    /// Work on `index`, nothing packed yet.
    pub fn new(index: TreeIndex) -> (r: Self)
        requires
            index.wf(),
        ensures
            r.wf(),
            r.index == index,
            r.packs@.len() == 0,
            r.chunks@ == Map::<Seq<u8>, String>::empty(),
    {
        ClassWork { index, packs: Vec::new(), chunks: SortedMap::new() }
    }

    /// Note the files that an attempt read before it yielded, so that the next one does not read
    /// them again. A torn file is read again, for the next attempt may find it at rest.
    pub fn remember(&mut self, reads: &SortedMap<String, FileRead>)
        requires
            old(self).wf(),
            reads.wf(),
        ensures
            final(self).wf(),
            final(self).packs == old(self).packs,
            final(self).chunks == old(self).chunks,
            forall|v: Seq<char>| #[trigger]
                final(self).index.files@.dom().contains(v) <==> old(
                    self,
                ).index.files@.dom().contains(v) || is_settled(reads@, v),
            forall|v: Seq<char>| #[trigger]
                is_settled(reads@, v) ==> final(self).index.files@[v].stat == reads@[v].stat
                    && final(self).index.files@[v].chunks@ == reads@[v].chunks@,
            forall|v: Seq<char>| #[trigger]
                old(self).index.files@.dom().contains(v) && !is_settled(reads@, v)
                    ==> final(self).index.files@[v] == old(self).index.files@[v],
    {
        let ghost before = self.index.files@;
        let ghost keys = reads.keys@;
        let mut i: usize = 0;
        while i < reads.keys.len()
            invariant
                0 <= i <= keys.len(),
                keys == reads.keys@,
                before == old(self).index.files@,
                self.wf(),
                reads.wf(),
                self.packs == old(self).packs,
                self.chunks == old(self).chunks,
                forall|v: Seq<char>| #[trigger]
                    self.index.files@.dom().contains(v) <==> before.dom().contains(v) || (
                    is_settled(reads@, v) && order::spot(keys, v) < i),
                forall|v: Seq<char>| #[trigger]
                    is_settled(reads@, v) && order::spot(keys, v) < i ==> self.index.files@[v].stat
                        == reads@[v].stat && self.index.files@[v].chunks@ == reads@[v].chunks@,
                forall|v: Seq<char>| #[trigger]
                    before.dom().contains(v) && !(is_settled(reads@, v) && order::spot(keys, v)
                        < i) ==> self.index.files@[v] == before[v],
            decreases keys.len() - i,
        {
            let read: &FileRead = &reads.values[i];
            proof {
                order::lemma_spot(keys, i as int);
                assert(reads@.dom().contains(keys[i as int]@));
                assert(reads@[keys[i as int]@] == *read);
                assert forall|v: Seq<char>| #[trigger]
                    is_settled(reads@, v) && order::spot(keys, v) == i implies v
                    == keys[i as int]@ by {}
            }
            if !read.torn {
                let file: IndexedFile = IndexedFile {
                    stat: read.stat,
                    chunks: vstd::slice::slice_to_vec(read.chunks.as_slice()),
                };
                let earlier: Option<IndexedFile> = self.index.files.insert(
                    reads.keys[i].clone(),
                    file,
                );
            }
            i = i + 1;
        }
        proof {
            assert forall|v: Seq<char>| #[trigger] is_settled(reads@, v) implies order::spot(
                keys,
                v,
            ) < i by {
                assert(order::holds(keys, v));
            }
        }
    }

    /// Note the packs that an attempt finished: their uploads, where their chunks are, and the
    /// counters.
    pub fn add_packs(&mut self, prefix: &KeyPrefix, packs: &Vec<FinishedPack>, stats: &mut SnapStats)
        requires
            old(self).wf(),
        ensures
            final(self).wf(),
            final(self).index == old(self).index,
            located(final(self).chunks@) == with_packs(located(old(self).chunks@), packs@, *prefix),
            order::views(final(self).packs@) == order::views(old(self).packs@) + pack_uploads(
                packs@,
                *prefix,
            ),
            *final(stats) == (SnapStats {
                cdc_packs: count::capped(old(stats).cdc_packs as nat + packs@.len()) as u64,
                cdc_pack_bytes: count::capped(
                    old(stats).cdc_pack_bytes as nat + count::total(pack_sizes(packs@)),
                ) as u64,
                ..*old(stats)
            }),
    {
        let ghost chunks0 = located(self.chunks@);
        let ghost uploads0 = order::views(self.packs@);
        let mut i: usize = 0;
        proof {
            assert(packs@.take(0) =~= Seq::empty());
            assert(pack_uploads(packs@.take(0), *prefix) =~= Seq::empty());
            assert(uploads0 + pack_uploads(packs@.take(0), *prefix) =~= uploads0);
            assert(pack_sizes(packs@.take(0)) =~= Seq::empty());
        }
        while i < packs.len()
            invariant
                0 <= i <= packs@.len(),
                self.wf(),
                self.index == old(self).index,
                located(self.chunks@) == with_packs(chunks0, packs@.take(i as int), *prefix),
                order::views(self.packs@) == uploads0 + pack_uploads(
                    packs@.take(i as int),
                    *prefix,
                ),
                *stats == (SnapStats {
                    cdc_packs: count::capped(old(stats).cdc_packs as nat + i as nat) as u64,
                    cdc_pack_bytes: count::capped(
                        old(stats).cdc_pack_bytes as nat + count::total(
                            pack_sizes(packs@.take(i as int)),
                        ),
                    ) as u64,
                    ..*old(stats)
                }),
            decreases packs@.len() - i,
        {
            let p: &FinishedPack = &packs[i];
            let key: String = prefix.pack(p.sha256.as_str());
            let ghost front = located(self.chunks@);
            let mut j: usize = 0;
            assert(p.entries@.take(0) =~= Seq::empty());
            while j < p.entries.len()
                invariant
                    0 <= j <= p.entries@.len(),
                    self.wf(),
                    self.index == old(self).index,
                    order::views(self.packs@) == uploads0 + pack_uploads(
                        packs@.take(i as int),
                        *prefix,
                    ),
                    located(self.chunks@) == with_entries(front, p.entries@.take(j as int), key@),
                decreases p.entries@.len() - j,
            {
                let ghost before = self.chunks@;
                let earlier: Option<String> = self.chunks.insert(p.entries[j].hash, key.clone());
                proof {
                    let t = p.entries@.take(j + 1);
                    assert(t.drop_last() =~= p.entries@.take(j as int));
                    assert(t.last() == p.entries@[j as int]);
                    assert(located(self.chunks@) =~= located(before).insert(
                        p.entries@[j as int].hash@,
                        key@,
                    ));
                }
                j = j + 1;
            }
            assert(p.entries@.take(p.entries@.len() as int) =~= p.entries@);
            let ghost ups = order::views(self.packs@);
            self.packs.push(Upload { key, file: p.sha256.clone(), bytes: p.bytes });
            stats.cdc_packs = stats.cdc_packs.saturating_add(1);
            stats.cdc_pack_bytes = stats.cdc_pack_bytes.saturating_add(p.bytes);
            proof {
                let t = packs@.take(i + 1);
                assert(t.drop_last() =~= packs@.take(i as int));
                assert(t.last() == *p);
                assert(order::views(self.packs@) =~= ups.push(self.packs@.last()@));
                assert(pack_uploads(t, *prefix) =~= pack_uploads(
                    packs@.take(i as int),
                    *prefix,
                ).push(self.packs@.last()@));
                assert(uploads0 + pack_uploads(t, *prefix) =~= (uploads0 + pack_uploads(
                    packs@.take(i as int),
                    *prefix,
                )).push(self.packs@.last()@));
                assert(pack_sizes(t).drop_last() =~= pack_sizes(packs@.take(i as int)));
            }
            i = i + 1;
        }
        assert(packs@.take(packs@.len() as int) =~= packs@);
    }
}

/// A staged capture: its manifest, key and numbers.
pub struct StagedCapture {
    /// Chain position.
    pub n: u64,
    /// The manifest.
    pub manifest: EncodedManifest,
    /// Manifest key.
    pub manifest_key: String,
    /// Kind.
    pub kind: CaptureKind,
    /// Class snapped.
    pub class: Class,
    /// Numbers.
    pub stats: SnapStats,
    /// Nothing changed since the previous capture: nothing was staged, and `n`, `manifest` and
    /// `manifest_key` name the previous capture.
    pub unchanged: bool,
}

/// The outcome of a preemptible snap.
pub enum SnapOutcome {
    /// Staged (or unchanged).
    Staged(Box<StagedCapture>),
    /// A bulk build stopped at a chunk boundary; call again to resume.
    Preempted,
}

/// What a class build comes to.
pub struct ClassResult {
    /// Key of the root dir object.
    pub root: String,
    /// Every pack the tree needs, in order.
    pub packs: Vec<String>,
    /// The dir objects to write to staging, by sha256.
    pub fresh_dirs: Vec<String>,
    /// Chunks that the tree references and no pack holds.
    pub missing: SortedSet<ChunkId>,
}

impl ClassResult {
    /// Whether this is what a built tree comes to, with the packs in which chunks are located: the
    /// key of its root, and the pack of every chunk that is in one, in order.
    pub open spec fn is_of(
        &self,
        built: BuiltTree,
        prefix: KeyPrefix,
        packs: Map<Seq<u8>, String>,
    ) -> bool {
        &&& self.root@ == prefix.tree_text(built.root.sha256@)
        &&& order::ascending(self.packs@)
        &&& forall|k: Seq<char>| #[trigger]
            text::among(self.packs@, k) <==> exists|id: Seq<u8>| #[trigger]
                built.chunks.has(id) && packs.dom().contains(id) && packs[id]@ == k
        &&& self.missing.wf()
        &&& forall|id: Seq<u8>| #[trigger]
            self.missing.has(id) <==> built.chunks.has(id) && !packs.dom().contains(id)
    }
}

/// The staging file of a dir object.
pub open spec fn tree_file(sha: Seq<char>) -> Seq<char> {
    "tree-"@ + sha
}

/// The uploads of dir objects that are not uploaded yet.
pub open spec fn dir_uploads(
    shas: Seq<String>,
    sizes: Seq<nat>,
    prefix: KeyPrefix,
    acked: SortedSet<String>,
) -> Seq<UploadModel>
    decreases shas.len(),
{
    if shas.len() == 0 {
        Seq::empty()
    } else {
        let front = dir_uploads(shas.drop_last(), sizes.drop_last(), prefix, acked);
        let sha = shas.last()@;
        if acked.has(tree_file(sha)) {
            front
        } else {
            front.push(
                UploadModel {
                    key: prefix.tree_text(sha),
                    file: tree_file(sha),
                    bytes: sizes.last() as u64,
                },
            )
        }
    }
}

/// The sizes of dir objects.
pub open spec fn dir_sizes(dirs: Seq<crate::tree::EncodedDir>) -> Seq<nat> {
    Seq::new(dirs.len(), |i: int| dirs[i].bytes@.len())
}

/// The dir objects that are neither uploaded nor in staging.
pub open spec fn fresh_dirs(
    shas: Seq<String>,
    acked: SortedSet<String>,
    present: SortedSet<String>,
) -> Seq<Seq<char>>
    decreases shas.len(),
{
    if shas.len() == 0 {
        Seq::empty()
    } else {
        let front = fresh_dirs(shas.drop_last(), acked, present);
        let file = tree_file(shas.last()@);
        if acked.has(file) || present.has(file) {
            front
        } else {
            front.push(shas.last()@)
        }
    }
}

/// The engine.
pub struct CaptureEngine {
    /// Configuration.
    pub settings: CaptureConfig,
    /// Key prefix.
    pub prefix: KeyPrefix,
    /// The manifests staged (or seeded), in the order of the chain; the last is the one that the
    /// next capture continues from.
    pub history: Vec<EncodedManifest>,
    /// Workspace class index.
    pub workspace_index: TreeIndex,
    /// Bulk class index.
    pub bulk_index: TreeIndex,
    /// A bulk build that yielded.
    pub bulk_work: Option<ClassWork>,
    /// Where chunks are.
    pub chunks: ChunkMap,
    /// Every tip the last git pack covered (refs, reflog entries, index and worktree trees): the
    /// negatives of the next pack. The manifest only carries refs, so reflog-only history would
    /// otherwise be packed again on every snap.
    pub last_tips: Vec<String>,
}

/// Manifests of a chain: each sound, and each further on than those before it.
pub open spec fn is_lineage(h: Seq<EncodedManifest>) -> bool {
    &&& forall|i: int| 0 <= i < h.len() ==> (#[trigger] h[i]).manifest.wf()
    &&& forall|i: int, j: int|
        0 <= i < j < h.len() ==> (#[trigger] h[i]).manifest.n < (#[trigger] h[j]).manifest.n
}

/// How many manifests of a chain stand before position `n`.
pub open spec fn standing_before(h: Seq<EncodedManifest>, n: u64) -> nat
    decreases h.len(),
{
    if h.len() == 0 {
        0
    } else if h.last().manifest.n < n {
        h.len()
    } else {
        standing_before(h.drop_last(), n)
    }
}

/// The capture that a chain continues from.
pub open spec fn newest(h: Seq<EncodedManifest>) -> Option<EncodedManifest> {
    if h.len() > 0 {
        Some(h.last())
    } else {
        None
    }
}

/// The git packs of a chain's newest capture.
pub open spec fn packs_so_far(h: Seq<EncodedManifest>) -> Seq<String> {
    if h.len() > 0 {
        h.last().manifest.sections.git.packs@
    } else {
        Seq::empty()
    }
}

impl CaptureEngine {
    /// Whether the maps are in order and the history is a chain.
    pub open spec fn wf(&self) -> bool {
        &&& self.workspace_index.wf()
        &&& self.bulk_index.wf()
        &&& self.bulk_work is Some ==> self.bulk_work->0.wf()
        &&& self.chunks.wf()
        &&& is_lineage(self.history@)
    }

    /// Open the engine on what was persisted. `previous` is the chain head this executor continues
    /// from (the plan's head after materialize), or `None` for an empty chain. Chunk locations of
    /// another epoch or worktree are left behind.
    pub fn open(
        config: CaptureConfig,
        previous: Option<EncodedManifest>,
        workspace_index: TreeIndex,
        bulk_index: TreeIndex,
        chunks: ChunkMap,
        last_tips: Vec<String>,
    ) -> (r: Self)
        requires
            workspace_index.wf(),
            bulk_index.wf(),
            chunks.wf(),
            previous is Some ==> previous->0.manifest.wf(),
        ensures
            r.wf(),
            r.settings == config,
            r.prefix.worktree_id == config.worktree_id,
            r.prefix.epoch == config.epoch,
            newest(r.history@) == previous,
            r.history@.len() <= 1,
            r.workspace_index == workspace_index,
            r.bulk_index == bulk_index,
            r.bulk_work is None,
            forall|id: Seq<u8>| #[trigger]
                r.chunks.packs@.dom().contains(id) <==> chunks.packs@.dom().contains(id)
                    && text::has_prefix(chunks.packs@[id]@, r.prefix.base_text() + "/"@),
            forall|id: Seq<u8>| #[trigger]
                r.chunks.packs@.dom().contains(id) ==> r.chunks.packs@[id] == chunks.packs@[id],
            r.last_tips == last_tips,
    {
        let prefix: KeyPrefix = config.prefix();
        let mut base: String = prefix.base();
        base.append("/");
        let mut history: Vec<EncodedManifest> = Vec::new();
        if let Some(p) = previous {
            history.push(p);
        }
        CaptureEngine {
            settings: config,
            prefix,
            history,
            workspace_index,
            bulk_index,
            bulk_work: None,
            chunks: chunks.retain_under(base.as_str()),
            last_tips,
        }
    }

    /// Configuration.
    #[must_use]
    pub fn config(&self) -> (r: &CaptureConfig)
        ensures
            *r == self.settings,
    {
        &self.settings
    }

    /// The last staged (or seeded) manifest.
    #[must_use]
    pub fn previous(&self) -> (r: Option<&EncodedManifest>)
        ensures
            match r {
                Some(p) => newest(self.history@) == Some(*p),
                None => newest(self.history@) is None,
            },
    {
        let n: usize = self.history.len();
        if n == 0 {
            None
        } else {
            Some(&self.history[n - 1])
        }
    }

    /// Whether a bulk build is paused mid-way (it yielded to a small-class snap).
    #[must_use]
    pub fn bulk_in_progress(&self) -> (r: bool)
        ensures
            r == self.bulk_work is Some,
    {
        self.bulk_work.is_some()
    }

    /// Whether a small-class capture has to be made first: a bulk capture copies the small
    /// sections from its predecessor.
    pub fn needs_small_first(&self, req: &SnapRequest) -> (r: bool)
        ensures
            r == (req.class == Class::Bulk && self.history@.len() == 0),
    {
        req.class == Class::Bulk && self.history.len() == 0
    }

    /// After materializing the head into the root: what the chain holds is what the next pack may
    /// leave out, and nothing else. What the disk holds beyond that still has to ship.
    pub fn seed_tips(&mut self)
        requires
            old(self).wf(),
        ensures
            final(self).wf(),
            *final(self) == (CaptureEngine { last_tips: final(self).last_tips, ..*old(self) }),
            forall|s: Seq<char>| #[trigger]
                text::among(final(self).last_tips@, s) <==> old(self).history@.len() > 0
                    && old(self).history@.last().manifest.is_tip(s),
    {
        let tips: Vec<String> = match self.previous() {
            Some(p) => p.manifest.git_tips(),
            None => Vec::new(),
        };
        self.last_tips = tips;
    }

    /// The tips that the chain is known to hold: those of the previous capture, and all that the
    /// last pack covered. In order, each once.
    pub fn previous_tips(&self) -> (r: Vec<String>)
        requires
            self.wf(),
        ensures
            order::ascending(r@),
            forall|s: Seq<char>| #[trigger]
                text::among(r@, s) <==> text::among(self.last_tips@, s) || (self.history@.len() > 0
                    && self.history@.last().manifest.is_tip(s)),
    {
        let mut tips: Vec<String> = match self.previous() {
            Some(p) => p.manifest.git_tips(),
            None => Vec::new(),
        };
        let ghost chain = tips@;
        let mut more: Vec<String> = text::copy_all(&self.last_tips);
        tips.append(&mut more);
        let r: Vec<String> = text::sorted_unique(&tips);
        assert forall|s: Seq<char>| #[trigger]
            text::among(r@, s) <==> text::among(self.last_tips@, s) || (self.history@.len() > 0
                && self.history@.last().manifest.is_tip(s)) by {
            assert(text::among(r@, s) <==> text::among(tips@, s));
            text::lemma_among_concat(chain, self.last_tips@, s);
        }
        r
    }

    /// Begin (or resume) the work on a class. A small build takes the index with it; a bulk build
    /// that yielded goes on where it stopped, and otherwise works on a copy.
    pub fn begin(&mut self, class: Class) -> (r: ClassWork)
        requires
            old(self).wf(),
        ensures
            final(self).wf(),
            r.wf(),
            match class {
                Class::Small => {
                    &&& r.index == old(self).workspace_index
                    &&& r.packs@.len() == 0
                    &&& r.chunks@ == Map::<Seq<u8>, String>::empty()
                    &&& *final(self) == (CaptureEngine {
                        workspace_index: final(self).workspace_index,
                        ..*old(self)
                    })
                    &&& final(self).workspace_index.files@ == Map::<
                        Seq<char>,
                        IndexedFile,
                    >::empty()
                },
                Class::Bulk => match old(self).bulk_work {
                    Some(w) => r == w && *final(self) == (CaptureEngine {
                        bulk_work: None,
                        ..*old(self)
                    }),
                    None => {
                        &&& old(self).bulk_index.copied(&r.index)
                        &&& r.packs@.len() == 0
                        &&& r.chunks@ == Map::<Seq<u8>, String>::empty()
                        &&& *final(self) == *old(self)
                    },
                },
            },
    {
        match class {
            Class::Small => {
                let mut index: TreeIndex = TreeIndex::empty();
                std::mem::swap(&mut index, &mut self.workspace_index);
                ClassWork::new(index)
            },
            Class::Bulk => match self.bulk_work.take() {
                Some(w) => w,
                None => ClassWork::new(self.bulk_index.copy()),
            },
        }
    }

    /// A build failed: a small build gives its index back, so that it stays whole; a bulk build is
    /// started anew.
    pub fn failed(&mut self, class: Class, work: ClassWork)
        requires
            old(self).wf(),
            work.wf(),
        ensures
            final(self).wf(),
            *final(self) == match class {
                Class::Small => CaptureEngine { workspace_index: work.index, ..*old(self) },
                Class::Bulk => *old(self),
            },
    {
        if class == Class::Small {
            self.workspace_index = work.index;
        }
    }

    /// A bulk build yielded: what it read and packed is kept for the next attempt, and nothing is
    /// committed.
    pub fn yielded(&mut self, work: ClassWork) -> (r: SnapOutcome)
        requires
            old(self).wf(),
            work.wf(),
        ensures
            final(self).wf(),
            r is Preempted,
            *final(self) == (CaptureEngine { bulk_work: Some(work), ..*old(self) }),
    {
        self.bulk_work = Some(work);
        SnapOutcome::Preempted
    }

    /// Commit a finished build: the index, the chunk locations, and the uploads of its packs and of
    /// its dir objects. `acked` holds the files that are uploaded, `present` those in staging.
    pub fn commit(
        &mut self,
        class: Class,
        work: ClassWork,
        built: &BuiltTree,
        acked: &SortedSet<String>,
        present: &SortedSet<String>,
        uploads: &mut Vec<Upload>,
        stats: &mut SnapStats,
    ) -> (r: ClassResult)
        requires
            old(self).wf(),
            work.wf(),
            built.dirs.wf(),
            built.chunks.wf(),
            acked.wf(),
            present.wf(),
        ensures
            final(self).wf(),
            *final(self) == (CaptureEngine {
                workspace_index: final(self).workspace_index,
                bulk_index: final(self).bulk_index,
                chunks: final(self).chunks,
                ..*old(self)
            }),
            final(self).workspace_index == if class == Class::Small {
                work.index
            } else {
                old(self).workspace_index
            },
            final(self).bulk_index == if class == Class::Bulk {
                work.index
            } else {
                old(self).bulk_index
            },
            final(self).chunks.packs@ == old(self).chunks.packs@.union_prefer_right(work.chunks@),
            r.is_of(*built, old(self).prefix, final(self).chunks.packs@),
            order::views(r.fresh_dirs@) == fresh_dirs(built.dirs.keys@, *acked, *present),
            order::views(final(uploads)@) == order::views(old(uploads)@) + order::views(
                work.packs@,
            ) + dir_uploads(
                built.dirs.keys@,
                dir_sizes(built.dirs.values@),
                old(self).prefix,
                *acked,
            ),
            *final(stats) == (SnapStats {
                files: count::capped((old(stats).files + built.stats.files) as nat) as u64,
                files_read: count::capped(
                    (old(stats).files_read + built.stats.files_read) as nat,
                ) as u64,
                bytes_read: count::capped(
                    (old(stats).bytes_read + built.stats.bytes_read) as nat,
                ) as u64,
                chunks: count::capped((old(stats).chunks + built.stats.chunks) as nat) as u64,
                chunks_new: count::capped(
                    (old(stats).chunks_new + built.stats.chunks_new) as nat,
                ) as u64,
                dirs_new: count::capped(
                    old(stats).dirs_new as nat + fresh_dirs(
                        built.dirs.keys@,
                        *acked,
                        *present,
                    ).len(),
                ) as u64,
                torn: count::capped((old(stats).torn + built.stats.torn) as nat) as u64,
                ..*old(stats)
            }),
    {
        let ghost ups0 = order::views(uploads@);
        let ClassWork { index, packs, chunks } = work;
        match class {
            Class::Small => {
                self.workspace_index = index;
            },
            Class::Bulk => {
                self.bulk_index = index;
            },
        }
        self.chunks.packs.extend(chunks);
        let ghost pack_ups = order::views(packs@);
        let mut packs: Vec<Upload> = packs;
        uploads.append(&mut packs);
        assert(order::views(uploads@) =~= ups0 + pack_ups);
        let ghost front = ups0 + pack_ups;
        let (needed, missing) = find_packs(&built.chunks, &self.chunks);
        let mut fresh: Vec<String> = Vec::new();
        let ghost shas = built.dirs.keys@;
        let ghost sizes = dir_sizes(built.dirs.values@);
        let mut i: usize = 0;
        let ghost st0 = *stats;
        proof {
            assert(shas.take(0) =~= Seq::empty());
            assert(order::views(fresh@) =~= fresh_dirs(shas.take(0), *acked, *present));
            assert(front + dir_uploads(shas.take(0), sizes.take(0), self.prefix, *acked) =~= front);
        }
        while i < built.dirs.keys.len()
            invariant
                0 <= i <= shas.len(),
                shas == built.dirs.keys@,
                sizes == dir_sizes(built.dirs.values@),
                built.dirs.wf(),
                acked.wf(),
                present.wf(),
                order::views(fresh@) == fresh_dirs(shas.take(i as int), *acked, *present),
                order::views(uploads@) == front + dir_uploads(
                    shas.take(i as int),
                    sizes.take(i as int),
                    self.prefix,
                    *acked,
                ),
                *stats == (SnapStats {
                    dirs_new: count::capped(st0.dirs_new as nat + fresh@.len()) as u64,
                    ..st0
                }),
            decreases shas.len() - i,
        {
            let sha: &String = &built.dirs.keys[i];
            let file: String = text::concat("tree-", sha.as_str());
            let done: bool = acked.contains(&file);
            proof {
                let t = shas.take(i + 1);
                let u = sizes.take(i + 1);
                assert(t.drop_last() =~= shas.take(i as int));
                assert(u.drop_last() =~= sizes.take(i as int));
                assert(t.last() == *sha);
                assert(u.last() == built.dirs.values@[i as int].bytes@.len());
            }
            if !done && !present.contains(&file) {
                let ghost before = order::views(fresh@);
                fresh.push(sha.clone());
                stats.dirs_new = stats.dirs_new.saturating_add(1);
                assert(order::views(fresh@) =~= before.push(sha@));
            }
            if !done {
                let ghost before = order::views(uploads@);
                let up: Upload = Upload {
                    key: self.prefix.tree(sha.as_str()),
                    file,
                    bytes: built.dirs.values[i].bytes.len() as u64,
                };
                uploads.push(up);
                assert(order::views(uploads@) =~= before.push(up@));
                assert(front + dir_uploads(
                    shas.take(i + 1),
                    sizes.take(i + 1),
                    self.prefix,
                    *acked,
                ) =~= (front + dir_uploads(
                    shas.take(i as int),
                    sizes.take(i as int),
                    self.prefix,
                    *acked,
                )).push(up@));
            }
            i = i + 1;
        }
        proof {
            assert(shas.take(shas.len() as int) =~= shas);
            assert(sizes.take(sizes.len() as int) =~= sizes);
            assert(order::views(fresh@).len() == fresh@.len());
            assert forall|k: Seq<char>| #[trigger]
                text::among(needed.items@, k) <==> exists|id: Seq<u8>| #[trigger]
                    built.chunks.has(id) && self.chunks.packs@.dom().contains(id)
                        && self.chunks.packs@[id]@ == k by {
                assert(needed.has(k) <==> text::among(needed.items@, k));
            }
        }
        stats.files = stats.files.saturating_add(built.stats.files);
        stats.files_read = stats.files_read.saturating_add(built.stats.files_read);
        stats.bytes_read = stats.bytes_read.saturating_add(built.stats.bytes_read);
        stats.chunks = stats.chunks.saturating_add(built.stats.chunks);
        stats.chunks_new = stats.chunks_new.saturating_add(built.stats.chunks_new);
        stats.torn = stats.torn.saturating_add(built.stats.torn);
        ClassResult {
            root: self.prefix.tree(built.root.sha256.as_str()),
            packs: needed.items,
            fresh_dirs: fresh,
            missing,
        }
    }
}

/// The packs that hold the chunks of a tree, and the chunks that none holds.
fn find_packs(tree: &SortedSet<ChunkId>, chunks: &ChunkMap) -> (r: (
    SortedSet<String>,
    SortedSet<ChunkId>,
))
    requires
        tree.wf(),
        chunks.wf(),
    ensures
        r.0.wf(),
        r.1.wf(),
        forall|k: Seq<char>| #[trigger]
            r.0.has(k) <==> exists|id: Seq<u8>| #[trigger]
                tree.has(id) && chunks.packs@.dom().contains(id) && chunks.packs@[id]@ == k,
        forall|id: Seq<u8>| #[trigger]
            r.1.has(id) <==> tree.has(id) && !chunks.packs@.dom().contains(id),
{
    let mut needed: SortedSet<String> = SortedSet::new();
    let mut missing: SortedSet<ChunkId> = SortedSet::new();
    let ghost all = tree.items@;
    let mut i: usize = 0;
    while i < tree.items.len()
        invariant
            0 <= i <= all.len(),
            all == tree.items@,
            chunks.wf(),
            needed.wf(),
            missing.wf(),
            forall|k: Seq<char>| #[trigger]
                needed.has(k) <==> exists|j: int|
                    0 <= j < i && chunks.packs@.dom().contains((#[trigger] all[j])@)
                        && chunks.packs@[all[j]@]@ == k,
            forall|id: Seq<u8>| #[trigger]
                missing.has(id) <==> exists|j: int|
                    0 <= j < i && (#[trigger] all[j])@ == id && !chunks.packs@.dom().contains(id),
        decreases all.len() - i,
    {
        let id: ChunkId = tree.items[i];
        let ghost needed0 = needed;
        let ghost missing0 = missing;
        match chunks.packs.get(&id) {
            Some(k) => {
                let added: bool = needed.insert(k.clone());
            },
            None => {
                let added: bool = missing.insert(id);
            },
        }
        proof {
            assert forall|k: Seq<char>| #[trigger]
                needed.has(k) <==> exists|j: int|
                    0 <= j < i + 1 && chunks.packs@.dom().contains((#[trigger] all[j])@)
                        && chunks.packs@[all[j]@]@ == k by {
                assert(all[i as int] == id);
                if needed0.has(k) {
                    let j = choose|j: int|
                        0 <= j < i && chunks.packs@.dom().contains((#[trigger] all[j])@)
                            && chunks.packs@[all[j]@]@ == k;
                    assert(0 <= j < i + 1 && chunks.packs@.dom().contains(all[j]@));
                }
            }
            assert forall|x: Seq<u8>| #[trigger]
                missing.has(x) <==> exists|j: int|
                    0 <= j < i + 1 && (#[trigger] all[j])@ == x
                        && !chunks.packs@.dom().contains(x) by {
                assert(all[i as int] == id);
                if missing0.has(x) {
                    let j = choose|j: int|
                        0 <= j < i && (#[trigger] all[j])@ == x
                            && !chunks.packs@.dom().contains(x);
                    assert(0 <= j < i + 1 && all[j]@ == x);
                }
            }
        }
        i = i + 1;
    }
    proof {
        assert forall|k: Seq<char>| #[trigger]
            needed.has(k) <==> exists|id: Seq<u8>| #[trigger]
                tree.has(id) && chunks.packs@.dom().contains(id) && chunks.packs@[id]@ == k by {
            if needed.has(k) {
                let j = choose|j: int|
                    0 <= j < i && chunks.packs@.dom().contains((#[trigger] all[j])@)
                        && chunks.packs@[all[j]@]@ == k;
                assert(tree.has(all[j]@));
            }
            if exists|id: Seq<u8>| #[trigger]
                tree.has(id) && chunks.packs@.dom().contains(id) && chunks.packs@[id]@ == k {
                let id = choose|id: Seq<u8>| #[trigger]
                    tree.has(id) && chunks.packs@.dom().contains(id) && chunks.packs@[id]@ == k;
                let j = order::spot(all, id);
                assert(0 <= j < all.len() && all[j]@ == id);
            }
        }
        assert forall|id: Seq<u8>| #[trigger]
            missing.has(id) <==> tree.has(id) && !chunks.packs@.dom().contains(id) by {
            if tree.has(id) {
                let j = order::spot(all, id);
                assert(0 <= j < all.len() && all[j]@ == id);
            }
            if missing.has(id) {
                let j = choose|j: int|
                    0 <= j < i && (#[trigger] all[j])@ == id && !chunks.packs@.dom().contains(id);
                assert(all[j]@ == id);
            }
        }
    }
    (needed, missing)
}

/// The key of a new git pack, if there is one.
pub open spec fn new_pack_keys(prefix: KeyPrefix, pack: Option<FinishedGitPack>) -> Seq<Seq<char>> {
    match pack {
        Some(p) => seq![prefix.pack_text(p.sha256@)],
        None => Seq::empty(),
    }
}

/// The uploads of a new git pack and of its index.
pub open spec fn git_uploads(
    prefix: KeyPrefix,
    pack: Option<FinishedGitPack>,
    idx_bytes: u64,
) -> Seq<UploadModel> {
    match pack {
        Some(p) => seq![
            UploadModel { key: prefix.pack_text(p.sha256@), file: p.sha256@, bytes: p.bytes },
            UploadModel {
                key: prefix.pack_idx_text(p.sha256@),
                file: p.sha256@ + ".idx"@,
                bytes: idx_bytes,
            },
        ],
        None => Seq::empty(),
    }
}

/// The staging file of a manifest.
pub open spec fn manifest_file(capture_id: Seq<char>) -> Seq<char> {
    "manifest-"@ + capture_id
}

/// The uploads of a capture that was coalesced away that its replacement carries on: all but the
/// manifest, which is superseded. The new manifest may list any of the others.
pub open spec fn carried(uploads: Seq<Upload>, capture_id: Seq<char>) -> Seq<UploadModel>
    decreases uploads.len(),
{
    if uploads.len() == 0 {
        Seq::empty()
    } else {
        let front = carried(uploads.drop_last(), capture_id);
        if uploads.last().file@ == manifest_file(capture_id) {
            front
        } else {
            front.push(uploads.last()@)
        }
    }
}

/// Whether a list of uploads names a file.
pub open spec fn has_file(s: Seq<UploadModel>, file: Seq<char>) -> bool {
    exists|i: int| 0 <= i < s.len() && (#[trigger] s[i]).file == file
}

/// A list of uploads with those of another whose files it does not name yet.
pub open spec fn merged(base: Seq<UploadModel>, more: Seq<Upload>) -> Seq<UploadModel>
    decreases more.len(),
{
    if more.len() == 0 {
        base
    } else {
        let front = merged(base, more.drop_last());
        if has_file(front, more.last().file@) {
            front
        } else {
            front.push(more.last()@)
        }
    }
}

/// The sizes of uploads.
pub open spec fn upload_sizes(s: Seq<UploadModel>) -> Seq<u64> {
    Seq::new(s.len(), |i: int| s[i].bytes)
}

/// The queued capture that a snap coalesces with: only an automatic one does, and only with one
/// that is not being shipped.
pub open spec fn coalesced(kind: CaptureKind, staging: Staging, pending: Seq<QueueEntry>) -> Option<
    QueueEntry,
> {
    if kind == CaptureKind::Auto && staging.may_coalesce(pending) {
        Some(pending.last())
    } else {
        None
    }
}

/// Where a capture stands on the chain: in the place of the one it is coalesced with, or behind the
/// newest.
pub open spec fn chain_position(old: Option<QueueEntry>, h: Seq<EncodedManifest>) -> nat {
    match old {
        Some(e) => e.n as nat,
        None => if h.len() > 0 {
            (h.last().manifest.n + 1) as nat
        } else {
            0
        },
    }
}

/// The parent of a capture: that of the one it is coalesced with, or the newest.
pub open spec fn chain_parent(old: Option<QueueEntry>, h: Seq<EncodedManifest>) -> Option<String> {
    match old {
        Some(e) => e.register.parent,
        None => if h.len() > 0 {
            Some(h.last().capture_id)
        } else {
            None
        },
    }
}

/// A capture to put in the queue.
pub struct Snapped {
    /// The capture.
    pub capture: StagedCapture,
    /// Its queue entry.
    pub entry: QueueEntry,
    /// The queued capture whose place it takes, by its id.
    pub replaces: Option<String>,
}

/// How a snap ends.
pub enum Concluded {
    /// Nothing new: the previous capture stands for it.
    Unchanged {
        /// The previous capture.
        capture: StagedCapture,
        /// The object files to remove.
        removed: SortedSet<String>,
    },
    /// A new capture.
    Staged(Snapped),
}

fn carry_on(uploads: &Vec<Upload>, capture_id: &str) -> (r: Vec<Upload>)
    ensures
        order::views(r@) == carried(uploads@, capture_id@),
{
    let superseded: String = text::concat("manifest-", capture_id);
    let mut out: Vec<Upload> = Vec::new();
    let mut i: usize = 0;
    proof {
        assert(uploads@.take(0) =~= Seq::empty());
        assert(order::views(out@) =~= carried(uploads@.take(0), capture_id@));
    }
    while i < uploads.len()
        invariant
            0 <= i <= uploads@.len(),
            superseded@ == manifest_file(capture_id@),
            order::views(out@) == carried(uploads@.take(i as int), capture_id@),
        decreases uploads@.len() - i,
    {
        proof {
            let t = uploads@.take(i + 1);
            assert(t.drop_last() =~= uploads@.take(i as int));
            assert(t.last() == uploads@[i as int]);
        }
        if !text::str_eq(uploads[i].file.as_str(), superseded.as_str()) {
            let ghost before = order::views(out@);
            out.push(uploads[i].copy());
            assert(order::views(out@) =~= before.push(uploads@[i as int]@));
        }
        i = i + 1;
    }
    assert(uploads@.take(uploads@.len() as int) =~= uploads@);
    out
}

fn merge(base: Vec<Upload>, more: &Vec<Upload>) -> (r: Vec<Upload>)
    ensures
        order::views(r@) == merged(order::views(base@), more@),
{
    let ghost start = order::views(base@);
    let mut out: Vec<Upload> = base;
    let mut i: usize = 0;
    assert(more@.take(0) =~= Seq::empty());
    while i < more.len()
        invariant
            0 <= i <= more@.len(),
            order::views(out@) == merged(start, more@.take(i as int)),
        decreases more@.len() - i,
    {
        let ghost front = order::views(out@);
        proof {
            let t = more@.take(i + 1);
            assert(t.drop_last() =~= more@.take(i as int));
            assert(t.last() == more@[i as int]);
        }
        let named: bool = ship::names(&out, more[i].file.as_str());
        proof {
            let f = more@[i as int].file@;
            if named {
                let j = choose|j: int| 0 <= j < out@.len() && (#[trigger] out@[j]).file@ == f;
                assert(front[j].file == f);
            }
            if has_file(front, f) {
                let j = choose|j: int| 0 <= j < front.len() && (#[trigger] front[j]).file == f;
                assert(out@[j].file@ == f);
            }
        }
        if !named {
            out.push(more[i].copy());
            assert(order::views(out@) =~= front.push(more@[i as int]@));
        }
        i = i + 1;
    }
    assert(more@.take(more@.len() as int) =~= more@);
    out
}

fn sum_sizes(uploads: &Vec<Upload>) -> (r: u64)
    ensures
        r == count::capped(count::total(upload_sizes(order::views(uploads@)))),
{
    let mut sizes: Vec<u64> = Vec::new();
    let mut i: usize = 0;
    while i < uploads.len()
        invariant
            0 <= i <= uploads@.len(),
            sizes@.len() == i,
            forall|j: int| 0 <= j < i ==> #[trigger] sizes@[j] == uploads@[j].bytes,
        decreases uploads@.len() - i,
    {
        sizes.push(uploads[i].bytes);
        i = i + 1;
    }
    assert(sizes@ =~= upload_sizes(order::views(uploads@)));
    count::sum(&sizes)
}

impl CaptureEngine {
    /// Take the git pack of a snap: the section it makes, with every pack before it, and the nested
    /// repositories. What the pack covered is what the next one leaves out.
    pub fn take_git(
        &mut self,
        git: GitPackResult,
        idx_bytes: u64,
        uploads: &mut Vec<Upload>,
        stats: &mut SnapStats,
    ) -> (r: (GitSection, Vec<String>))
        requires
            old(self).wf(),
            git.closure.wf(),
        ensures
            final(self).wf(),
            *final(self) == (CaptureEngine { last_tips: git.closure.tips, ..*old(self) }),
            r.0.wf(),
            order::views(r.0.packs@) == order::views(packs_so_far(old(self).history@))
                + new_pack_keys(old(self).prefix, git.pack),
            r.0.refs == git.closure.refs,
            r.0.head == git.closure.head,
            r.0.fsck == git.fsck,
            r.1 == git.closure.gitlinks,
            order::views(final(uploads)@) == order::views(old(uploads)@) + git_uploads(
                old(self).prefix,
                git.pack,
                idx_bytes,
            ),
            *final(stats) == match git.pack {
                Some(p) => SnapStats {
                    git_attempts: git.attempts,
                    git_pack_bytes: p.bytes,
                    git_objects: p.objects,
                    ..*old(stats)
                },
                None => SnapStats { git_attempts: git.attempts, ..*old(stats) },
            },
    {
        let ghost h = self.history@;
        let ghost ups0 = order::views(uploads@);
        let mut packs: Vec<String> = match self.previous() {
            Some(p) => text::copy_all(&p.manifest.sections.git.packs),
            None => Vec::new(),
        };
        assert(packs@ =~= packs_so_far(h));
        let ghost packs0 = order::views(packs@);
        stats.git_attempts = git.attempts;
        match &git.pack {
            Some(p) => {
                stats.git_pack_bytes = p.bytes;
                stats.git_objects = p.objects;
                let key: String = self.prefix.pack(p.sha256.as_str());
                uploads.push(Upload { key: key.clone(), file: p.sha256.clone(), bytes: p.bytes });
                uploads.push(
                    Upload {
                        key: self.prefix.pack_idx(p.sha256.as_str()),
                        file: text::concat(p.sha256.as_str(), ".idx"),
                        bytes: idx_bytes,
                    },
                );
                packs.push(key);
                proof {
                    assert(order::views(packs@) =~= packs0 + new_pack_keys(self.prefix, git.pack));
                    assert(order::views(uploads@) =~= ups0 + git_uploads(
                        self.prefix,
                        git.pack,
                        idx_bytes,
                    ));
                }
            },
            None => {
                proof {
                    assert(order::views(packs@) =~= packs0 + new_pack_keys(self.prefix, git.pack));
                    assert(order::views(uploads@) =~= ups0 + git_uploads(
                        self.prefix,
                        git.pack,
                        idx_bytes,
                    ));
                }
            },
        }
        let GitPackResult { pack: _, closure, fsck, attempts: _ } = git;
        let Closure { refs, head, tips, gitlinks } = closure;
        self.last_tips = tips;
        (GitSection { packs, refs, head, fsck }, gitlinks)
    }

    /// The sections of a small-class capture: what was built, and the bulk section carried on.
    pub fn small_sections(&self, git: GitSection, root: String, packs: Vec<String>) -> (r: Sections)
        requires
            self.wf(),
            git.wf(),
        ensures
            r.wf(),
            r.git == git,
            r.workspace == (WorkspaceSection { root, packs }),
            if self.history@.len() > 0 {
                self.history@.last().manifest.sections.bulk.copied(&r.bulk)
            } else {
                r.bulk == BulkState::Pending(PendingTag::Pending)
            },
    {
        let bulk: BulkState = match self.previous() {
            Some(p) => p.manifest.sections.bulk.copy(),
            None => BulkState::pending(),
        };
        Sections { git, workspace: WorkspaceSection { root, packs }, bulk }
    }

    /// The sections of a bulk-class capture: what was built, for this platform, and the small
    /// sections carried on. There is none without a capture to carry them from.
    pub fn bulk_sections(&self, root: String, packs: Vec<String>) -> (r: Option<Sections>)
        requires
            self.wf(),
        ensures
            match r {
                None => self.history@.len() == 0,
                Some(s) => {
                    &&& self.history@.len() > 0
                    &&& s.wf()
                    &&& s.bulk == BulkState::Ready(
                        BulkSection { root, packs, platform: self.settings.platform },
                    )
                    &&& (Sections {
                        bulk: s.bulk,
                        ..self.history@.last().manifest.sections
                    }).copied(&s)
                },
            },
    {
        match self.previous() {
            None => None,
            Some(p) => {
                let git: GitSection = p.manifest.sections.git.copy();
                let workspace: WorkspaceSection = p.manifest.sections.workspace.copy();
                Some(
                    Sections {
                        git,
                        workspace,
                        bulk: BulkState::Ready(
                            BulkSection { root, packs, platform: self.settings.platform.clone() },
                        ),
                    },
                )
            },
        }
    }

    /// Whether a snap found nothing new.
    pub open spec fn nothing_new(&self, kind: CaptureKind, sections: Sections) -> bool {
        kind == CaptureKind::Auto && self.history@.len() > 0
            && self.history@.last().manifest.sections.alike(&sections)
    }

    /// Whether a snap found nothing new: an automatic snap then stages nothing rather than growing
    /// the chain.
    pub fn is_unchanged(&self, kind: CaptureKind, sections: &Sections) -> (r: bool)
        ensures
            r == self.nothing_new(kind, *sections),
    {
        if kind != CaptureKind::Auto {
            return false;
        }
        match self.previous() {
            Some(p) => p.manifest.sections.same(sections),
            None => false,
        }
    }

    /// What an unchanged snap leaves: the previous capture stands for it, the files that no queued
    /// capture lists go, and no chunk stays located in a pack that goes with them.
    pub open spec fn stands_for(
        &self,
        after: CaptureEngine,
        req: SnapRequest,
        uploads: Seq<Upload>,
        stats: SnapStats,
        pending: Seq<QueueEntry>,
        capture: StagedCapture,
        removed: SortedSet<String>,
    ) -> bool {
        let prev = self.history@.last();
        &&& self.history@.len() > 0
        &&& after == (CaptureEngine { chunks: after.chunks, ..*self })
        &&& capture.unchanged
        &&& capture.n == prev.manifest.n
        &&& prev.manifest.copied(&capture.manifest.manifest)
        &&& capture.manifest.capture_id == prev.capture_id
        &&& capture.manifest.bytes@ == prev.bytes@
        &&& capture.manifest_key@ == self.prefix.manifest_text(prev.capture_id@)
        &&& capture.kind == req.kind
        &&& capture.class == req.class
        &&& capture.stats == stats
        &&& removed.wf()
        &&& forall|f: Seq<char>| #[trigger]
            removed.has(f) <==> ship::names_file(uploads, f) && !ship::lists(pending, f)
        &&& forall|id: Seq<u8>| #[trigger]
            after.chunks.packs@.dom().contains(id) <==> self.chunks.packs@.dom().contains(id)
                && !goes_with(uploads, removed, self.chunks.packs@[id]@)
        &&& forall|id: Seq<u8>| #[trigger]
            after.chunks.packs@.dom().contains(id) ==> after.chunks.packs@[id]
                == self.chunks.packs@[id]
    }

    /// A snap found nothing new: the previous capture stands for it. Gives the object files to
    /// remove, which are those that no queued capture lists; no chunk stays located in a pack that
    /// goes with them.
    pub fn unchanged(
        &mut self,
        req: &SnapRequest,
        uploads: &Vec<Upload>,
        stats: SnapStats,
        pending: &Vec<QueueEntry>,
    ) -> (r: Option<(StagedCapture, SortedSet<String>)>)
        requires
            old(self).wf(),
        ensures
            final(self).wf(),
            *final(self) == (CaptureEngine { chunks: final(self).chunks, ..*old(self) }),
            match r {
                None => old(self).history@.len() == 0 && final(self).chunks == old(self).chunks,
                Some((capture, removed)) => old(self).stands_for(
                    *final(self),
                    *req,
                    uploads@,
                    stats,
                    pending@,
                    capture,
                    removed,
                ),
            },
    {
        let capture: StagedCapture = match self.previous() {
            None => {
                return None;
            },
            Some(p) => StagedCapture {
                n: p.manifest.n,
                manifest: p.copy(),
                manifest_key: self.prefix.manifest(p.capture_id.as_str()),
                kind: req.kind,
                class: req.class,
                stats,
                unchanged: true,
            },
        };
        let removed: SortedSet<String> = ship::discard_unreferenced(pending, uploads);
        let gone: Vec<String> = keys_that_go(uploads, &removed);
        self.chunks.forget(&gone);
        Some((capture, removed))
    }

    /// Whether the chain can take a capture: it can unless its newest has the last position.
    pub open spec fn has_room(&self, before: Option<QueueEntry>) -> bool {
        before is None && self.history@.len() > 0 ==> self.history@.last().manifest.n < u64::MAX
    }

    /// What staging a capture does: its place on the chain, its manifest, and everything it has to
    /// upload. The new capture takes the place of `before`, if there is one, and carries on what
    /// that one had to upload.
    pub open spec fn staged_as(
        &self,
        after: CaptureEngine,
        req: SnapRequest,
        sections: Sections,
        uploads: Seq<Upload>,
        stats: SnapStats,
        created_at: String,
        before: Option<QueueEntry>,
        r: Snapped,
    ) -> bool {
        let n = chain_position(before, self.history@);
        let m = r.capture.manifest;
        let base = match before {
            Some(e) => carried(e.uploads@, e.capture_id@),
            None => Seq::empty(),
        };
        let objects = merged(base, uploads);
        let last = UploadModel {
            key: self.prefix.manifest_text(m.capture_id@),
            file: manifest_file(m.capture_id@),
            bytes: m.bytes@.len() as u64,
        };
        let kept = standing_before(self.history@, n as u64);
        &&& after == (CaptureEngine { history: after.history, ..*self })
        &&& after.history@.len() == kept + 1
        &&& after.history@.drop_last() == self.history@.take(kept as int)
        &&& m.manifest.copied(&after.history@.last().manifest)
        &&& after.history@.last().capture_id == m.capture_id
        &&& after.history@.last().bytes@ == m.bytes@
        &&& m.wf()
        &&& m.manifest == (Manifest {
            worktree_id: self.settings.worktree_id,
            n: n as u64,
            parent: chain_parent(before, self.history@),
            epoch: self.settings.epoch,
            seq: req.seq,
            kind: req.kind,
            created_at,
            sections,
            checkpoint: None,
        })
        &&& m.bytes@ == crate::json::document_bytes(m.manifest.written())
        &&& r.capture.n == n
        &&& r.capture.manifest_key@ == last.key
        &&& r.capture.kind == req.kind
        &&& r.capture.class == req.class
        &&& !r.capture.unchanged
        &&& r.capture.stats == (SnapStats {
            staged_bytes: count::capped(count::total(upload_sizes(objects.push(last)))) as u64,
            ..stats
        })
        &&& r.entry.n == n
        &&& r.entry.capture_id == m.capture_id
        &&& r.entry.kind == req.kind
        &&& r.entry.class == Some(req.class)
        &&& order::views(r.entry.uploads@) == objects.push(last)
        &&& r.entry.register.worktree_id == self.settings.worktree_id
        &&& r.entry.register.epoch == self.settings.epoch
        &&& r.entry.register.n == n
        &&& r.entry.register.parent == chain_parent(before, self.history@)
        &&& r.entry.register.capture_id == m.capture_id
        &&& r.entry.register.manifest_key == r.capture.manifest_key
        &&& m.manifest.copied(&r.entry.register.manifest)
        &&& r.entry.register.manifest.wf()
        &&& r.replaces == match before {
            Some(e) => Some(e.capture_id),
            None => None,
        }
    }

    /// Stage a capture: its place on the chain, its manifest, and everything it has to upload, the
    /// manifest last.
    pub fn stage(
        &mut self,
        req: &SnapRequest,
        sections: Sections,
        uploads: &Vec<Upload>,
        stats: SnapStats,
        created_at: String,
        staging: &Staging,
        pending: &Vec<QueueEntry>,
    ) -> (r: Snapped)
        requires
            old(self).wf(),
            sections.wf(),
            old(self).has_room(coalesced(req.kind, *staging, pending@)),
        ensures
            final(self).wf(),
            old(self).staged_as(
                *final(self),
                *req,
                sections,
                uploads@,
                stats,
                created_at,
                coalesced(req.kind, *staging, pending@),
                r,
            ),
    {
        let ghost h = self.history@;
        let old_entry: Option<&QueueEntry> = if req.kind == CaptureKind::Auto {
            staging.coalescible(pending)
        } else {
            None
        };
        let (n, parent): (u64, Option<String>) = match old_entry {
            Some(e) => (e.n, text::copy_opt(&e.register.parent)),
            None => match self.previous() {
                Some(p) => (p.manifest.n + 1, Some(p.capture_id.clone())),
                None => (0, None),
            },
        };
        let m: EncodedManifest = (Manifest {
            worktree_id: self.settings.worktree_id.clone(),
            n,
            parent: text::copy_opt(&parent),
            epoch: self.settings.epoch,
            seq: req.seq,
            kind: req.kind,
            created_at,
            sections,
            checkpoint: None,
        }).encode();
        let manifest_key: String = self.prefix.manifest(m.capture_id.as_str());
        let base: Vec<Upload> = match old_entry {
            Some(e) => carry_on(&e.uploads, e.capture_id.as_str()),
            None => Vec::new(),
        };
        assert(old_entry is None ==> order::views(base@) =~= Seq::empty());
        let mut all: Vec<Upload> = merge(base, uploads);
        let ghost objects = order::views(all@);
        let last: Upload = Upload {
            key: manifest_key.clone(),
            file: text::concat("manifest-", m.capture_id.as_str()),
            bytes: m.bytes.len() as u64,
        };
        all.push(last);
        assert(order::views(all@) =~= objects.push(last@));
        let mut stats: SnapStats = stats;
        stats.staged_bytes = sum_sizes(&all);
        let entry: QueueEntry = QueueEntry {
            n,
            capture_id: m.capture_id.clone(),
            kind: req.kind,
            class: Some(req.class),
            uploads: all,
            register: RegisterRequest {
                worktree_id: self.settings.worktree_id.clone(),
                epoch: self.settings.epoch,
                n,
                parent,
                capture_id: m.capture_id.clone(),
                manifest_key: manifest_key.clone(),
                manifest: m.manifest.copy(),
            },
        };
        let replaces: Option<String> = match old_entry {
            Some(e) => Some(e.capture_id.clone()),
            None => None,
        };
        self.go_back_before(n);
        let ghost kept = self.history@;
        self.history.push(m.copy());
        proof {
            assert(self.history@.drop_last() =~= kept);
        }
        Snapped {
            capture: StagedCapture {
                n,
                manifest: m,
                manifest_key,
                kind: req.kind,
                class: req.class,
                stats,
                unchanged: false,
            },
            entry,
            replaces,
        }
    }

    /// Stage a capture now, by this machine's clock.
    pub fn stage_now(
        &mut self,
        req: &SnapRequest,
        sections: Sections,
        uploads: &Vec<Upload>,
        stats: SnapStats,
        staging: &Staging,
        pending: &Vec<QueueEntry>,
    ) -> (r: Snapped)
        requires
            old(self).wf(),
            sections.wf(),
            old(self).has_room(coalesced(req.kind, *staging, pending@)),
        ensures
            final(self).wf(),
            old(self).staged_as(
                *final(self),
                *req,
                sections,
                uploads@,
                stats,
                r.capture.manifest.manifest.created_at,
                coalesced(req.kind, *staging, pending@),
                r,
            ),
            exists|secs: i64|
                calendar::is_rfc3339_of(
                    r.capture.manifest.manifest.created_at@,
                    secs as int,
                ),
    {
        self.stage(req, sections, uploads, stats, manifest::rfc3339_now(), staging, pending)
    }

    /// How a snap ends: the previous capture stands for an automatic one that found nothing new, and
    /// any other is staged, made at some time.
    pub open spec fn concluded_as(
        &self,
        after: CaptureEngine,
        req: SnapRequest,
        sections: Sections,
        uploads: Seq<Upload>,
        stats: SnapStats,
        staging: Staging,
        pending: Seq<QueueEntry>,
        r: Concluded,
    ) -> bool {
        match r {
            Concluded::Unchanged { capture, removed } => {
                &&& self.nothing_new(req.kind, sections)
                &&& self.stands_for(after, req, uploads, stats, pending, capture, removed)
            },
            Concluded::Staged(snapped) => {
                &&& !self.nothing_new(req.kind, sections)
                &&& self.staged_as(
                    after,
                    req,
                    sections,
                    uploads,
                    stats,
                    snapped.capture.manifest.manifest.created_at,
                    coalesced(req.kind, staging, pending),
                    snapped,
                )
                &&& exists|secs: i64|
                    calendar::is_rfc3339_of(
                        snapped.capture.manifest.manifest.created_at@,
                        secs as int,
                    )
            },
        }
    }

    /// Bring a snap to its end: an automatic one that found nothing new stages nothing, any other
    /// becomes a capture, made now by this machine's clock.
    pub fn conclude(
        &mut self,
        req: &SnapRequest,
        sections: Sections,
        uploads: &Vec<Upload>,
        stats: SnapStats,
        staging: &Staging,
        pending: &Vec<QueueEntry>,
    ) -> (r: Concluded)
        requires
            old(self).wf(),
            sections.wf(),
            old(self).nothing_new(req.kind, sections) || old(self).has_room(
                coalesced(req.kind, *staging, pending@),
            ),
        ensures
            final(self).wf(),
            old(self).concluded_as(
                *final(self),
                *req,
                sections,
                uploads@,
                stats,
                *staging,
                pending@,
                r,
            ),
    {
        if self.is_unchanged(req.kind, &sections) {
            if let Some((capture, removed)) = self.unchanged(req, uploads, stats, pending) {
                return Concluded::Unchanged { capture, removed };
            }
        }
        Concluded::Staged(self.stage_now(req, sections, uploads, stats, staging, pending))
    }

    /// Apply the refusals that came in since the last snap, in their order.
    pub fn apply_refusals(&mut self, refusals: &Vec<RefusedCapture>)
        requires
            old(self).wf(),
        ensures
            final(self).wf(),
            *final(self) == (CaptureEngine {
                history: final(self).history,
                chunks: final(self).chunks,
                last_tips: final(self).last_tips,
                ..*old(self)
            }),
            final(self).history@ == gone_back(old(self).history@, refusals@),
            forall|id: Seq<u8>| #[trigger]
                final(self).chunks.packs@.dom().contains(id) <==> old(
                    self,
                ).chunks.packs@.dom().contains(id) && !any_has_key(
                    refusals@,
                    old(self).chunks.packs@[id]@,
                ),
            forall|id: Seq<u8>| #[trigger]
                final(self).chunks.packs@.dom().contains(id) ==> final(self).chunks.packs@[id]
                    == old(self).chunks.packs@[id],
            if exists|i: int|
                0 <= i < refusals@.len() && (#[trigger] refusals@[i]).class != Some(Class::Bulk) {
                final(self).last_tips@.len() == 0
            } else {
                final(self).last_tips == old(self).last_tips
            },
    {
        let mut i: usize = 0;
        assert(refusals@.take(0) =~= Seq::empty());
        while i < refusals.len()
            invariant
                self.wf(),
                i <= refusals@.len(),
                *self == (CaptureEngine {
                    history: self.history,
                    chunks: self.chunks,
                    last_tips: self.last_tips,
                    ..*old(self)
                }),
                self.history@ == gone_back(old(self).history@, refusals@.take(i as int)),
                forall|id: Seq<u8>| #[trigger]
                    self.chunks.packs@.dom().contains(id) <==> old(
                        self,
                    ).chunks.packs@.dom().contains(id) && !any_has_key(
                        refusals@.take(i as int),
                        old(self).chunks.packs@[id]@,
                    ),
                forall|id: Seq<u8>| #[trigger]
                    self.chunks.packs@.dom().contains(id) ==> self.chunks.packs@[id] == old(
                        self,
                    ).chunks.packs@[id],
                if exists|j: int|
                    0 <= j < i && (#[trigger] refusals@[j]).class != Some(Class::Bulk) {
                    self.last_tips@.len() == 0
                } else {
                    self.last_tips == old(self).last_tips
                },
            decreases refusals@.len() - i,
        {
            let ghost done = refusals@.take(i as int);
            let ghost next = refusals@.take(i as int + 1);
            let ghost was = *self;
            self.apply_refusal(&refusals[i]);
            proof {
                assert(next.drop_last() =~= done);
                assert(next.last() == refusals@[i as int]);
                assert forall|key: Seq<char>| #[trigger] any_has_key(next, key) <==> (
                any_has_key(done, key) || has_key(refusals@[i as int].uploads@, key)) by {
                    if any_has_key(done, key) {
                        let j = choose|j: int|
                            0 <= j < done.len() && has_key((#[trigger] done[j]).uploads@, key);
                        assert(next[j] == done[j]);
                    }
                    if has_key(refusals@[i as int].uploads@, key) {
                        assert(next[i as int] == refusals@[i as int]);
                    }
                    if any_has_key(next, key) {
                        let j = choose|j: int|
                            0 <= j < next.len() && has_key((#[trigger] next[j]).uploads@, key);
                        if j < i {
                            assert(done[j] == next[j]);
                        }
                    }
                }
                assert forall|id: Seq<u8>| #[trigger]
                    self.chunks.packs@.dom().contains(id) <==> old(
                        self,
                    ).chunks.packs@.dom().contains(id) && !any_has_key(
                        next,
                        old(self).chunks.packs@[id]@,
                    ) by {
                    if was.chunks.packs@.dom().contains(id) {
                        assert(was.chunks.packs@[id] == old(self).chunks.packs@[id]);
                    }
                }
                assert forall|id: Seq<u8>| #[trigger]
                    self.chunks.packs@.dom().contains(id) implies self.chunks.packs@[id] == old(
                    self,
                ).chunks.packs@[id] by {
                    assert(was.chunks.packs@.dom().contains(id));
                }
            }
            i += 1;
        }
        assert(refusals@.take(i as int) =~= refusals@);
    }

    /// Go back to the newest capture before position `n`.
    fn go_back_before(&mut self, n: u64)
        requires
            old(self).wf(),
        ensures
            final(self).wf(),
            *final(self) == (CaptureEngine { history: final(self).history, ..*old(self) }),
            final(self).history@ == old(self).history@.take(
                standing_before(old(self).history@, n) as int,
            ),
            final(self).history@.len() == standing_before(old(self).history@, n),
            final(self).history@.len() > 0 ==> final(self).history@.last().manifest.n < n,
    {
        let ghost h = self.history@;
        assert(h.take(h.len() as int) =~= h);
        while self.history.len() > 0 && self.history[self.history.len() - 1].manifest.n >= n
            invariant
                self.wf(),
                *self == (CaptureEngine { history: self.history, ..*old(self) }),
                h == old(self).history@,
                self.history@.len() <= h.len(),
                self.history@ == h.take(self.history@.len() as int),
                standing_before(h, n) == standing_before(self.history@, n),
            decreases self.history@.len(),
        {
            let ghost before = self.history@;
            let gone: Option<EncodedManifest> = self.history.pop();
            proof {
                assert(self.history@ =~= before.drop_last());
                assert(self.history@ =~= h.take(self.history@.len() as int));
                assert(is_lineage(self.history@)) by {
                    assert forall|i: int, j: int| 0 <= i < j < self.history@.len() implies (
                    #[trigger] self.history@[i]).manifest.n < (
                    #[trigger] self.history@[j]).manifest.n by {
                        assert(before[i].manifest.n < before[j].manifest.n);
                    }
                    assert forall|i: int| 0 <= i < self.history@.len() implies (
                    #[trigger] self.history@[i]).manifest.wf() by {
                        assert(before[i].manifest.wf());
                    }
                }
            }
        }
    }

    /// Apply a refusal: continue the chain from before the refused capture, and forget the chunks
    /// whose packs went with it. Unless the refused capture was a bulk one, what its git pack
    /// covered is not on the chain either.
    pub fn apply_refusal(&mut self, refusal: &RefusedCapture)
        requires
            old(self).wf(),
        ensures
            final(self).wf(),
            *final(self) == (CaptureEngine {
                history: final(self).history,
                chunks: final(self).chunks,
                last_tips: final(self).last_tips,
                ..*old(self)
            }),
            final(self).history@ == old(self).history@.take(
                standing_before(old(self).history@, refusal.n) as int,
            ),
            forall|id: Seq<u8>| #[trigger]
                final(self).chunks.packs@.dom().contains(id) <==> old(
                    self,
                ).chunks.packs@.dom().contains(id) && !has_key(
                    refusal.uploads@,
                    old(self).chunks.packs@[id]@,
                ),
            forall|id: Seq<u8>| #[trigger]
                final(self).chunks.packs@.dom().contains(id) ==> final(self).chunks.packs@[id]
                    == old(self).chunks.packs@[id],
            if refusal.class == Some(Class::Bulk) {
                final(self).last_tips == old(self).last_tips
            } else {
                final(self).last_tips@.len() == 0
            },
    {
        self.go_back_before(refusal.n);
        let gone: Vec<String> = all_keys(&refusal.uploads);
        self.chunks.forget(&gone);
        let bulk: bool = match refusal.class {
            Some(Class::Bulk) => true,
            _ => false,
        };
        if !bulk {
            self.last_tips = Vec::new();
        }
    }
}

/// The chain before the earliest of some refused captures.
pub open spec fn gone_back(h: Seq<EncodedManifest>, refusals: Seq<RefusedCapture>) -> Seq<
    EncodedManifest,
>
    decreases refusals.len(),
{
    if refusals.len() == 0 {
        h
    } else {
        let rest = gone_back(h, refusals.drop_last());
        rest.take(standing_before(rest, refusals.last().n) as int)
    }
}

/// Whether the objects of a refused capture, of some, have a key among them.
pub open spec fn any_has_key(refusals: Seq<RefusedCapture>, key: Seq<char>) -> bool {
    exists|j: int| 0 <= j < refusals.len() && has_key((#[trigger] refusals[j]).uploads@, key)
}

/// Whether a list of uploads names a key.
pub open spec fn has_key(uploads: Seq<Upload>, key: Seq<char>) -> bool {
    exists|j: int| 0 <= j < uploads.len() && (#[trigger] uploads[j]).key@ == key
}

/// Whether `key` is that of an upload whose file is removed.
pub open spec fn goes_with(uploads: Seq<Upload>, removed: SortedSet<String>, key: Seq<char>) -> bool {
    exists|j: int|
        0 <= j < uploads.len() && (#[trigger] uploads[j]).key@ == key && removed.has(
            uploads[j].file@,
        )
}

fn keys_that_go(uploads: &Vec<Upload>, removed: &SortedSet<String>) -> (r: Vec<String>)
    requires
        removed.wf(),
    ensures
        forall|k: Seq<char>| #[trigger]
            text::among(r@, k) <==> goes_with(uploads@, *removed, k),
{
    let mut out: Vec<String> = Vec::new();
    let mut i: usize = 0;
    while i < uploads.len()
        invariant
            0 <= i <= uploads@.len(),
            removed.wf(),
            forall|k: Seq<char>| #[trigger]
                text::among(out@, k) <==> goes_with(uploads@.take(i as int), *removed, k),
        decreases uploads@.len() - i,
    {
        let ghost before = out@;
        let u: &Upload = &uploads[i];
        let gone: bool = removed.contains(&u.file);
        if gone {
            out.push(u.key.clone());
        }
        proof {
            let t = uploads@.take(i + 1);
            let s = uploads@.take(i as int);
            assert forall|k: Seq<char>| #[trigger]
                text::among(out@, k) <==> goes_with(t, *removed, k) by {
                assert(text::among(before, k) <==> goes_with(s, *removed, k));
                if gone {
                    text::lemma_among_push(before, u.key, k);
                }
                if goes_with(s, *removed, k) {
                    let j = choose|j: int|
                        0 <= j < s.len() && (#[trigger] s[j]).key@ == k && removed.has(s[j].file@);
                    assert(t[j].key@ == k && removed.has(t[j].file@));
                }
                if goes_with(t, *removed, k) && !(gone && k == u.key@) {
                    let j = choose|j: int|
                        0 <= j < t.len() && (#[trigger] t[j]).key@ == k && removed.has(t[j].file@);
                    assert(j < i);
                    assert(s[j].key@ == k && removed.has(s[j].file@));
                }
                if gone && k == u.key@ {
                    assert(t[i as int].key@ == k && removed.has(t[i as int].file@));
                }
            }
        }
        i = i + 1;
    }
    assert(uploads@.take(uploads@.len() as int) =~= uploads@);
    out
}

fn all_keys(uploads: &Vec<Upload>) -> (r: Vec<String>)
    ensures
        forall|k: Seq<char>| #[trigger] text::among(r@, k) <==> has_key(uploads@, k),
{
    let mut out: Vec<String> = Vec::new();
    let mut i: usize = 0;
    while i < uploads.len()
        invariant
            0 <= i <= uploads@.len(),
            out@.len() == i,
            forall|j: int| 0 <= j < i ==> #[trigger] out@[j] == uploads@[j].key,
        decreases uploads@.len() - i,
    {
        out.push(uploads[i].key.clone());
        i = i + 1;
    }
    assert forall|k: Seq<char>| #[trigger] text::among(out@, k) <==> has_key(uploads@, k) by {
        if text::among(out@, k) {
            let j = choose|j: int| 0 <= j < out@.len() && #[trigger] out@[j]@ == k;
            assert(uploads@[j].key@ == k);
        }
        if has_key(uploads@, k) {
            let j = choose|j: int| 0 <= j < uploads@.len() && (#[trigger] uploads@[j]).key@ == k;
            assert(out@[j]@ == k);
        }
    }
    out
}

proof fn lemma_merged_keeps(base: Seq<UploadModel>, more: Seq<Upload>, file: Seq<char>)
    ensures
        has_file(base, file) ==> has_file(merged(base, more), file),
        ship::names_file(more, file) ==> has_file(merged(base, more), file),
    decreases more.len(),
{
    if more.len() > 0 {
        let front = merged(base, more.drop_last());
        let all = merged(base, more);
        lemma_merged_keeps(base, more.drop_last(), file);
        if has_file(front, file) {
            let i = choose|i: int| 0 <= i < front.len() && (#[trigger] front[i]).file == file;
            assert(all[i].file == file);
        }
        if ship::names_file(more, file) {
            let j = choose|j: int| 0 <= j < more.len() && (#[trigger] more[j]).file@ == file;
            if j < more.len() - 1 {
                assert(more.drop_last()[j].file@ == file);
            } else if !has_file(front, file) {
                assert(all[all.len() - 1].file == file);
            }
        }
    }
}

proof fn lemma_carried(uploads: Seq<Upload>, capture_id: Seq<char>, i: int)
    requires
        0 <= i < uploads.len(),
        uploads[i].file@ != manifest_file(capture_id),
    ensures
        has_file(carried(uploads, capture_id), uploads[i].file@),
    decreases uploads.len(),
{
    let front = carried(uploads.drop_last(), capture_id);
    let all = carried(uploads, capture_id);
    if i == uploads.len() - 1 {
        assert(all[all.len() - 1].file == uploads[i].file@);
    } else {
        lemma_carried(uploads.drop_last(), capture_id, i);
        let j = choose|j: int| 0 <= j < front.len() && (#[trigger] front[j]).file
            == uploads[i].file@;
        assert(all[j].file == uploads[i].file@);
    }
}

/// A capture that takes the place of a queued one lists every object that one listed, its manifest
/// aside: nothing that the new manifest may name is lost.
pub proof fn law_coalescing_loses_no_object(old: QueueEntry, uploads: Seq<Upload>, i: int)
    requires
        0 <= i < old.uploads@.len(),
        old.uploads@[i].file@ != manifest_file(old.capture_id@),
    ensures
        has_file(
            merged(carried(old.uploads@, old.capture_id@), uploads),
            old.uploads@[i].file@,
        ),
{
    lemma_carried(old.uploads@, old.capture_id@, i);
    lemma_merged_keeps(
        carried(old.uploads@, old.capture_id@),
        uploads,
        old.uploads@[i].file@,
    );
}

/// A capture lists every object of its own, whether it takes the place of a queued one or not.
pub proof fn law_a_capture_lists_its_own_objects(
    base: Seq<UploadModel>,
    uploads: Seq<Upload>,
    j: int,
)
    requires
        0 <= j < uploads.len(),
    ensures
        has_file(merged(base, uploads), uploads[j].file@),
{
    assert(ship::names_file(uploads, uploads[j].file@));
    lemma_merged_keeps(base, uploads, uploads[j].file@);
}

/// An automatic snap that finds what the last capture holds gives that capture back: its number, its
/// id, its key and its manifest with the very bytes, while the chain stays as it is and, as long as
/// the capture waits in the queue, none of its files is removed. The engine may have read and built
/// classes since, which leaves the chain alone.
pub proof fn law_an_unchanged_snap_gives_back_the_queued_capture(
    engine: CaptureEngine,
    req: SnapRequest,
    sections: Sections,
    uploads: Seq<Upload>,
    stats: SnapStats,
    created_at: String,
    before: Option<QueueEntry>,
    staged: Snapped,
    after_stage: CaptureEngine,
    later: CaptureEngine,
    req_again: SnapRequest,
    sections_again: Sections,
    uploads_again: Seq<Upload>,
    stats_again: SnapStats,
    staging: Staging,
    pending: Seq<QueueEntry>,
    at: int,
    r: Concluded,
    after: CaptureEngine,
)
    requires
        engine.staged_as(
            after_stage,
            req,
            sections,
            uploads,
            stats,
            created_at,
            before,
            staged,
        ),
        later.history@ == after_stage.history@,
        later.prefix == after_stage.prefix,
        req_again.kind == CaptureKind::Auto,
        sections.alike(&sections_again),
        0 <= at < pending.len(),
        order::views(pending[at].uploads@) == order::views(staged.entry.uploads@),
        later.concluded_as(
            after,
            req_again,
            sections_again,
            uploads_again,
            stats_again,
            staging,
            pending,
            r,
        ),
    ensures
        after.history@ == later.history@,
        r matches Concluded::Unchanged { capture, removed } && {
            &&& capture.unchanged
            &&& capture.n == staged.capture.n
            &&& capture.manifest_key@ == staged.capture.manifest_key@
            &&& capture.manifest.capture_id == staged.capture.manifest.capture_id
            &&& capture.manifest.bytes@ == staged.capture.manifest.bytes@
            &&& staged.capture.manifest.manifest.copied(&capture.manifest.manifest)
            &&& forall|f: Seq<char>| #[trigger]
                ship::names_file(staged.entry.uploads@, f) ==> !removed.has(f)
        },
{
    assert(later.nothing_new(req_again.kind, sections_again));
    if let Concluded::Unchanged { capture, removed } = r {
        assert forall|f: Seq<char>| #[trigger] ship::names_file(
            staged.entry.uploads@,
            f,
        ) implies !removed.has(f) by {
            let mine = staged.entry.uploads@;
            let j = choose|j: int| 0 <= j < mine.len() && (#[trigger] mine[j]).file@ == f;
            let queued = pending[at].uploads@;
            assert(order::views(queued).len() == order::views(mine).len());
            assert(order::views(mine)[j] == mine[j]@);
            assert(order::views(queued)[j] == queued[j]@);
            assert(queued[j].file@ == f);
            assert(ship::names_file(queued, f));
            assert(ship::lists(pending, f));
        }
    }
}

/// A workspace in which nothing changed has the same sections: where a second snap builds the tree
/// of an earlier one again, with each of its chunks still located where it was, and git has nothing
/// to pack and the same refs and head, its sections are those of the earlier one.
pub proof fn law_an_unchanged_workspace_has_the_same_sections(
    listing: &index::Listing,
    plan: Seq<builder::TaskModel>,
    reads: &builder::Reads,
    run: Seq<builder::Pass>,
    prefix: KeyPrefix,
    a: BuiltTree,
    b: BuiltTree,
    files: Map<Seq<char>, IndexedFile>,
    files_again: Map<Seq<char>, IndexedFile>,
    packs: Map<Seq<u8>, String>,
    packs_again: Map<Seq<u8>, String>,
    small: ClassResult,
    small_again: ClassResult,
    git: GitPackResult,
    sections: Sections,
    sections_again: Sections,
)
    requires
        listing.wf(),
        builder::is_plan(listing, plan),
        a.is_build_of(listing, reads, &prefix, files),
        a.stats.torn == 0,
        a.stats.vanished == 0,
        builder::is_as_listed(listing.entries@, a.parts(builder::input_of(listing, reads))),
        builder::is_run(run, plan, files, builder::input_of(listing, reads)),
        forall|id: Seq<u8>| #[trigger] a.chunks.has(id) ==> run[0].stored.contains(id),
        b.is_build_of(listing, &run.last().reads, &prefix, files_again),
        small.is_of(a, prefix, packs),
        small_again.is_of(b, prefix, packs_again),
        forall|id: Seq<u8>| #[trigger]
            a.chunks.has(id) ==> (packs_again.dom().contains(id) <==> packs.dom().contains(id)) && (
            packs.dom().contains(id) ==> packs_again[id]@ == packs[id]@),
        sections.workspace == (WorkspaceSection { root: small.root, packs: small.packs }),
        sections_again.workspace == (WorkspaceSection {
            root: small_again.root,
            packs: small_again.packs,
        }),
        git.pack is None,
        order::views(sections_again.git.packs@) == order::views(sections.git.packs@)
            + new_pack_keys(prefix, git.pack),
        manifest::same_texts(sections.git.refs.keys@, sections_again.git.refs.keys@),
        manifest::same_texts(sections.git.refs.values@, sections_again.git.refs.values@),
        sections_again.git.head@ == sections.git.head@,
        sections_again.git.fsck == sections.git.fsck,
        sections.bulk.copied(&sections_again.bulk),
    ensures
        sections.alike(&sections_again),
{
    builder::law_a_second_build_reads_nothing(
        listing,
        plan,
        reads,
        run,
        &prefix,
        a,
        b,
        files,
        files_again,
    );
    let (p, q) = (small.packs@, small_again.packs@);
    assert forall|k: Seq<char>| #[trigger] order::holds(p, k) <==> order::holds(q, k) by {
        assert(order::holds(p, k) <==> text::among(p, k));
        assert(order::holds(q, k) <==> text::among(q, k));
        if text::among(p, k) {
            let id = choose|id: Seq<u8>| #[trigger]
                a.chunks.has(id) && packs.dom().contains(id) && packs[id]@ == k;
            assert(b.chunks.has(id));
            assert(packs_again[id]@ == k);
        }
        if text::among(q, k) {
            let id = choose|id: Seq<u8>| #[trigger]
                b.chunks.has(id) && packs_again.dom().contains(id) && packs_again[id]@ == k;
            assert(a.chunks.has(id));
            assert(packs[id]@ == k);
        }
    }
    builder::lemma_same_ascending(p, q);
    assert(order::views(sections_again.git.packs@) =~= order::views(sections.git.packs@));
}

proof fn lemma_standing(h: Seq<EncodedManifest>, n: u64)
    ensures
        standing_before(h, n) <= h.len(),
        standing_before(h, n) > 0 ==> h[standing_before(h, n) - 1].manifest.n < n,
    decreases h.len(),
{
    if h.len() > 0 && h.last().manifest.n >= n {
        lemma_standing(h.drop_last(), n);
    }
}

/// After a refusal the next capture takes the refused one's place, or an earlier one: it continues
/// from a capture that stands before it on the chain.
pub proof fn law_the_chain_goes_on_before_a_refused_capture(h: Seq<EncodedManifest>, n: u64)
    requires
        is_lineage(h),
    ensures
        ({
            let rest = h.take(standing_before(h, n) as int);
            &&& chain_position(None, rest) <= n
            &&& newest(rest) is Some ==> newest(rest)->0.manifest.n < n
        }),
{
    lemma_standing(h, n);
}

/// A snap is left out only where it is an automatic one and no part of its sections differs from the
/// previous capture's; any other is staged.
pub proof fn law_a_snap_is_left_out_only_where_nothing_differs(
    engine: &mut CaptureEngine,
    req: SnapRequest,
    sections: Sections,
    uploads: Vec<Upload>,
    stats: SnapStats,
    staging: Staging,
    pending: Vec<QueueEntry>,
    r: Concluded,
)
    requires
        call_ensures(
            CaptureEngine::conclude,
            (engine, &req, sections, &uploads, stats, &staging, &pending),
            r,
        ),
    ensures
        r is Unchanged ==> req.kind == CaptureKind::Auto && old(engine).history@.len() > 0 && {
            let last = old(engine).history@.last().manifest.sections;
            &&& order::views(last.git.packs@) == order::views(sections.git.packs@)
            &&& order::views(last.git.refs.keys@) == order::views(sections.git.refs.keys@)
            &&& order::views(last.git.refs.values@) == order::views(sections.git.refs.values@)
            &&& last.git.head@ == sections.git.head@
            &&& last.git.fsck == sections.git.fsck
            &&& last.workspace.root@ == sections.workspace.root@
            &&& order::views(last.workspace.packs@) == order::views(sections.workspace.packs@)
            &&& last.bulk is Ready <==> sections.bulk is Ready
            &&& last.bulk is Ready ==> last.bulk->Ready_0.root@ == sections.bulk->Ready_0.root@
                && order::views(last.bulk->Ready_0.packs@) == order::views(
                sections.bulk->Ready_0.packs@,
            ) && last.bulk->Ready_0.platform@ == sections.bulk->Ready_0.platform@
        },
        r is Unchanged ==> final(engine).history@ == old(engine).history@,
        req.kind != CaptureKind::Auto ==> r is Staged,
        old(engine).history@.len() == 0 ==> r is Staged,
        old(engine).history@.len() > 0 && old(engine).history@.last().manifest.sections == sections
            && req.kind == CaptureKind::Auto ==> r is Unchanged,
{
}

/// Where the previous capture stands for a snap, its files that no queued capture lists are removed
/// and those alone, and no chunk stays located in a pack that goes.
pub proof fn law_a_snap_left_out_removes_only_its_own_files(
    engine: &mut CaptureEngine,
    req: SnapRequest,
    sections: Sections,
    uploads: Vec<Upload>,
    stats: SnapStats,
    staging: Staging,
    pending: Vec<QueueEntry>,
    capture: StagedCapture,
    removed: SortedSet<String>,
    i: int,
    e: int,
    j: int,
    id: Seq<u8>,
)
    requires
        call_ensures(
            CaptureEngine::conclude,
            (engine, &req, sections, &uploads, stats, &staging, &pending),
            Concluded::Unchanged { capture, removed },
        ),
    ensures
        0 <= i < uploads@.len() && (forall|a: int, b: int|
            0 <= a < pending@.len() && 0 <= b < (#[trigger] pending@[a]).uploads@.len() ==> (
            #[trigger] pending@[a].uploads@[b]).file@ != uploads@[i].file@) ==> removed.has(
            uploads@[i].file@,
        ),
        0 <= e < pending@.len() && 0 <= j < pending@[e].uploads@.len() ==> !removed.has(
            pending@[e].uploads@[j].file@,
        ),
        forall|f: Seq<char>| #[trigger]
            removed.has(f) ==> exists|k: int|
                0 <= k < uploads@.len() && (#[trigger] uploads@[k]).file@ == f,
        0 <= i < uploads@.len() && removed.has(uploads@[i].file@)
            && final(engine).chunks.packs@.dom().contains(id)
            ==> final(engine).chunks.packs@[id]@ != uploads@[i].key@,
        old(engine).chunks.packs@.dom().contains(id) && !final(engine).chunks.packs@.dom().contains(id) ==> exists|k: int|
            0 <= k < uploads@.len() && (#[trigger] uploads@[k]).key@ == old(engine).chunks.packs@[id]@ && removed.has(uploads@[k].file@),
        capture.unchanged && capture.n == old(engine).history@.last().manifest.n
            && capture.manifest.capture_id == old(engine).history@.last().capture_id
            && capture.manifest.bytes@ == old(engine).history@.last().bytes@,
{
    if 0 <= i < uploads@.len() {
        assert(ship::names_file(uploads@, uploads@[i].file@));
        if forall|a: int, b: int|
            0 <= a < pending@.len() && 0 <= b < (#[trigger] pending@[a]).uploads@.len() ==> (
            #[trigger] pending@[a].uploads@[b]).file@ != uploads@[i].file@ {
            if ship::lists(pending@, uploads@[i].file@) {
                let a = choose|a: int|
                    0 <= a < pending@.len() && #[trigger] ship::names_file(
                        pending@[a].uploads@,
                        uploads@[i].file@,
                    );
                let ups = pending@[a].uploads@;
                let b = choose|b: int|
                    0 <= b < ups.len() && (#[trigger] ups[b]).file@ == uploads@[i].file@;
                assert(pending@[a].uploads@[b].file@ != uploads@[i].file@);
            }
        }
    }
    if 0 <= e < pending@.len() && 0 <= j < pending@[e].uploads@.len() {
        let f = pending@[e].uploads@[j].file@;
        assert(ship::names_file(pending@[e].uploads@, f));
        assert(ship::lists(pending@, f));
    }
    if 0 <= i < uploads@.len() && removed.has(uploads@[i].file@)
        && final(engine).chunks.packs@.dom().contains(id) && final(engine).chunks.packs@[id]@
        == uploads@[i].key@ {
        assert(goes_with(uploads@, removed, uploads@[i].key@));
    }
}

/// A capture goes on where the chain ends: the first has no parent and the number 0; a later one has
/// the number after its predecessor's and that one as its parent; and it holds what was snapped, for
/// whom and why.
pub proof fn law_a_capture_follows_the_last_one(
    engine: &mut CaptureEngine,
    req: SnapRequest,
    sections: Sections,
    uploads: Vec<Upload>,
    stats: SnapStats,
    staging: Staging,
    pending: Vec<QueueEntry>,
    s: Snapped,
)
    requires
        call_ensures(
            CaptureEngine::conclude,
            (engine, &req, sections, &uploads, stats, &staging, &pending),
            Concluded::Staged(s),
        ),
        is_lineage(old(engine).history@),
    ensures
        ({
            let m = s.capture.manifest.manifest;
            &&& m.sections == sections
            &&& m.kind == req.kind && m.seq == req.seq
            &&& m.worktree_id == old(engine).settings.worktree_id
            &&& m.epoch == old(engine).settings.epoch
            &&& m.n == s.capture.n && s.entry.n == s.capture.n && s.entry.register.n == s.capture.n
            &&& s.capture.manifest.capture_id@ == chunk::content_name(s.capture.manifest.bytes@)
            &&& s.entry.capture_id == s.capture.manifest.capture_id
            &&& s.entry.register.capture_id == s.capture.manifest.capture_id
            &&& s.entry.register.parent == m.parent
            &&& s.entry.register.manifest_key == s.capture.manifest_key
            &&& s.entry.register.worktree_id == old(engine).settings.worktree_id
            &&& s.entry.register.epoch == old(engine).settings.epoch
            &&& s.entry.kind == req.kind && s.entry.class == Some(req.class)
            &&& s.capture.kind == req.kind && s.capture.class == req.class
            &&& !s.capture.unchanged
            &&& s.replaces is None && old(engine).history@.len() == 0 ==> m.n == 0 && m.parent is None
            &&& s.replaces is None && old(engine).history@.len() > 0 ==> m.n == old(engine).history@.last().manifest.n + 1 && m.parent == Some(
                old(engine).history@.last().capture_id,
            )
            &&& s.replaces is None ==> final(engine).history@.len() == old(engine).history@.len() + 1 && final(engine).history@.drop_last() == old(engine).history@
            &&& final(engine).history@.len() > 0
            &&& final(engine).history@.last().capture_id == s.capture.manifest.capture_id
            &&& final(engine).history@.last().bytes@ == s.capture.manifest.bytes@
            &&& final(engine).history@.last().manifest.n == m.n
        }),
{
    let h = old(engine).history@;
    if s.replaces is None && h.len() > 0 {
        assert(standing_before(h, (h.last().manifest.n + 1) as u64) == h.len());
        assert(h.take(h.len() as int) =~= h);
    }
    if s.replaces is None && h.len() == 0 {
        assert(h.take(0) =~= h);
        assert(final(engine).history@.drop_last() =~= h);
    }
}

/// A snap takes the place of a queued capture only if both are automatic and that one is the newest
/// and not being shipped; it then has its number and parent and carries on all its objects but the
/// manifest.
pub proof fn law_only_automatic_captures_coalesce(
    engine: &mut CaptureEngine,
    req: SnapRequest,
    sections: Sections,
    uploads: Vec<Upload>,
    stats: SnapStats,
    staging: Staging,
    pending: Vec<QueueEntry>,
    s: Snapped,
    i: int,
)
    requires
        call_ensures(
            CaptureEngine::conclude,
            (engine, &req, sections, &uploads, stats, &staging, &pending),
            Concluded::Staged(s),
        ),
    ensures
        s.replaces is Some <==> req.kind == CaptureKind::Auto && pending@.len() > 0
            && pending@.last().kind == CaptureKind::Auto && staging.in_flight != Some(
            pending@.last().n,
        ),
        s.replaces is Some ==> {
            let old_entry = pending@.last();
            &&& s.replaces == Some(old_entry.capture_id)
            &&& s.capture.n == old_entry.n
            &&& s.capture.manifest.manifest.parent == old_entry.register.parent
            &&& 0 <= i < old_entry.uploads@.len() && old_entry.uploads@[i].file@ != "manifest-"@
                + old_entry.capture_id@ ==> ship::names_file(
                s.entry.uploads@,
                old_entry.uploads@[i].file@,
            )
        },
{
    if s.replaces is Some {
        let old_entry = pending@.last();
        if 0 <= i < old_entry.uploads@.len() && old_entry.uploads@[i].file@ != "manifest-"@
            + old_entry.capture_id@ {
            law_coalescing_loses_no_object(old_entry, uploads@, i);
            let base = carried(old_entry.uploads@, old_entry.capture_id@);
            lemma_entry_names(s, merged(base, uploads@), old_entry.uploads@[i].file@);
        }
    }
}

proof fn lemma_entry_names(s: Snapped, objects: Seq<UploadModel>, f: Seq<char>)
    requires
        exists|last: UploadModel| order::views(s.entry.uploads@) == #[trigger] objects.push(last),
        has_file(objects, f),
    ensures
        ship::names_file(s.entry.uploads@, f),
{
    let last = choose|last: UploadModel|
        order::views(s.entry.uploads@) == #[trigger] objects.push(last);
    let k = choose|k: int| 0 <= k < objects.len() && (#[trigger] objects[k]).file == f;
    let all = order::views(s.entry.uploads@);
    assert(all.len() == s.entry.uploads@.len());
    assert(all[k] == objects[k]);
    assert(all[k] == s.entry.uploads@[k]@);
    assert(s.entry.uploads@[k].file@ == f);
}

/// A staged capture uploads every object of the snap, and its manifest last of all, so that a
/// manifest is never there before what it names.
pub proof fn law_a_capture_uploads_its_objects_and_then_its_manifest(
    engine: &mut CaptureEngine,
    req: SnapRequest,
    sections: Sections,
    uploads: Vec<Upload>,
    stats: SnapStats,
    staging: Staging,
    pending: Vec<QueueEntry>,
    s: Snapped,
    i: int,
)
    requires
        call_ensures(
            CaptureEngine::conclude,
            (engine, &req, sections, &uploads, stats, &staging, &pending),
            Concluded::Staged(s),
        ),
    ensures
        0 <= i < uploads@.len() ==> ship::names_file(s.entry.uploads@, uploads@[i].file@),
        s.entry.uploads@.len() > 0,
        s.entry.uploads@.last().key@ == "captures/"@ + old(engine).prefix.worktree_id@ + "/"@
            + text::decimal(old(engine).prefix.epoch as nat) + "/manifests/"@
            + s.capture.manifest.capture_id@,
        s.entry.uploads@.last().file@ == "manifest-"@ + s.capture.manifest.capture_id@,
        s.capture.manifest.bytes@.len() <= u64::MAX ==> s.entry.uploads@.last().bytes
            == s.capture.manifest.bytes@.len(),
        s.capture.manifest_key@ == s.entry.uploads@.last().key@,
{
    let before = coalesced(req.kind, staging, pending@);
    let base = match before {
        Some(e) => carried(e.uploads@, e.capture_id@),
        None => Seq::empty(),
    };
    let objects = merged(base, uploads@);
    if 0 <= i < uploads@.len() {
        law_a_capture_lists_its_own_objects(base, uploads@, i);
        lemma_entry_names(s, objects, uploads@[i].file@);
    }
    let all = order::views(s.entry.uploads@);
    assert(all.len() == s.entry.uploads@.len());
    assert(all.last() == s.entry.uploads@.last()@);
}

/// Two captures in a row make a chain: the second names the first as its parent and stands right
/// behind it.
pub proof fn law_captures_in_a_row_make_a_chain(
    engine: &mut CaptureEngine,
    req: SnapRequest,
    sections: Sections,
    uploads: Vec<Upload>,
    stats: SnapStats,
    staging: Staging,
    pending: Vec<QueueEntry>,
    a: Snapped,
    second: &mut CaptureEngine,
    req_b: SnapRequest,
    sections_b: Sections,
    uploads_b: Vec<Upload>,
    stats_b: SnapStats,
    staging_b: Staging,
    pending_b: Vec<QueueEntry>,
    b: Snapped,
)
    requires
        call_ensures(
            CaptureEngine::conclude,
            (engine, &req, sections, &uploads, stats, &staging, &pending),
            Concluded::Staged(a),
        ),
        old(second).history@ == final(engine).history@,
        call_ensures(
            CaptureEngine::conclude,
            (second, &req_b, sections_b, &uploads_b, stats_b, &staging_b, &pending_b),
            Concluded::Staged(b),
        ),
        b.replaces is None,
        a.capture.n < u64::MAX,
    ensures
        b.capture.n == a.capture.n + 1,
        b.capture.manifest.manifest.parent == Some(a.capture.manifest.capture_id),
{
}

/// The git section of a snap: the packs of the capture before it and then the new one, the refs and
/// the head of the closure, and the uploads of the pack and of its index.
pub proof fn law_git_packs_add_up(
    engine: &mut CaptureEngine,
    git: GitPackResult,
    idx_bytes: u64,
    uploads: &mut Vec<Upload>,
    stats: &mut SnapStats,
    r: (GitSection, Vec<String>),
    i: int,
)
    requires
        old(engine).wf(),
        git.closure.wf(),
        call_ensures(CaptureEngine::take_git, (engine, git, idx_bytes, uploads, stats), r),
    ensures
        old(engine).history@.len() > 0 && 0 <= i < old(engine).history@.last().manifest.sections.git.packs@.len() ==> i < r.0.packs@.len()
            && r.0.packs@[i]@ == old(engine).history@.last().manifest.sections.git.packs@[i]@,
        git.pack matches Some(p) ==> r.0.packs@.len() > 0 && r.0.packs@.last()@ == "captures/"@
            + old(engine).prefix.worktree_id@ + "/"@ + text::decimal(
            old(engine).prefix.epoch as nat,
        ) + "/packs/"@ + p.sha256@,
        git.pack matches Some(p) ==> final(uploads)@.len() == old(uploads)@.len() + 2 && final(uploads)@[old(uploads)@.len() as int].key@ == r.0.packs@.last()@ && final(uploads)@[
            old(uploads)@.len() as int
        ].file@ == p.sha256@ && final(uploads)@[old(uploads)@.len() as int].bytes == p.bytes
            && final(uploads)@.last().key@ == r.0.packs@.last()@ + ".idx"@ && final(uploads)@.last().file@ == p.sha256@ + ".idx"@ && final(uploads)@.last().bytes == idx_bytes,
        git.pack is None ==> order::views(final(uploads)@) == order::views(old(uploads)@),
        git.pack is None ==> r.0.packs@.len() == if old(engine).history@.len() > 0 {
            old(engine).history@.last().manifest.sections.git.packs@.len()
        } else {
            0
        },
        r.0.refs == git.closure.refs && r.0.head == git.closure.head && r.0.fsck == git.fsck,
        r.1 == git.closure.gitlinks,
        final(engine).last_tips == git.closure.tips,
        final(engine).history == old(engine).history,
{
    let so_far = packs_so_far(old(engine).history@);
    let (pv, rv) = (order::views(so_far), order::views(r.0.packs@));
    assert(rv.len() == r.0.packs@.len());
    assert(pv.len() == so_far.len());
    if 0 <= i < so_far.len() {
        assert(rv[i] == pv[i]);
        assert(rv[i] == r.0.packs@[i]@ && pv[i] == so_far[i]@);
    }
    let (ov, fv) = (order::views(old(uploads)@), order::views(final(uploads)@));
    assert(ov.len() == old(uploads)@.len() && fv.len() == final(uploads)@.len());
    if let Some(p) = git.pack {
        assert(rv.last() == r.0.packs@.last()@);
        let more = git_uploads(old(engine).prefix, git.pack, idx_bytes);
        assert(fv[ov.len() as int] == more[0]);
        assert(fv.last() == more[1]);
        assert(fv[ov.len() as int] == final(uploads)@[ov.len() as int]@);
        assert(fv.last() == final(uploads)@.last()@);
    } else {
        assert(fv =~= ov);
    }
}

/// A committed class holds all that its tree needs: its packs are those in which the tree's chunks
/// lie, a chunk in none is reported, every dir object that is not uploaded is, and the new chunks
/// are located from now on.
pub proof fn law_a_committed_class_holds_all_that_it_needs(
    engine: &mut CaptureEngine,
    class: Class,
    work: ClassWork,
    built: BuiltTree,
    acked: SortedSet<String>,
    present: SortedSet<String>,
    uploads: &mut Vec<Upload>,
    stats: &mut SnapStats,
    r: ClassResult,
    id: Seq<u8>,
    i: int,
)
    requires
        old(engine).wf(),
        work.wf(),
        built.dirs.wf(),
        built.chunks.wf(),
        acked.wf(),
        present.wf(),
        call_ensures(
            CaptureEngine::commit,
            (engine, class, work, &built, &acked, &present, uploads, stats),
            r,
        ),
    ensures
        built.chunks.has(id) && work.chunks@.dom().contains(id) ==> order::views(r.packs@).contains(
            work.chunks@[id]@,
        ),
        built.chunks.has(id) && !work.chunks@.dom().contains(id) && old(engine).chunks.packs@.dom().contains(id) ==> order::views(r.packs@).contains(
            old(engine).chunks.packs@[id]@,
        ),
        built.chunks.has(id) && !work.chunks@.dom().contains(id) && !old(engine).chunks.packs@.dom().contains(id) ==> r.missing.has(id),
        r.missing.has(id) ==> built.chunks.has(id),
        work.chunks@.dom().contains(id) ==> final(engine).chunks.packs@.dom().contains(id) && final(engine).chunks.packs@[id] == work.chunks@[id],
        old(engine).chunks.packs@.dom().contains(id) && !work.chunks@.dom().contains(id) ==> final(engine).chunks.packs@.dom().contains(id) && final(engine).chunks.packs@[id] == old(engine).chunks.packs@[id],
        r.root@ == "captures/"@ + old(engine).prefix.worktree_id@ + "/"@ + text::decimal(
            old(engine).prefix.epoch as nat,
        ) + "/trees/"@ + built.root.sha256@,
        0 <= i < built.dirs.keys@.len() && !acked.has("tree-"@ + built.dirs.keys@[i]@)
            ==> ship::names_file(final(uploads)@, "tree-"@ + built.dirs.keys@[i]@),
        0 <= i < built.dirs.keys@.len() && !acked.has("tree-"@ + built.dirs.keys@[i]@)
            && !present.has("tree-"@ + built.dirs.keys@[i]@) ==> order::views(
            r.fresh_dirs@,
        ).contains(built.dirs.keys@[i]@),
        0 <= i < work.packs@.len() ==> ship::names_file(final(uploads)@, work.packs@[i].file@),
        0 <= i < old(uploads)@.len() ==> ship::names_file(
            final(uploads)@,
            old(uploads)@[i].file@,
        ),
        class == Class::Small ==> final(engine).workspace_index == work.index && final(engine).bulk_index == old(engine).bulk_index,
        class == Class::Bulk ==> final(engine).bulk_index == work.index && final(engine).workspace_index == old(engine).workspace_index,
        final(engine).history == old(engine).history,
{
    let packs = final(engine).chunks.packs@;
    if built.chunks.has(id) && packs.dom().contains(id) {
        let k = packs[id]@;
        assert(text::among(r.packs@, k));
        let j = choose|j: int| 0 <= j < r.packs@.len() && #[trigger] r.packs@[j]@ == k;
        assert(order::views(r.packs@)[j] == k);
    }
    let (ov, wv) = (order::views(old(uploads)@), order::views(work.packs@));
    let dv = dir_uploads(
        built.dirs.keys@,
        dir_sizes(built.dirs.values@),
        old(engine).prefix,
        acked,
    );
    let fv = order::views(final(uploads)@);
    assert(fv == ov + wv + dv);
    assert(ov.len() == old(uploads)@.len() && wv.len() == work.packs@.len());
    if 0 <= i < built.dirs.keys@.len() && !acked.has("tree-"@ + built.dirs.keys@[i]@) {
        lemma_dir_uploads(
            built.dirs.keys@,
            dir_sizes(built.dirs.values@),
            old(engine).prefix,
            acked,
            i,
        );
        let k = choose|k: int|
            0 <= k < dv.len() && (#[trigger] dv[k]).file == tree_file(built.dirs.keys@[i]@);
        lemma_view_names(final(uploads)@, (ov.len() + wv.len() + k) as int);
        if !present.has("tree-"@ + built.dirs.keys@[i]@) {
            lemma_fresh_dirs(built.dirs.keys@, acked, present, i);
        }
    }
    if 0 <= i < work.packs@.len() {
        assert(fv[(ov.len() + i) as int] == wv[i]);
        lemma_view_names(final(uploads)@, (ov.len() + i) as int);
        assert(wv[i] == work.packs@[i]@);
    }
    if 0 <= i < old(uploads)@.len() {
        assert(fv[i] == ov[i]);
        lemma_view_names(final(uploads)@, i);
        assert(ov[i] == old(uploads)@[i]@);
    }
}

proof fn lemma_view_names(uploads: Seq<Upload>, k: int)
    requires
        0 <= k < order::views(uploads).len(),
    ensures
        ship::names_file(uploads, order::views(uploads)[k].file),
{
    assert(order::views(uploads).len() == uploads.len());
    assert(order::views(uploads)[k] == uploads[k]@);
    assert(uploads[k].file@ == order::views(uploads)[k].file);
}

proof fn lemma_dir_uploads(
    shas: Seq<String>,
    sizes: Seq<nat>,
    prefix: KeyPrefix,
    acked: SortedSet<String>,
    i: int,
)
    requires
        0 <= i < shas.len(),
        !acked.has(tree_file(shas[i]@)),
    ensures
        exists|k: int|
            0 <= k < dir_uploads(shas, sizes, prefix, acked).len() && (#[trigger] dir_uploads(
                shas,
                sizes,
                prefix,
                acked,
            )[k]).file == tree_file(shas[i]@) && dir_uploads(shas, sizes, prefix, acked)[k].key
                == prefix.tree_text(shas[i]@),
    decreases shas.len(),
{
    let all = dir_uploads(shas, sizes, prefix, acked);
    let front = dir_uploads(shas.drop_last(), sizes.drop_last(), prefix, acked);
    if i < shas.len() - 1 {
        lemma_dir_uploads(shas.drop_last(), sizes.drop_last(), prefix, acked, i);
        let k = choose|k: int|
            0 <= k < front.len() && (#[trigger] front[k]).file == tree_file(shas[i]@)
                && front[k].key == prefix.tree_text(shas[i]@);
        assert(all[k] == front[k]);
    } else {
        assert(all[front.len() as int].file == tree_file(shas[i]@));
    }
}

proof fn lemma_fresh_dirs(
    shas: Seq<String>,
    acked: SortedSet<String>,
    present: SortedSet<String>,
    i: int,
)
    requires
        0 <= i < shas.len(),
        !acked.has(tree_file(shas[i]@)),
        !present.has(tree_file(shas[i]@)),
    ensures
        fresh_dirs(shas, acked, present).contains(shas[i]@),
    decreases shas.len(),
{
    let all = fresh_dirs(shas, acked, present);
    let front = fresh_dirs(shas.drop_last(), acked, present);
    if i < shas.len() - 1 {
        lemma_fresh_dirs(shas.drop_last(), acked, present, i);
        let k = choose|k: int| 0 <= k < front.len() && front[k] == shas[i]@;
        assert(all[k] == front[k]);
    } else {
        assert(all[front.len() as int] == shas[i]@);
    }
}

/// A build that yielded is taken up where it stopped, and a failed one loses nothing that was known
/// before it.
pub proof fn law_a_build_is_taken_up_again(
    engine: &mut CaptureEngine,
    work: ClassWork,
    outcome: SnapOutcome,
    resumes: &mut CaptureEngine,
    resumed: ClassWork,
    begins: &mut CaptureEngine,
    begun: ClassWork,
    fails: &mut CaptureEngine,
    busy: bool,
)
    requires
        old(engine).wf(),
        work.wf(),
        call_ensures(CaptureEngine::yielded, (engine, work), outcome),
        call_ensures(CaptureEngine::bulk_in_progress, (&*final(engine),), busy),
        *old(resumes) == *final(engine),
        call_ensures(CaptureEngine::begin, (resumes, Class::Bulk), resumed),
        old(begins).wf(),
        call_ensures(CaptureEngine::begin, (begins, Class::Small), begun),
        *old(fails) == *final(begins),
        call_ensures(CaptureEngine::failed, (fails, Class::Small, begun), ()),
    ensures
        outcome is Preempted,
        busy,
        resumed == work,
        final(resumes).bulk_work is None,
        final(resumes).bulk_index == old(engine).bulk_index,
        begun.index == old(begins).workspace_index && begun.packs@.len() == 0,
        final(fails).workspace_index == old(begins).workspace_index,
        final(fails).bulk_index == old(begins).bulk_index && final(fails).chunks == old(begins).chunks && final(fails).history == old(begins).history && final(fails).bulk_work == old(begins).bulk_work,
{
}

/// A bulk build that starts afresh starts from what the last one left.
pub proof fn law_a_fresh_bulk_build_starts_from_the_index(
    engine: &mut CaptureEngine,
    r: ClassWork,
)
    requires
        old(engine).wf(),
        old(engine).bulk_work is None,
        call_ensures(CaptureEngine::begin, (engine, Class::Bulk), r),
    ensures
        r.packs@.len() == 0,
        r.index.files.keys@ == old(engine).bulk_index.files.keys@,
        *final(engine) == *old(engine),
{
}

/// What was read before a build yielded is not read again: every file that was not torn is known,
/// with its stat and chunks, and nothing that was known is forgotten.
pub proof fn law_a_yielding_build_remembers_what_it_read(
    work: &mut ClassWork,
    reads: SortedMap<String, FileRead>,
    v: Seq<char>,
)
    requires
        old(work).wf(),
        reads.wf(),
        call_ensures(ClassWork::remember, (work, &reads), ()),
    ensures
        reads@.dom().contains(v) && !reads@[v].torn ==> final(work).index.files@.dom().contains(v)
            && final(work).index.files@[v].stat == reads@[v].stat && final(work).index.files@[v].chunks@ == reads@[v].chunks@,
        old(work).index.files@.dom().contains(v) ==> final(work).index.files@.dom().contains(v),
        old(work).index.files@.dom().contains(v) && (!reads@.dom().contains(v) || reads@[v].torn)
            ==> final(work).index.files@[v] == old(work).index.files@[v],
        !old(work).index.files@.dom().contains(v) && reads@.dom().contains(v) && reads@[v].torn
            ==> !final(work).index.files@.dom().contains(v),
        final(work).packs == old(work).packs && final(work).chunks == old(work).chunks,
{
    assert(is_settled(reads@, v) <==> reads@.dom().contains(v) && !reads@[v].torn);
}

/// Every chunk of a finished pack is located in it and the pack is uploaded under its key, after
/// those before it.
pub proof fn law_finished_packs_are_located_and_uploaded(
    work: &mut ClassWork,
    prefix: KeyPrefix,
    packs: Vec<FinishedPack>,
    stats: &mut SnapStats,
    i: int,
    j: int,
)
    requires
        old(work).wf(),
        call_ensures(ClassWork::add_packs, (work, &prefix, &packs, stats), ()),
        0 <= i < packs@.len(),
        0 <= j < packs@[i].entries@.len(),
    ensures
        final(work).chunks@.dom().contains(packs@[i].entries@[j].hash@),
        i == packs@.len() - 1 ==> final(work).chunks@[packs@[i].entries@[j].hash@]@ == "captures/"@
            + prefix.worktree_id@ + "/"@ + text::decimal(prefix.epoch as nat) + "/packs/"@
            + packs@[i].sha256@,
        final(work).packs@.len() == old(work).packs@.len() + packs@.len(),
        final(work).packs@[old(work).packs@.len() + i].key@ == "captures/"@ + prefix.worktree_id@
            + "/"@ + text::decimal(prefix.epoch as nat) + "/packs/"@ + packs@[i].sha256@,
        final(work).packs@[old(work).packs@.len() + i].file@ == packs@[i].sha256@,
        final(work).packs@[old(work).packs@.len() + i].bytes == packs@[i].bytes,
        final(work).index == old(work).index,
{
    let m = located(final(work).chunks@);
    lemma_with_packs(located(old(work).chunks@), packs@, prefix, i, j);
    let id = packs@[i].entries@[j].hash@;
    assert(m.dom().contains(id));
    assert(m[id] == final(work).chunks@[id]@);
    let (ov, fv) = (order::views(old(work).packs@), order::views(final(work).packs@));
    assert(ov.len() == old(work).packs@.len() && fv.len() == final(work).packs@.len());
    assert(fv[ov.len() + i] == pack_uploads(packs@, prefix)[i]);
    assert(fv[ov.len() + i] == final(work).packs@[ov.len() + i]@);
}

proof fn lemma_with_entries(
    m: Map<Seq<u8>, Seq<char>>,
    entries: Seq<PackIndexEntry>,
    key: Seq<char>,
)
    ensures
        forall|id: Seq<u8>| #[trigger]
            m.dom().contains(id) ==> with_entries(m, entries, key).dom().contains(id),
        forall|j: int|
            0 <= j < entries.len() ==> with_entries(m, entries, key).dom().contains(
                (#[trigger] entries[j]).hash@,
            ) && with_entries(m, entries, key)[entries[j].hash@] == key,
    decreases entries.len(),
{
    if entries.len() > 0 {
        lemma_with_entries(m, entries.drop_last(), key);
        assert forall|j: int| 0 <= j < entries.len() implies with_entries(
            m,
            entries,
            key,
        ).dom().contains((#[trigger] entries[j]).hash@) && with_entries(m, entries, key)[
            entries[j].hash@
        ] == key by {
            if j < entries.len() - 1 {
                assert(entries.drop_last()[j] == entries[j]);
            }
        }
    }
}

proof fn lemma_with_packs(
    m: Map<Seq<u8>, Seq<char>>,
    packs: Seq<FinishedPack>,
    prefix: KeyPrefix,
    i: int,
    j: int,
)
    requires
        0 <= i < packs.len(),
        0 <= j < packs[i].entries@.len(),
    ensures
        with_packs(m, packs, prefix).dom().contains(packs[i].entries@[j].hash@),
        i == packs.len() - 1 ==> with_packs(m, packs, prefix)[packs[i].entries@[j].hash@]
            == prefix.pack_text(packs[i].sha256@),
    decreases packs.len(),
{
    let front = with_packs(m, packs.drop_last(), prefix);
    lemma_with_entries(front, packs.last().entries@, prefix.pack_text(packs.last().sha256@));
    if i < packs.len() - 1 {
        lemma_with_packs(m, packs.drop_last(), prefix, i, j);
        assert(packs.drop_last()[i] == packs[i]);
    } else {
        assert(packs.last().entries@[j] == packs[i].entries@[j]);
    }
}

/// A refused capture leaves the chain with all that follow it, and nothing before it goes; no chunk
/// stays located in a pack that went with it, and unless only bulk was refused the next git pack
/// starts from the chain alone.
pub proof fn law_a_refused_capture_leaves_the_chain(
    engine: &mut CaptureEngine,
    refusal: RefusedCapture,
    i: int,
    j: int,
    id: Seq<u8>,
)
    requires
        old(engine).wf(),
        call_ensures(CaptureEngine::apply_refusal, (engine, &refusal), ()),
    ensures
        0 <= i < final(engine).history@.len() ==> final(engine).history@[i].manifest.n < refusal.n
            && final(engine).history@[i] == old(engine).history@[i],
        0 <= i < old(engine).history@.len() && old(engine).history@[i].manifest.n < refusal.n ==> i
            < final(engine).history@.len(),
        0 <= j < refusal.uploads@.len() && final(engine).chunks.packs@.dom().contains(id)
            ==> final(engine).chunks.packs@[id]@ != refusal.uploads@[j].key@,
        old(engine).chunks.packs@.dom().contains(id) && (forall|k: int|
            0 <= k < refusal.uploads@.len() ==> (#[trigger] refusal.uploads@[k]).key@ != old(engine).chunks.packs@[id]@) ==> final(engine).chunks.packs@.dom().contains(id),
        refusal.class != Some(Class::Bulk) ==> final(engine).last_tips@.len() == 0,
        refusal.class == Some(Class::Bulk) ==> final(engine).last_tips == old(engine).last_tips,
        final(engine).workspace_index == old(engine).workspace_index,
        final(engine).bulk_index == old(engine).bulk_index,
{
    let h = old(engine).history@;
    let k = standing_before(h, refusal.n) as int;
    lemma_standing_exactly(h, refusal.n);
    if 0 <= i < final(engine).history@.len() {
        assert(final(engine).history@[i] == h[i]);
        if i < k - 1 {
            assert(h[i].manifest.n < h[k - 1].manifest.n);
        }
    }
    if 0 <= j < refusal.uploads@.len() && final(engine).chunks.packs@.dom().contains(id) {
        assert(has_key(refusal.uploads@, refusal.uploads@[j].key@));
    }
}

proof fn lemma_standing_exactly(h: Seq<EncodedManifest>, n: u64)
    requires
        is_lineage(h),
    ensures
        standing_before(h, n) <= h.len(),
        standing_before(h, n) > 0 ==> h[standing_before(h, n) - 1].manifest.n < n,
        forall|i: int| standing_before(h, n) <= i < h.len() ==> (#[trigger] h[i]).manifest.n >= n,
    decreases h.len(),
{
    if h.len() > 0 && h.last().manifest.n >= n {
        let front = h.drop_last();
        assert(is_lineage(front)) by {
            assert forall|i: int, j: int| 0 <= i < j < front.len() implies (
            #[trigger] front[i]).manifest.n < (#[trigger] front[j]).manifest.n by {
                assert(h[i].manifest.n < h[j].manifest.n);
            }
            assert forall|i: int| 0 <= i < front.len() implies (
            #[trigger] front[i]).manifest.wf() by {
                assert(h[i].manifest.wf());
            }
        }
        lemma_standing_exactly(front, n);
        assert forall|i: int| standing_before(h, n) <= i < h.len() implies (
        #[trigger] h[i]).manifest.n >= n by {
            if i < front.len() {
                assert(front[i] == h[i]);
            }
        }
    }
}

/// Refusals take effect one after the other, in their order.
pub proof fn law_refusals_take_effect_in_order(
    engine: &mut CaptureEngine,
    some: Vec<RefusedCapture>,
    then: &mut CaptureEngine,
    last: RefusedCapture,
    whole: &mut CaptureEngine,
    all: Vec<RefusedCapture>,
    id: Seq<u8>,
)
    requires
        old(engine).wf(),
        *old(whole) == *old(engine),
        all@ == some@.push(last),
        call_ensures(CaptureEngine::apply_refusals, (engine, &some), ()),
        *old(then) == *final(engine),
        call_ensures(CaptureEngine::apply_refusal, (then, &last), ()),
        call_ensures(CaptureEngine::apply_refusals, (whole, &all), ()),
    ensures
        final(whole).history@ == final(then).history@,
        final(whole).chunks.packs@.dom().contains(id) <==> final(then).chunks.packs@.dom().contains(
            id,
        ),
        some@.len() == 0 ==> final(engine).history@ == old(engine).history@,
{
    assert(all@.drop_last() =~= some@);
    let m = old(engine).chunks.packs@;
    if m.dom().contains(id) {
        let key = m[id]@;
        assert(any_has_key(all@, key) <==> any_has_key(some@, key) || has_key(
            last.uploads@,
            key,
        )) by {
            if any_has_key(some@, key) {
                let j = choose|j: int|
                    0 <= j < some@.len() && has_key((#[trigger] some@[j]).uploads@, key);
                assert(all@[j] == some@[j]);
            }
            if has_key(last.uploads@, key) {
                assert(all@[some@.len() as int] == last);
            }
            if any_has_key(all@, key) {
                let j = choose|j: int|
                    0 <= j < all@.len() && has_key((#[trigger] all@[j]).uploads@, key);
                if j < some@.len() {
                    assert(all@[j] == some@[j]);
                }
            }
        }
    }
}

/// What the next git pack may leave out: what the last pack covered, and every ref and detached head
/// of the previous capture; an engine that was seeded starts from the latter.
pub proof fn law_tips_are_those_already_packed(
    engine: CaptureEngine,
    r: Vec<String>,
    seeded: &mut CaptureEngine,
    i: int,
)
    requires
        engine.wf(),
        call_ensures(CaptureEngine::previous_tips, (&engine,), r),
        *old(seeded) == engine,
        call_ensures(CaptureEngine::seed_tips, (seeded,), ()),
    ensures
        0 <= i < engine.last_tips@.len() ==> text::among(r@, engine.last_tips@[i]@),
        engine.history@.len() > 0 && 0 <= i
            < engine.history@.last().manifest.sections.git.refs.values@.len() ==> text::among(
            r@,
            engine.history@.last().manifest.sections.git.refs.values@[i]@,
        ) && text::among(
            final(seeded).last_tips@,
            engine.history@.last().manifest.sections.git.refs.values@[i]@,
        ),
        engine.history@.len() == 0 ==> forall|s: Seq<char>| #[trigger]
            text::among(r@, s) ==> text::among(engine.last_tips@, s),
        engine.history@.len() == 0 ==> final(seeded).last_tips@.len() == 0,
        final(seeded).history == engine.history,
{
    if 0 <= i < engine.last_tips@.len() {
        assert(text::among(engine.last_tips@, engine.last_tips@[i]@));
    }
    if engine.history@.len() > 0 {
        let m = engine.history@.last().manifest;
        let vs = m.sections.git.refs.values@;
        if 0 <= i < vs.len() {
            assert(text::among(vs, vs[i]@));
            assert(m.is_tip(vs[i]@));
        }
    }
    if engine.history@.len() == 0 && final(seeded).last_tips@.len() > 0 {
        assert(text::among(final(seeded).last_tips@, final(seeded).last_tips@[0]@));
    }
}

/// A capture carries on the class that it did not snap: a small one the bulk section of the capture
/// before it, pending where there is none, and a bulk one the git and workspace sections, for its own
/// platform. There is no bulk capture before a small one.
pub proof fn law_a_capture_carries_on_the_other_class(
    engine: CaptureEngine,
    git: GitSection,
    root: String,
    packs: Vec<String>,
    small: Sections,
    bulk: Option<Sections>,
    req: SnapRequest,
    waits: bool,
)
    requires
        engine.wf(),
        git.wf(),
        call_ensures(CaptureEngine::small_sections, (&engine, git, root, packs), small),
        call_ensures(CaptureEngine::bulk_sections, (&engine, root, packs), bulk),
        call_ensures(CaptureEngine::needs_small_first, (&engine, &req), waits),
    ensures
        small.git == git && small.workspace.root == root && small.workspace.packs == packs,
        engine.history@.len() == 0 ==> !(small.bulk is Ready),
        engine.history@.len() > 0 ==> {
            let last = engine.history@.last().manifest.sections;
            &&& small.bulk is Ready <==> last.bulk is Ready
            &&& last.bulk is Ready ==> small.bulk->Ready_0.root == last.bulk->Ready_0.root
                && small.bulk->Ready_0.packs@ == last.bulk->Ready_0.packs@
                && small.bulk->Ready_0.platform == last.bulk->Ready_0.platform
            &&& bulk matches Some(s) && s.bulk is Ready && s.bulk->Ready_0.root == root
                && s.bulk->Ready_0.packs == packs && s.bulk->Ready_0.platform
                == engine.settings.platform && s.git.packs@ == last.git.packs@ && s.git.head
                == last.git.head && s.git.refs.keys@ == last.git.refs.keys@ && s.git.refs.values@
                == last.git.refs.values@ && s.git.fsck == last.git.fsck && s.workspace.root
                == last.workspace.root && s.workspace.packs@ == last.workspace.packs@
        },
        engine.history@.len() == 0 ==> bulk is None,
        waits <==> req.class == Class::Bulk && bulk is None,
{
}

/// An engine goes on from what was known: the previous capture, the indexes and the tips, and of the
/// chunk locations those under its own prefix, for keys of another epoch are not its to write.
pub proof fn law_an_engine_goes_on_from_what_was_known(
    config: CaptureConfig,
    previous: Option<EncodedManifest>,
    workspace_index: TreeIndex,
    bulk_index: TreeIndex,
    chunks: ChunkMap,
    last_tips: Vec<String>,
    r: CaptureEngine,
    id: Seq<u8>,
    last: Option<&EncodedManifest>,
    busy: bool,
)
    requires
        chunks.wf(),
        call_ensures(
            CaptureEngine::open,
            (config, previous, workspace_index, bulk_index, chunks, last_tips),
            r,
        ),
        call_ensures(CaptureEngine::previous, (&r,), last),
        call_ensures(CaptureEngine::bulk_in_progress, (&r,), busy),
    ensures
        previous is Some <==> last is Some,
        previous matches Some(p) ==> *last->0 == p,
        !busy,
        r.workspace_index == workspace_index && r.bulk_index == bulk_index && r.last_tips
            == last_tips,
        r.prefix.worktree_id == config.worktree_id && r.prefix.epoch == config.epoch,
        r.chunks.packs@.dom().contains(id) ==> chunks.packs@.dom().contains(id)
            && r.chunks.packs@[id] == chunks.packs@[id] && text::has_prefix(
            r.chunks.packs@[id]@,
            "captures/"@ + config.worktree_id@ + "/"@ + text::decimal(config.epoch as nat) + "/"@,
        ),
        chunks.packs@.dom().contains(id) && text::has_prefix(
            chunks.packs@[id]@,
            "captures/"@ + config.worktree_id@ + "/"@ + text::decimal(config.epoch as nat) + "/"@,
        ) ==> r.chunks.packs@.dom().contains(id),
{
}

/// A forgotten pack locates no chunk any more, and every other chunk stays where it is.
pub proof fn law_forgotten_packs_locate_nothing(
    map: &mut ChunkMap,
    keys: Vec<String>,
    id: Seq<u8>,
    j: int,
)
    requires
        old(map).wf(),
        call_ensures(ChunkMap::forget, (map, &keys), ()),
    ensures
        0 <= j < keys@.len() && final(map).packs@.dom().contains(id) ==> final(map).packs@[id]@
            != keys@[j]@,
        old(map).packs@.dom().contains(id) && (forall|k: int|
            0 <= k < keys@.len() ==> (#[trigger] keys@[k])@ != old(map).packs@[id]@) ==> final(map).packs@.dom().contains(id) && final(map).packs@[id] == old(map).packs@[id],
        final(map).packs@.dom().contains(id) ==> old(map).packs@.dom().contains(id),
{
    if 0 <= j < keys@.len() && final(map).packs@.dom().contains(id) {
        assert(text::among(keys@, keys@[j]@));
    }
}

/// What a snap reports adds up what its classes report.
pub proof fn law_snap_stats_add_up(
    engine: &mut CaptureEngine,
    class: Class,
    work: ClassWork,
    built: BuiltTree,
    acked: SortedSet<String>,
    present: SortedSet<String>,
    uploads: &mut Vec<Upload>,
    stats: &mut SnapStats,
    r: ClassResult,
    zero: SnapStats,
)
    requires
        call_ensures(SnapStats::zero, (), zero),
        *old(stats) == zero,
        call_ensures(
            CaptureEngine::commit,
            (engine, class, work, &built, &acked, &present, uploads, stats),
            r,
        ),
        r.fresh_dirs@.len() <= u64::MAX,
    ensures
        final(stats).files == built.stats.files,
        final(stats).files_read == built.stats.files_read,
        final(stats).bytes_read == built.stats.bytes_read,
        final(stats).chunks == built.stats.chunks,
        final(stats).chunks_new == built.stats.chunks_new,
        final(stats).torn == built.stats.torn,
        final(stats).dirs_new == r.fresh_dirs@.len(),
        final(stats).staged_bytes == 0 && final(stats).git_pack_bytes == 0,
{
    assert(order::views(r.fresh_dirs@).len() == r.fresh_dirs@.len());
}

/// The daemon keeps to its own directory: staging is where the configuration puts it, or under the
/// daemon's directory in the worktree, and git is told to leave both out.
pub proof fn law_staging_stays_out_of_captures(
    config: CaptureConfig,
    at: FsPath,
    excludes: Vec<String>,
)
    requires
        call_ensures(CaptureConfig::staging_dir, (&config,), at),
        call_ensures(CaptureConfig::daemon_excludes, (&config,), excludes),
    ensures
        config.staging_at matches Some(p) ==> at@ == p@,
        config.staging_at is None ==> at@ == config.root@.child(".sealantd"@).child("capture"@),
        excludes@.len() > 0 && excludes@[0]@ == ".sealantd"@,
        at@.starts_with(config.root@) ==> excludes@.len() == 2 && excludes@[1]@ == paths::slashed(
            at@.below(config.root@),
        ),
        !at@.starts_with(config.root@) ==> excludes@.len() == 1,
{
    let ev = order::views(excludes@);
    assert(ev.len() == excludes@.len());
    assert(ev[0] == excludes@[0]@);
    if at@.starts_with(config.root@) {
        assert(ev[1] == excludes@[1]@);
        lemma_slashed_alike(at@.below(config.root@));
    }
}

proof fn lemma_slashed_alike(parts: Seq<Seq<char>>)
    ensures
        slashed(parts) == paths::slashed(parts),
    decreases parts.len(),
{
    if parts.len() > 1 {
        lemma_slashed_alike(parts.drop_last());
    }
}

/// A sink of packs has what the store has, what an earlier attempt left and what it took itself, and
/// nothing else, so that no chunk is packed twice.
pub proof fn law_a_pack_sink_has_what_is_known<'a>(
    cap: u64,
    known: &'a SortedMap<ChunkId, String>,
    carried: &'a SortedMap<ChunkId, String>,
    fresh: PackSink<'a>,
    id: ChunkId,
    has: bool,
)
    requires
        known.wf(),
        carried.wf(),
        call_ensures(PackSink::new, (cap, known, carried), fresh),
        call_ensures(<PackSink as ChunkSink>::contains, (&fresh, &id), has),
    ensures
        has <==> known@.dom().contains(id@) || carried@.dom().contains(id@),
        fresh.builder.plain@.dom() == Set::<Seq<u8>>::empty(),
{
}

/// What a snap stages is counted: its uploads' bytes, all of them.
pub proof fn law_staged_bytes_are_those_of_the_uploads(
    engine: &mut CaptureEngine,
    req: SnapRequest,
    sections: Sections,
    uploads: Vec<Upload>,
    stats: SnapStats,
    staging: Staging,
    pending: Vec<QueueEntry>,
    s: Snapped,
)
    requires
        call_ensures(
            CaptureEngine::conclude,
            (engine, &req, sections, &uploads, stats, &staging, &pending),
            Concluded::Staged(s),
        ),
        count::total(Seq::new(s.entry.uploads@.len(), |i: int| s.entry.uploads@[i].bytes))
            <= u64::MAX,
    ensures
        s.capture.stats.staged_bytes == count::total(
            Seq::new(s.entry.uploads@.len(), |i: int| s.entry.uploads@[i].bytes),
        ),
        s.capture.stats.files == stats.files && s.capture.stats.files_read == stats.files_read
            && s.capture.stats.chunks_new == stats.chunks_new && s.capture.stats.torn == stats.torn,
{
    let all = order::views(s.entry.uploads@);
    assert(all.len() == s.entry.uploads@.len());
    let sizes = Seq::new(s.entry.uploads@.len(), |i: int| s.entry.uploads@[i].bytes);
    assert forall|i: int| 0 <= i < all.len() implies all[i].bytes == s.entry.uploads@[i].bytes by {
        assert(all[i] == s.entry.uploads@[i]@);
    }
    assert(upload_sizes(all) =~= sizes);
}

/// A fresh configuration captures everything of its worktree, for its own epoch, at the usual pace.
pub proof fn law_a_fresh_configuration_captures_everything(
    worktree_id: &str,
    epoch: u64,
    root: FsPath,
    platform: &str,
    credential_files: Vec<String>,
    r: CaptureConfig,
    prefix: KeyPrefix,
)
    requires
        call_ensures(
            CaptureConfig::new,
            (worktree_id, epoch, &root, platform, credential_files),
            r,
        ),
        call_ensures(CaptureConfig::prefix, (&r,), prefix),
    ensures
        prefix.worktree_id@ == worktree_id@ && prefix.epoch == epoch,
        r.root@ == root@ && r.platform@ == platform@ && r.capture_bulk,
        r.credential_files == credential_files,
        r.harness_home is None && r.staging_at is None,
        r.cadence.quiet == 2_000_000_000 && r.cadence.max_interval == 10_000_000_000,
        r.cadence.bulk_quiet == 30_000_000_000 && r.cadence.bulk_max_interval == 120_000_000_000,
        r.cadence.heartbeat == 10_000_000_000 && r.cadence.lease_ttl == 30_000_000_000,
        r.pack_cap == 64 * 1024 * 1024,
        r.watch.enabled && r.watch.budget is None && !r.watch.raise_limit,
{
}

/// Whether a snap found nothing new is told by its kind and its sections: never of one that was asked
/// for, nor of the first.
pub proof fn law_nothing_new_is_told_by_the_sections(
    engine: CaptureEngine,
    kind: CaptureKind,
    sections: Sections,
    r: bool,
    same: bool,
)
    requires
        call_ensures(CaptureEngine::is_unchanged, (&engine, kind, &sections), r),
        engine.history@.len() > 0 ==> call_ensures(
            Sections::same,
            (&engine.history@.last().manifest.sections, &sections),
            same,
        ),
    ensures
        r <==> kind == CaptureKind::Auto && engine.history@.len() > 0 && same,
{
}

/// A staged capture is made as of the time that it is given, follows the chain, and holds what was
/// snapped.
pub proof fn law_a_staged_capture_holds_what_was_snapped(
    engine: &mut CaptureEngine,
    req: SnapRequest,
    sections: Sections,
    uploads: Vec<Upload>,
    stats: SnapStats,
    created_at: String,
    staging: Staging,
    pending: Vec<QueueEntry>,
    s: Snapped,
)
    requires
        call_ensures(
            CaptureEngine::stage,
            (engine, &req, sections, &uploads, stats, created_at, &staging, &pending),
            s,
        ),
        pending@.len() == 0,
    ensures
        s.capture.manifest.manifest.created_at == created_at,
        s.capture.manifest.manifest.sections == sections,
        s.capture.manifest.manifest.kind == req.kind && s.capture.manifest.manifest.seq == req.seq,
        s.replaces is None,
        old(engine).history@.len() == 0 ==> s.capture.n == 0
            && s.capture.manifest.manifest.parent is None,
        old(engine).history@.len() > 0 && old(engine).history@.last().manifest.n < u64::MAX
            ==> s.capture.n == old(engine).history@.last().manifest.n + 1
            && s.capture.manifest.manifest.parent == Some(old(engine).history@.last().capture_id),
        s.entry.uploads@.len() > 0 && s.entry.uploads@.last().file@ == "manifest-"@
            + s.capture.manifest.capture_id@,
        final(engine).history@.len() > 0 && final(engine).history@.last().capture_id
            == s.capture.manifest.capture_id,
{
    let all = order::views(s.entry.uploads@);
    assert(all.len() == s.entry.uploads@.len());
    assert(all.last() == s.entry.uploads@.last()@);
}

} // verus!
