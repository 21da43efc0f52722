//! Bringing a workspace to a manifest, writing only what differs.
//!
//! A file already on disk is skipped when the index (the same stat and chunk list the engine keeps)
//! matches both the disk and the plan; every file written is recorded there, so a second
//! materialize over the first costs only the difference. What the classes would capture and the
//! plan does not name is removed, and nothing else: the roots are listed with the engine's own
//! policy. Every object read is verified against its key.
//!
//! Objects are fetched, and files read and written, elsewhere; this module checks what was fetched
//! and decides what is written, kept, linked and removed, and in which order.

use vstd::prelude::*;
use vstd::string::*;
use vstd::utf8::*;
use crate::chunk;
use crate::chunk::{Chunk, ChunkId};
use crate::count;
use crate::gitpack::GitError;
use crate::index;
use crate::index::{FileKind, FileStat, IndexedFile, Listing, Meta, TreeIndex, DAEMON_DIR, MODE_BITS};
use crate::keys;
use crate::manifest::{
    BulkState, EncodedManifest, FsckStatus, Manifest, INDEX_TREE_REF, WORKTREE_TREE_REF,
};
use crate::order;
use crate::order::{SortedMap, SortedSet};
use crate::pack;
use crate::pack::{FinishedPack, PackError, PackReader};
use crate::paths;
use crate::paths::FsPath;
use crate::registrar;
use crate::registrar::HeadInfo;
use crate::roots::ClassRoots;
use crate::sink::SinkError;
use crate::text;
use crate::tree::{DirEntry, DirObject, EntryKind};

verus! {

/// Which classes to materialize.
#[derive(Debug, Clone, Copy, PartialEq, Eq, Structural)]
pub enum MaterializeClass {
    /// Git objects, refs, `HEAD`, the checked-out worktree.
    Git,
    /// `.git` bookkeeping, ignored files, harness home.
    Workspace,
    /// Dependencies and build outputs.
    Bulk,
    /// Everything.
    All,
}

/// One step of a materialize.
#[derive(Debug, Clone, Copy, PartialEq, Eq, Structural)]
pub enum ClassStep {
    /// Install packs, write refs and `HEAD`, check the worktree out.
    Git,
    /// Write the workspace class.
    Workspace,
    /// Write the bulk class.
    Bulk,
    /// Keep the daemon's directory out of the restored tree's index. Comes last, for the workspace
    /// class restores the exclude file as it was captured.
    Exclude,
}

/// The steps of a materialize, in order. A bulk section that was not captured yet is left alone.
pub open spec fn steps(class: MaterializeClass, bulk: BulkState) -> Seq<ClassStep> {
    let all = class == MaterializeClass::All;
    let git = all || class == MaterializeClass::Git;
    (if git {
        seq![ClassStep::Git]
    } else {
        Seq::empty()
    }) + (if all || class == MaterializeClass::Workspace {
        seq![ClassStep::Workspace]
    } else {
        Seq::empty()
    }) + (if (all || class == MaterializeClass::Bulk) && bulk is Ready {
        seq![ClassStep::Bulk]
    } else {
        Seq::empty()
    }) + (if git {
        seq![ClassStep::Exclude]
    } else {
        Seq::empty()
    })
}

/// Materialize errors.
#[derive(Debug)]
pub enum MaterializeError {
    /// An object's bytes did not hash to its key.
    Corrupt {
        /// Key.
        key: String,
        /// Observed digest.
        actual: String,
    },
    /// A chunk was in no listed pack.
    MissingChunk(ChunkId),
    /// A dir object could not be parsed.
    BadDir {
        /// Key.
        key: String,
        /// Why.
        reason: String,
    },
    /// The manifest bytes do not hash to the expected capture id.
    ManifestMismatch {
        /// Expected id.
        expected: String,
        /// Observed id.
        actual: String,
    },
    /// Sink.
    Sink(SinkError),
    /// Pack.
    Pack(PackError),
    /// Git.
    Git(GitError),
    /// I/O.
    Io(String),
}

impl MaterializeError {
    /// What the error says.
    pub open spec fn says(&self) -> Seq<char> {
        match self {
            MaterializeError::Corrupt { key, actual } => key@ + ": bytes hash to "@ + actual@
                + ", not the key"@,
            MaterializeError::MissingChunk(id) => "chunk "@ + chunk::hex_text(id@)
                + " is in no pack the manifest lists"@,
            MaterializeError::BadDir { key, reason } => "dir object "@ + key@ + ": "@ + reason@,
            MaterializeError::ManifestMismatch { expected, actual } => "manifest hashes to "@
                + actual@ + ", expected "@ + expected@,
            MaterializeError::Sink(e) => e.says(),
            MaterializeError::Pack(e) => e.says(),
            MaterializeError::Git(e) => e.says(),
            MaterializeError::Io(why) => why@,
        }
    }

    /// What the error says.
    pub fn message(&self) -> (r: String)
        ensures
            r@ == self.says(),
    {
        match self {
            MaterializeError::Corrupt { key, actual } => {
                let mut out: String = key.clone();
                out.append(": bytes hash to ");
                out.append(actual.as_str());
                out.append(", not the key");
                out
            },
            MaterializeError::MissingChunk(id) => {
                let mut out: String = "chunk ".to_owned();
                out.append(id.to_hex().as_str());
                out.append(" is in no pack the manifest lists");
                out
            },
            MaterializeError::BadDir { key, reason } => {
                let mut out: String = "dir object ".to_owned();
                out.append(key.as_str());
                out.append(": ");
                out.append(reason.as_str());
                out
            },
            MaterializeError::ManifestMismatch { expected, actual } => {
                let mut out: String = "manifest hashes to ".to_owned();
                out.append(actual.as_str());
                out.append(", expected ");
                out.append(expected.as_str());
                out
            },
            MaterializeError::Sink(e) => e.message(),
            MaterializeError::Pack(e) => e.message(),
            MaterializeError::Git(e) => e.message(),
            MaterializeError::Io(why) => why.clone(),
        }
    }
}

/// Counters.
#[derive(Debug, Clone, Copy, PartialEq, Eq, Structural)]
pub struct MaterializeReport {
    /// Files written.
    pub files: u64,
    /// Bytes written.
    pub bytes: u64,
    /// Files already on disk as the plan has them.
    pub files_skipped: u64,
    /// Bytes those files hold.
    pub bytes_skipped: u64,
    /// Files and symlinks removed because the plan no longer names them.
    pub removed: u64,
    /// Symlinks created.
    pub symlinks: u64,
    /// Hardlinks created.
    pub hardlinks: u64,
    /// Packs fetched from the sink (cache misses).
    pub packs_fetched: u64,
    /// Git packs installed (not counting the ones already there).
    pub git_packs: u64,
    /// Paths the worktree checkout touched: the tree diff for a delta checkout, `None` for a full
    /// one or when the git class was not asked for.
    pub git_paths_changed: Option<u64>,
    /// fsck outcome after the git class, when run (a delta that installed no pack skips it).
    pub fsck: Option<FsckStatus>,
}

impl MaterializeReport {
    /// Nothing done yet.
    pub open spec fn blank() -> MaterializeReport {
        MaterializeReport {
            files: 0,
            bytes: 0,
            files_skipped: 0,
            bytes_skipped: 0,
            removed: 0,
            symlinks: 0,
            hardlinks: 0,
            packs_fetched: 0,
            git_packs: 0,
            git_paths_changed: None,
            fsck: None,
        }
    }

    /// Nothing done yet.
    pub fn new() -> (r: Self)
        ensures
            r == MaterializeReport::blank(),
    {
        MaterializeReport {
            files: 0,
            bytes: 0,
            files_skipped: 0,
            bytes_skipped: 0,
            removed: 0,
            symlinks: 0,
            hardlinks: 0,
            packs_fetched: 0,
            git_packs: 0,
            git_paths_changed: None,
            fsck: None,
        }
    }

    /// A file or symlink that the plan does not name went.
    pub fn removed_one(&mut self)
        ensures
            *final(self) == (MaterializeReport {
                removed: count::capped((old(self).removed + 1) as nat) as u64,
                ..*old(self)
            }),
    {
        self.removed = self.removed.saturating_add(1);
    }

    /// A member of a hardlink group was linked.
    pub fn linked_one(&mut self)
        ensures
            *final(self) == (MaterializeReport {
                hardlinks: count::capped((old(self).hardlinks + 1) as nat) as u64,
                ..*old(self)
            }),
    {
        self.hardlinks = self.hardlinks.saturating_add(1);
    }

    /// A pack came from the sink.
    pub fn fetched_one(&mut self)
        ensures
            *final(self) == (MaterializeReport {
                packs_fetched: count::capped((old(self).packs_fetched + 1) as nat) as u64,
                ..*old(self)
            }),
    {
        self.packs_fetched = self.packs_fetched.saturating_add(1);
    }

    /// A git pack was installed.
    pub fn installed_one(&mut self)
        ensures
            *final(self) == (MaterializeReport {
                git_packs: count::capped((old(self).git_packs + 1) as nat) as u64,
                ..*old(self)
            }),
    {
        self.git_packs = self.git_packs.saturating_add(1);
    }
}

/// Where the workspace class's virtual roots land.
pub struct MaterializeTargets {
    /// Worktree root.
    pub root: FsPath,
    /// Harness home (the `harness/` subtree); skipped when `None`.
    pub harness_home: Option<FsPath>,
    /// The credential files of the harness, relative to its home (never captured, never swept).
    pub credential_files: Vec<String>,
    /// Pack cache (verified packs by sha256).
    pub cache_dir: FsPath,
    /// Scratch space for temporary git indexes.
    pub scratch_dir: FsPath,
    /// Where [`DiskState`] is kept between materializes (the engine's index dir).
    pub index_dir: FsPath,
    /// The staging directory, never swept.
    pub staging_dir: FsPath,
    /// Directory names treated as bulk wherever they appear.
    pub bulk_dirs: Vec<String>,
}

impl MaterializeTargets {
    /// Defaults under `<root>/.sealantd/capture/`.
    #[must_use]
    pub fn new(
        root: &FsPath,
        harness_home: Option<FsPath>,
        credential_files: Vec<String>,
    ) -> (r: Self)
        ensures
            ({
                let staging = root@.child(DAEMON_DIR@).child("capture"@);
                &&& r.root@ == root@
                &&& r.harness_home == harness_home
                &&& r.credential_files == credential_files
                &&& r.cache_dir@ == staging.child("cache"@)
                &&& r.scratch_dir@ == staging.child("scratch"@)
                &&& r.index_dir@ == staging.child("index"@)
                &&& r.staging_dir@ == staging
                &&& order::views(r.bulk_dirs@) == index::default_bulk_names()
            }),
    {
        let staging: FsPath = root.child(DAEMON_DIR).child("capture");
        MaterializeTargets {
            root: root.copy(),
            harness_home,
            credential_files,
            cache_dir: staging.child("cache"),
            scratch_dir: staging.child("scratch"),
            index_dir: staging.child("index"),
            staging_dir: staging,
            bulk_dirs: index::default_bulk_dirs(),
        }
    }

    /// The class roots.
    pub fn roots(&self) -> (r: ClassRoots)
        ensures
            r.root@ == self.root@,
            match (r.harness_home, self.harness_home) {
                (Some(a), Some(b)) => a@ == b@,
                (None, None) => true,
                _ => false,
            },
            r.credential_files@ == self.credential_files@,
            r.bulk_dirs@ == self.bulk_dirs@,
            r.staging_dir@ == self.staging_dir@,
    {
        let harness_home: Option<FsPath> = match &self.harness_home {
            Some(h) => Some(h.copy()),
            None => None,
        };
        ClassRoots {
            root: self.root.copy(),
            harness_home,
            credential_files: text::copy_all(&self.credential_files),
            bulk_dirs: text::copy_all(&self.bulk_dirs),
            staging_dir: self.staging_dir.copy(),
        }
    }
}

/// What is known about the disk: the tree indexes of the chunked classes as written and the
/// worktree tree last checked out.
pub struct DiskState {
    /// Workspace class index (virtual paths `.git/…`, `tree/…`, `harness/…`).
    pub workspace: TreeIndex,
    /// Bulk class index (paths relative to the root).
    pub bulk: TreeIndex,
    /// The tree the working tree was last brought to.
    pub worktree_tree: Option<String>,
    /// The tree the index was last read from.
    pub index_tree: Option<String>,
}

/// Whether the bytes of an object are those that its key names. A key that names no digest, and
/// the index of a git pack, promise nothing.
pub open spec fn is_sound(key: Seq<char>, bytes: Seq<u8>) -> bool {
    match keys::named_digest(key) {
        Some(d) => text::has_suffix(key, ".idx"@) || d == chunk::content_name(bytes),
        None => true,
    }
}

/// Verify `bytes` against a content-addressed key.
pub fn verify_key(key: &str, bytes: &[u8]) -> (r: Result<(), MaterializeError>)
    ensures
        match r {
            Ok(()) => is_sound(key@, bytes@),
            Err(e) => !is_sound(key@, bytes@) && (e matches MaterializeError::Corrupt {
                key: k,
                actual,
            } && k@ == key@ && actual@ == chunk::content_name(bytes@)),
        },
{
    if let Some(expected) = keys::key_digest(key) {
        if !text::ends_with(key, ".idx") {
            let actual: String = chunk::sha256_hex(bytes);
            if !text::str_eq(actual.as_str(), expected) {
                return Err(MaterializeError::Corrupt { key: key.to_owned(), actual });
            }
        }
    }
    Ok(())
}

/// An object is never taken under the key of another: bytes that pass under a key that names a
/// digest have that digest.
pub proof fn law_verified_bytes_are_those_the_key_names(key: Seq<char>, d: Seq<char>, bytes: Seq<u8>)
    requires
        keys::named_digest(key) == Some(d),
        !text::has_suffix(key, ".idx"@),
        is_sound(key, bytes),
    ensures
        d == chunk::content_name(bytes),
{
}

/// Check the bytes of a manifest against the capture id it was asked for by.
pub fn check_manifest(capture_id: &str, bytes: &[u8]) -> (r: Result<(), MaterializeError>)
    ensures
        match r {
            Ok(()) => capture_id@ == chunk::content_name(bytes@),
            Err(e) => capture_id@ != chunk::content_name(bytes@) && (
            e matches MaterializeError::ManifestMismatch { expected, actual } && expected@
                == capture_id@ && actual@ == chunk::content_name(bytes@)),
        },
{
    let actual: String = chunk::sha256_hex(bytes);
    if !text::str_eq(actual.as_str(), capture_id) {
        return Err(
            MaterializeError::ManifestMismatch { expected: capture_id.to_owned(), actual },
        );
    }
    Ok(())
}

/// A pack that was opened.
pub struct OpenPack {
    /// Its index.
    pub reader: PackReader,
    /// Its bytes.
    pub bytes: Vec<u8>,
}

/// Which pack holds each chunk of a class.
pub struct ChunkStore {
    /// chunk → position of the pack.
    pub by_chunk: SortedMap<ChunkId, usize>,
    /// Packs opened.
    pub packs: usize,
}

impl ChunkStore {
    /// Whether each chunk is in a pack that was opened.
    pub open spec fn wf(&self) -> bool {
        &&& self.by_chunk.wf()
        &&& forall|id: Seq<u8>| #[trigger]
            self.by_chunk@.dom().contains(id) ==> self.by_chunk@[id] < self.packs
    }

    /// No pack opened.
    pub fn new() -> (r: Self)
        ensures
            r.wf(),
            r.packs == 0,
            r.by_chunk@ == Map::<Seq<u8>, usize>::empty(),
    {
        ChunkStore { by_chunk: SortedMap::new(), packs: 0 }
    }

    /// One more pack, with these chunks; a chunk stays with the first pack that holds it.
    pub fn open(&mut self, ids: &Vec<ChunkId>)
        requires
            old(self).wf(),
            old(self).packs < usize::MAX,
        ensures
            final(self).wf(),
            final(self).packs == old(self).packs + 1,
            forall|id: Seq<u8>| #[trigger]
                final(self).by_chunk@.dom().contains(id) <==> old(self).by_chunk@.dom().contains(id)
                    || order::holds(ids@, id),
            forall|id: Seq<u8>| #[trigger]
                final(self).by_chunk@.dom().contains(id) ==> final(self).by_chunk@[id] == if old(
                    self,
                ).by_chunk@.dom().contains(id) {
                    old(self).by_chunk@[id]
                } else {
                    old(self).packs
                },
    {
        let at: usize = self.packs;
        let ghost before = self.by_chunk@;
        let mut i: usize = 0;
        while i < ids.len()
            invariant
                0 <= i <= ids@.len(),
                self.by_chunk.wf(),
                self.packs == at,
                at < usize::MAX,
                forall|id: Seq<u8>| #[trigger]
                    self.by_chunk@.dom().contains(id) <==> before.dom().contains(id) || exists|
                        j: int,
                    |
                        0 <= j < i && (#[trigger] ids@[j])@ == id,
                forall|id: Seq<u8>| #[trigger]
                    self.by_chunk@.dom().contains(id) ==> self.by_chunk@[id] == if before.dom().contains(
                        id,
                    ) {
                        before[id]
                    } else {
                        at
                    },
            decreases ids@.len() - i,
        {
            let ghost here = self.by_chunk@;
            let id: ChunkId = ids[i];
            if !self.by_chunk.contains(&id) {
                let none: Option<usize> = self.by_chunk.insert(id, at);
            }
            proof {
                assert forall|x: Seq<u8>| #[trigger]
                    self.by_chunk@.dom().contains(x) <==> before.dom().contains(x) || exists|
                        j: int,
                    |
                        0 <= j < i + 1 && (#[trigger] ids@[j])@ == x by {
                    assert(ids@[i as int]@ == id@);
                    if here.dom().contains(x) && !before.dom().contains(x) {
                        let j = choose|j: int| 0 <= j < i && (#[trigger] ids@[j])@ == x;
                        assert(0 <= j < i + 1 && ids@[j]@ == x);
                    }
                }
            }
            i = i + 1;
        }
        self.packs = at + 1;
        proof {
            assert forall|id: Seq<u8>| #[trigger]
                self.by_chunk@.dom().contains(id) <==> before.dom().contains(id) || order::holds(
                    ids@,
                    id,
                ) by {}
        }
    }

    /// Whether the packs are those that were opened, in order.
    pub open spec fn covers(&self, packs: Seq<OpenPack>) -> bool {
        packs.len() == self.packs && forall|i: int|
            0 <= i < packs.len() ==> (#[trigger] packs[i]).reader.wf()
    }

    /// Read and verify one chunk, from the first pack that holds it.
    pub fn read(&self, id: &ChunkId, packs: &Vec<OpenPack>) -> (r: Result<
        Vec<u8>,
        MaterializeError,
    >)
        requires
            self.wf(),
            self.covers(packs@),
        ensures
            if !self.by_chunk@.dom().contains(id@) {
                r matches Err(MaterializeError::MissingChunk(i)) && i == *id
            } else {
                let p = packs@[self.by_chunk@[id@] as int];
                match r {
                    Ok(plain) => p.reader.gives_from(*id, p.bytes@, Ok(Some(plain))),
                    Err(MaterializeError::MissingChunk(i)) => i == *id && p.reader.gives_from(
                        *id,
                        p.bytes@,
                        Ok(None),
                    ),
                    Err(MaterializeError::Pack(e)) => p.reader.gives_from(*id, p.bytes@, Err(e)),
                    Err(_) => false,
                }
            },
    {
        let at: usize = match self.find(id) {
            Ok(at) => at,
            Err(e) => {
                return Err(e);
            },
        };
        let pack: &OpenPack = &packs[at];
        match pack.reader.read_from(id, pack.bytes.as_slice()) {
            Ok(Some(plain)) => Ok(plain),
            Ok(None) => Err(MaterializeError::MissingChunk(*id)),
            Err(e) => Err(MaterializeError::Pack(e)),
        }
    }

    /// The pack that holds a chunk.
    pub fn find(&self, id: &ChunkId) -> (r: Result<usize, MaterializeError>)
        requires
            self.wf(),
        ensures
            match r {
                Ok(at) => self.by_chunk@.dom().contains(id@) && at == self.by_chunk@[id@] && at
                    < self.packs,
                Err(e) => !self.by_chunk@.dom().contains(id@) && (
                e matches MaterializeError::MissingChunk(i) && i == *id),
            },
    {
        match self.by_chunk.get(id) {
            Some(at) => Ok(*at),
            None => Err(MaterializeError::MissingChunk(*id)),
        }
    }
}

/// What is on disk at a path.
pub enum OnDisk {
    /// Nothing.
    Nothing,
    /// A symlink, and its text.
    Link(String),
    /// Anything else.
    There(Meta),
}

/// Whether a file on disk is already what the plan describes: a regular file whose stat matches the
/// index (so its chunks are known) and whose size, mtime and chunks match the plan.
pub open spec fn is_as_planned(v: Seq<char>, entry: DirEntry, disk: OnDisk, files: Map<
    Seq<char>,
    IndexedFile,
>) -> bool {
    &&& disk matches OnDisk::There(meta)
    &&& meta.kind == FileKind::File
    &&& files.dom().contains(v)
    &&& files[v].stat == meta.stat
    &&& meta.stat.size == entry.size
    &&& meta.stat.mtime == entry.mtime
    &&& entry.chunks is Some
    &&& order::views(entry.chunks->0@) == order::views(files[v].chunks@)
}

fn same_chunks(a: &Vec<ChunkId>, b: &Vec<ChunkId>) -> (r: bool)
    ensures
        r == (order::views(a@) == order::views(b@)),
{
    if a.len() != b.len() {
        assert(order::views(a@).len() != order::views(b@).len());
        return false;
    }
    let mut i: usize = 0;
    while i < a.len()
        invariant
            0 <= i <= a@.len(),
            a@.len() == b@.len(),
            forall|j: int| 0 <= j < i ==> (#[trigger] a@[j])@ == b@[j]@,
        decreases a@.len() - i,
    {
        if !a[i].same(&b[i]) {
            assert(order::views(a@)[i as int] != order::views(b@)[i as int]);
            return false;
        }
        i = i + 1;
    }
    assert(order::views(a@) =~= order::views(b@));
    true
}

/// Whether a file on disk is already what the plan describes.
pub fn file_matches(v: &String, entry: &DirEntry, disk: &OnDisk, index: &TreeIndex) -> (r: bool)
    requires
        index.wf(),
    ensures
        r == is_as_planned(v@, *entry, *disk, index.files@),
{
    match disk {
        OnDisk::There(meta) => {
            if meta.kind != FileKind::File {
                return false;
            }
            match index.files.get(v) {
                None => false,
                Some(known) => match &entry.chunks {
                    None => false,
                    Some(chunks) => known.stat == meta.stat && meta.stat.size == entry.size
                        && meta.stat.mtime == entry.mtime && same_chunks(chunks, &known.chunks),
                },
            }
        },
        _ => false,
    }
}

/// What is done for one entry of a directory.
pub enum EntryStep {
    /// Write the directory under this key, then restore its mode and time.
    Descend(String),
    /// It is there.
    Keep,
    /// It is there, but for its mode.
    SetMode,
    /// Write the file from its chunks, in place of whatever is there.
    Write,
    /// Create the symlink with this text, in place of whatever is there.
    Symlink(String),
    /// Link it, once all files are written, to the file at this virtual path.
    Link(String),
    /// There is nothing to write.
    Nothing,
}

/// Whether a text begins with the component `.`.
pub open spec fn leads_with_dot(s: Seq<char>) -> bool {
    s == "."@ || text::has_prefix(s, "./"@)
}

/// Whether two link texts are the same path: repeated slashes, a slash at the end and a `.` that is
/// not the first component make no difference.
pub open spec fn is_same_link(a: Seq<char>, b: Seq<char>) -> bool {
    &&& paths::components(a) == paths::components(b)
    &&& (a.len() > 0 && a[0] == '/') == (b.len() > 0 && b[0] == '/')
    &&& leads_with_dot(a) == leads_with_dot(b)
}

fn same_link(a: &str, b: &str) -> (r: bool)
    ensures
        r == is_same_link(a@, b@),
{
    let x: FsPath = FsPath::of(a);
    let y: FsPath = FsPath::of(b);
    let dot_a: bool = text::str_eq(a, ".") || text::starts_with(a, "./");
    let dot_b: bool = text::str_eq(b, ".") || text::starts_with(b, "./");
    x.same(&y) && dot_a == dot_b
}

/// Whether `step` is what is done for an entry.
pub open spec fn is_step(
    v: Seq<char>,
    entry: DirEntry,
    disk: OnDisk,
    files: Map<Seq<char>, IndexedFile>,
    step: EntryStep,
) -> bool {
    match entry.kind {
        EntryKind::Dir => match entry.child {
            Some(child) => step matches EntryStep::Descend(k) && k == child,
            None => step is Nothing,
        },
        EntryKind::File => if is_as_planned(v, entry, disk, files) {
            if disk->There_0.mode & MODE_BITS != entry.mode {
                step is SetMode
            } else {
                step is Keep
            }
        } else {
            step is Write
        },
        EntryKind::Symlink => {
            let want = match entry.target {
                Some(t) => t@,
                None => Seq::empty(),
            };
            if disk matches OnDisk::Link(t) && is_same_link(t@, want) {
                step is Keep
            } else {
                step matches EntryStep::Symlink(t) && t@ == want
            }
        },
        EntryKind::HardlinkGroup => match entry.target {
            Some(t) => step matches EntryStep::Link(c) && c == t,
            None => step is Nothing,
        },
    }
}

/// Decide what is done for an entry.
pub fn entry_step(v: &String, entry: &DirEntry, disk: &OnDisk, index: &TreeIndex) -> (r: EntryStep)
    requires
        index.wf(),
    ensures
        is_step(v@, *entry, *disk, index.files@, r),
{
    match entry.kind {
        EntryKind::Dir => match &entry.child {
            Some(child) => EntryStep::Descend(child.clone()),
            None => EntryStep::Nothing,
        },
        EntryKind::File => {
            if file_matches(v, entry, disk, index) {
                match disk {
                    OnDisk::There(meta) => {
                        if meta.mode & MODE_BITS != entry.mode {
                            EntryStep::SetMode
                        } else {
                            EntryStep::Keep
                        }
                    },
                    _ => EntryStep::Keep,
                }
            } else {
                EntryStep::Write
            }
        },
        EntryKind::Symlink => {
            let want: String = match &entry.target {
                Some(t) => t.clone(),
                None => String::new(),
            };
            match disk {
                OnDisk::Link(t) => {
                    if same_link(t.as_str(), want.as_str()) {
                        EntryStep::Keep
                    } else {
                        EntryStep::Symlink(want)
                    }
                },
                _ => EntryStep::Symlink(want),
            }
        },
        EntryKind::HardlinkGroup => match &entry.target {
            Some(t) => EntryStep::Link(t.clone()),
            None => EntryStep::Nothing,
        },
    }
}

/// The counters after an entry was decided on.
pub open spec fn counted(report: MaterializeReport, entry: DirEntry, step: EntryStep) -> MaterializeReport {
    match step {
        EntryStep::Symlink(_) => MaterializeReport {
            symlinks: count::capped((report.symlinks + 1) as nat) as u64,
            ..report
        },
        EntryStep::Keep | EntryStep::SetMode => if entry.kind == EntryKind::File {
            MaterializeReport {
                files_skipped: count::capped((report.files_skipped + 1) as nat) as u64,
                bytes_skipped: count::capped((report.bytes_skipped + entry.size) as nat) as u64,
                ..report
            }
        } else {
            report
        },
        _ => report,
    }
}

/// The counters after the first `n` entries were decided on.
pub open spec fn counted_all(
    report: MaterializeReport,
    entries: Seq<DirEntry>,
    steps: Seq<EntryStep>,
) -> MaterializeReport
    decreases entries.len(),
{
    if entries.len() == 0 {
        report
    } else {
        counted(
            counted_all(report, entries.drop_last(), steps.drop_last()),
            entries.last(),
            steps.last(),
        )
    }
}

/// One chunked class being materialized: every virtual path the plan names, and what is to be
/// linked.
pub struct ClassWrite {
    /// Virtual paths the plan names.
    pub planned: SortedSet<String>,
    /// Canonical virtual path, virtual path of the member, mode.
    pub links: Vec<(String, String, u32)>,
}

impl ClassWrite {
    /// Nothing planned yet.
    pub fn new() -> (r: Self)
        ensures
            r.planned.wf(),
            forall|v: Seq<char>| !r.planned.has(v),
            r.links@.len() == 0,
    {
        ClassWrite { planned: SortedSet::new(), links: Vec::new() }
    }

    /// Decide on the entries of the directory `vdir`, in order; `disk` says what is there. The
    /// directory and all its entries are planned.
    pub fn plan_dir(
        &mut self,
        vdir: &str,
        obj: &DirObject,
        disk: &Vec<OnDisk>,
        index: &TreeIndex,
        report: &mut MaterializeReport,
    ) -> (r: Vec<EntryStep>)
        requires
            old(self).planned.wf(),
            disk@.len() == obj.entries@.len(),
            index.wf(),
        ensures
            final(self).planned.wf(),
            r@.len() == obj.entries@.len(),
            forall|i: int|
                0 <= i < r@.len() ==> is_step(
                    paths::joined(vdir@, obj.entries@[i].name@),
                    obj.entries@[i],
                    disk@[i],
                    index.files@,
                    #[trigger] r@[i],
                ),
            forall|v: Seq<char>| #[trigger]
                final(self).planned.has(v) <==> old(self).planned.has(v) || (vdir@.len() > 0 && v
                    == vdir@) || is_entry(vdir@, obj.entries@, v),
            *final(report) == counted_all(*old(report), obj.entries@, r@),
            final(self).links@.len() >= old(self).links@.len(),
            final(self).links@.take(old(self).links@.len() as int) == old(self).links@,
            link_views(final(self).links@.skip(old(self).links@.len() as int)) == links_of(
                vdir@,
                obj.entries@,
            ),
    {
        let ghost links0 = self.links@;
        let ghost es = obj.entries@;
        let ghost rep0 = *report;
        if vdir.unicode_len() > 0 {
            let added: bool = self.planned.insert(vdir.to_owned());
        }
        let ghost planned1 = self.planned;
        let mut out: Vec<EntryStep> = Vec::new();
        let mut i: usize = 0;
        proof {
            assert(es.take(0) =~= Seq::empty());
            assert(out@.take(0) =~= Seq::empty());
            assert(links0.skip(links0.len() as int) =~= Seq::empty());
            assert(link_views(links0.skip(links0.len() as int)) =~= links_of(vdir@, es.take(0)));
            assert(links0.take(links0.len() as int) =~= links0);
            assert(out@ =~= Seq::empty());
        }
        while i < obj.entries.len()
            invariant
                0 <= i <= es.len(),
                es == obj.entries@,
                disk@.len() == es.len(),
                index.wf(),
                self.planned.wf(),
                out@.len() == i,
                forall|j: int|
                    0 <= j < i ==> is_step(
                        paths::joined(vdir@, es[j].name@),
                        es[j],
                        disk@[j],
                        index.files@,
                        #[trigger] out@[j],
                    ),
                forall|v: Seq<char>| #[trigger]
                    self.planned.has(v) <==> planned1.has(v) || is_entry(
                        vdir@,
                        es.take(i as int),
                        v,
                    ),
                *report == counted_all(rep0, es.take(i as int), out@),
                self.links@.len() >= links0.len(),
                self.links@.take(links0.len() as int) == links0,
                link_views(self.links@.skip(links0.len() as int)) == links_of(
                    vdir@,
                    es.take(i as int),
                ),
            decreases es.len() - i,
        {
            let entry: &DirEntry = &obj.entries[i];
            let v: String = paths::join_virtual(vdir, entry.name.as_str());
            let step: EntryStep = entry_step(&v, entry, &disk[i], index);
            let ghost planned2 = self.planned;
            let added: bool = self.planned.insert(v.clone());
            match &step {
                EntryStep::Symlink(_) => {
                    report.symlinks = report.symlinks.saturating_add(1);
                },
                EntryStep::Keep | EntryStep::SetMode => {
                    if entry.kind == EntryKind::File {
                        report.files_skipped = report.files_skipped.saturating_add(1);
                        report.bytes_skipped = report.bytes_skipped.saturating_add(entry.size);
                    }
                },
                _ => {},
            }
            let ghost links1 = self.links@;
            if entry.kind == EntryKind::HardlinkGroup {
                if let Some(canonical) = &entry.target {
                    self.links.push((canonical.clone(), v.clone(), entry.mode));
                }
            }
            proof {
                let t = es.take(i + 1);
                assert(t.drop_last() =~= es.take(i as int));
                assert(t.last() == *entry);
                assert(self.links@.take(links0.len() as int) =~= links0);
                let tail1 = links1.skip(links0.len() as int);
                let tail2 = self.links@.skip(links0.len() as int);
                if self.links@.len() > links1.len() {
                    assert(tail2 =~= tail1.push(self.links@.last()));
                    assert(link_views(tail2) =~= link_views(tail1).push(
                        (self.links@.last().0@, self.links@.last().1@, self.links@.last().2),
                    ));
                } else {
                    assert(tail2 =~= tail1);
                }
                assert forall|x: Seq<char>| #[trigger]
                    self.planned.has(x) <==> planned1.has(x) || is_entry(vdir@, t, x) by {
                    assert(planned2.has(x) <==> planned1.has(x) || is_entry(
                        vdir@,
                        es.take(i as int),
                        x,
                    ));
                    if is_entry(vdir@, es.take(i as int), x) {
                        let j = choose|j: int|
                            0 <= j < i && paths::joined(
                                vdir@,
                                (#[trigger] es.take(i as int)[j]).name@,
                            ) == x;
                        assert(t[j] == es.take(i as int)[j]);
                    }
                    if x == v@ {
                        assert(paths::joined(vdir@, t[i as int].name@) == x);
                    }
                    if is_entry(vdir@, t, x) && x != v@ {
                        let j = choose|j: int|
                            0 <= j < t.len() && paths::joined(vdir@, (#[trigger] t[j]).name@) == x;
                        assert(es.take(i as int)[j] == t[j]);
                    }
                }
                assert(out@.push(step).drop_last() =~= out@);
            }
            out.push(step);
            i = i + 1;
        }
        assert(es.take(es.len() as int) =~= es);
        out
    }
}

/// Whether `v` is an entry of the directory `vdir`.
pub open spec fn is_entry(vdir: Seq<char>, entries: Seq<DirEntry>, v: Seq<char>) -> bool {
    exists|i: int| 0 <= i < entries.len() && paths::joined(vdir, (#[trigger] entries[i]).name@) == v
}

/// What links stand for.
pub open spec fn link_views(links: Seq<(String, String, u32)>) -> Seq<(Seq<char>, Seq<char>, u32)> {
    Seq::new(links.len(), |i: int| (links[i].0@, links[i].1@, links[i].2))
}

/// The links that the entries of a directory ask for.
pub open spec fn links_of(vdir: Seq<char>, entries: Seq<DirEntry>) -> Seq<
    (Seq<char>, Seq<char>, u32),
>
    decreases entries.len(),
{
    if entries.len() == 0 {
        Seq::empty()
    } else {
        let front = links_of(vdir, entries.drop_last());
        let e = entries.last();
        if e.kind == EntryKind::HardlinkGroup && e.target is Some {
            front.push((e.target->0@, paths::joined(vdir, e.name@), e.mode))
        } else {
            front
        }
    }
}

/// Rebuilds a workspace from manifests.
pub struct Materializer {
    /// Where things land.
    pub targets: MaterializeTargets,
}

/// What the git class does with the worktree.
pub enum Checkout {
    /// Nothing: the manifest names no worktree tree.
    Nothing,
    /// Move from the tree last checked out to this one.
    Delta(String, String),
    /// Check the tree out over whatever is there.
    Full(String),
}

/// How the worktree is brought to a manifest.
pub open spec fn checkout_of(manifest: Manifest, state: DiskState, still_here: bool) -> Checkout {
    let refs = manifest.sections.git.refs@;
    if !refs.dom().contains(WORKTREE_TREE_REF@) {
        Checkout::Nothing
    } else if still_here && state.worktree_tree is Some {
        Checkout::Delta(state.worktree_tree->0, refs[WORKTREE_TREE_REF@])
    } else {
        Checkout::Full(refs[WORKTREE_TREE_REF@])
    }
}

/// The tree to read into the repository's index.
pub open spec fn index_wanted(manifest: Manifest, state: DiskState) -> Option<String> {
    let refs = manifest.sections.git.refs@;
    if refs.dom().contains(INDEX_TREE_REF@) && text::opt_view(state.index_tree) != Some(
        refs[INDEX_TREE_REF@]@,
    ) {
        Some(refs[INDEX_TREE_REF@])
    } else {
        None
    }
}

impl DiskState {
    /// The state after the worktree was brought to a tree.
    pub open spec fn moved(self, done: Checkout) -> DiskState {
        match done {
            Checkout::Nothing => self,
            Checkout::Delta(_, tree) => DiskState { worktree_tree: Some(tree), ..self },
            Checkout::Full(tree) => DiskState { worktree_tree: Some(tree), ..self },
        }
    }

    /// The state after a tree was read into the index.
    pub open spec fn indexed(self, tree: Option<String>) -> DiskState {
        match tree {
            Some(tree) => DiskState { index_tree: Some(tree), ..self },
            None => self,
        }
    }
}

impl Materializer {
    /// Writing to `targets`.
    #[must_use]
    pub fn new(targets: MaterializeTargets) -> (r: Self)
        ensures
            r.targets == targets,
    {
        Materializer { targets }
    }

    /// Verify a manifest that was fetched for `capture_id`; `parsed` is what its bytes say, or why
    /// they say nothing.
    pub fn fetch_manifest(
        &self,
        key: &str,
        capture_id: &str,
        bytes: &[u8],
        parsed: Result<Manifest, String>,
    ) -> (r: Result<EncodedManifest, MaterializeError>)
        ensures
            if capture_id@ != chunk::content_name(bytes@) {
                r matches Err(MaterializeError::ManifestMismatch { expected, actual }) && expected@
                    == capture_id@ && actual@ == chunk::content_name(bytes@)
            } else {
                match parsed {
                    Ok(m) => {
                        &&& r matches Ok(e)
                        &&& e.wf()
                        &&& e.manifest == m
                        &&& e.bytes@ == bytes@
                        &&& e.capture_id@ == capture_id@
                    },
                    Err(why) => r matches Err(MaterializeError::BadDir { key: k, reason }) && k@
                        == key@ && reason == why,
                }
            },
    {
        match check_manifest(capture_id, bytes) {
            Ok(()) => {},
            Err(e) => {
                return Err(e);
            },
        }
        match parsed {
            Ok(m) => Ok(m.decoded(bytes)),
            Err(reason) => Err(MaterializeError::BadDir { key: key.to_owned(), reason }),
        }
    }

    /// The steps that bring `class` of `manifest` to disk, in order.
    pub fn materialize(&self, manifest: &Manifest, class: MaterializeClass) -> (r: Vec<ClassStep>)
        ensures
            r@ == steps(class, manifest.sections.bulk),
    {
        let all: bool = class == MaterializeClass::All;
        let git: bool = all || class == MaterializeClass::Git;
        let ready: bool = match &manifest.sections.bulk {
            BulkState::Ready(_) => true,
            BulkState::Pending(_) => false,
        };
        let mut out: Vec<ClassStep> = Vec::new();
        if git {
            out.push(ClassStep::Git);
        }
        if all || class == MaterializeClass::Workspace {
            out.push(ClassStep::Workspace);
        }
        if (all || class == MaterializeClass::Bulk) && ready {
            out.push(ClassStep::Bulk);
        }
        if git {
            out.push(ClassStep::Exclude);
        }
        assert(out@ =~= steps(class, manifest.sections.bulk));
        out
    }

    /// How the worktree is brought to a manifest. `still_here` says whether the objects of the tree
    /// last checked out are still in the repository; it is trusted only then.
    pub fn checkout(&self, manifest: &Manifest, state: &DiskState, still_here: bool) -> (r: Checkout)
        requires
            manifest.wf(),
        ensures
            r == checkout_of(*manifest, *state, still_here),
    {
        let name: String = WORKTREE_TREE_REF.to_owned();
        match manifest.sections.git.refs.get(&name) {
            None => Checkout::Nothing,
            Some(tree) => match &state.worktree_tree {
                Some(from) => {
                    if still_here {
                        Checkout::Delta(from.clone(), tree.clone())
                    } else {
                        Checkout::Full(tree.clone())
                    }
                },
                None => Checkout::Full(tree.clone()),
            },
        }
    }

    /// The worktree was brought to a manifest.
    pub fn checked_out(&self, done: Checkout, changed: u64, state: &mut DiskState, report: &mut MaterializeReport)
        ensures
            *final(state) == old(state).moved(done),
            *final(report) == match done {
                Checkout::Delta(..) => MaterializeReport {
                    git_paths_changed: Some(changed),
                    ..*old(report)
                },
                _ => *old(report),
            },
    {
        match done {
            Checkout::Nothing => {},
            Checkout::Delta(_, tree) => {
                report.git_paths_changed = Some(changed);
                state.worktree_tree = Some(tree);
            },
            Checkout::Full(tree) => {
                state.worktree_tree = Some(tree);
            },
        }
    }

    /// The tree to read into the repository's index: the manifest's, unless it was the last one
    /// read.
    pub fn index_to_read(&self, manifest: &Manifest, state: &mut DiskState) -> (r: Option<String>)
        requires
            manifest.wf(),
        ensures
            r == index_wanted(*manifest, *old(state)),
            *final(state) == old(state).indexed(r),
    {
        let name: String = INDEX_TREE_REF.to_owned();
        match manifest.sections.git.refs.get(&name) {
            None => None,
            Some(tree) => {
                let same: bool = match &state.index_tree {
                    Some(t) => text::str_eq(t.as_str(), tree.as_str()),
                    None => false,
                };
                if same {
                    None
                } else {
                    state.index_tree = Some(tree.clone());
                    Some(tree.clone())
                }
            },
        }
    }

    /// Whether the repository is checked: not after a delta that installed no pack.
    pub fn needs_fsck(&self, report: &MaterializeReport) -> (r: bool)
        ensures
            r == (report.git_packs > 0 || report.git_paths_changed is None),
    {
        report.git_packs > 0 || report.git_paths_changed.is_none()
    }
}

/// A file was written from its chunks: it is indexed as it now stands on disk.
pub fn written(
    index: &mut TreeIndex,
    v: String,
    stat: FileStat,
    entry: &DirEntry,
    bytes: u64,
    report: &mut MaterializeReport,
)
    requires
        old(index).wf(),
    ensures
        final(index).wf(),
        ({
            let files = final(index).files@;
            let before = old(index).files@;
            &&& files.dom() == before.dom().insert(v@)
            &&& files[v@].stat == stat
            &&& files[v@].chunks@ == match entry.chunks {
                Some(c) => c@,
                None => Seq::empty(),
            }
            &&& forall|w: Seq<char>| #[trigger] before.dom().contains(w) && w != v@ ==> files[w]
                == before[w]
        }),
        *final(report) == (MaterializeReport {
            files: count::capped((old(report).files + 1) as nat) as u64,
            bytes: count::capped((old(report).bytes + bytes) as nat) as u64,
            ..*old(report)
        }),
{
    let chunks: Vec<ChunkId> = match &entry.chunks {
        Some(c) => {
            let copy: Vec<ChunkId> = c.clone();
            assert(copy@ =~= c@);
            copy
        },
        None => Vec::new(),
    };
    let ghost before = index.files@;
    let earlier: Option<IndexedFile> = index.files.insert(v, IndexedFile { stat, chunks });
    assert(index.files@.dom() =~= before.dom().insert(v@));
    report.files = report.files.saturating_add(1);
    report.bytes = report.bytes.saturating_add(bytes);
}

/// The bytes that a read of a chunk came to.
pub open spec fn bytes_read(r: Result<Option<Vec<u8>>, PackError>) -> Seq<u8> {
    match r {
        Ok(Some(plain)) => plain@,
        _ => Seq::empty(),
    }
}

/// What a materialize gives back of a capture: of a file that was cut into chunks, each stored in
/// some pack, every chunk can be read from its pack, and together they are the file.
pub proof fn law_a_captured_file_is_restored(
    data: Seq<u8>,
    chunks: Seq<Chunk>,
    packs: Seq<FinishedPack>,
    readers: Seq<PackReader>,
    at: Seq<int>,
    reads: Seq<Result<Option<Vec<u8>>, PackError>>,
)
    requires
        chunk::joined(chunk::chunk_data(chunks)) == data,
        chunk::within_limits(
            chunk::chunk_data(chunks),
            chunk::MIN_CHUNK_SIZE as nat,
            chunk::MAX_CHUNK_SIZE as nat,
        ),
        forall|i: int|
            0 <= i < chunks.len() ==> (#[trigger] chunks[i]).id@ == chunk::sha256(chunks[i].data@),
        forall|k: int|
            0 <= k < packs.len() ==> pack::lists_once((#[trigger] packs[k]).entries@)
                && readers[k].entries@ == pack::entry_map(packs[k].entries@),
        at.len() == chunks.len(),
        reads.len() == chunks.len(),
        forall|i: int|
            0 <= i < chunks.len() ==> {
                let k = #[trigger] at[i];
                &&& 0 <= k < packs.len()
                &&& packs[k].has(chunks[i].id@, chunks[i].data@)
                &&& readers[k].gives_from(chunks[i].id, packs[k].data@, reads[i])
            },
    ensures
        forall|i: int|
            0 <= i < reads.len() ==> (#[trigger] reads[i] matches Ok(Some(plain)) && plain@
                == chunks[i].data@),
        chunk::joined(reads.map_values(|r: Result<Option<Vec<u8>>, PackError>| bytes_read(r)))
            == data,
{
    let plain = chunk::chunk_data(chunks);
    assert forall|i: int| 0 <= i < reads.len() implies (#[trigger] reads[i] matches Ok(Some(p))
        && p@ == chunks[i].data@) by {
        let k = at[i];
        assert(plain[i] == chunks[i].data@);
        assert(pack::lists_once(packs[k].entries@));
        pack::law_a_pack_gives_back_its_chunks(
            packs[k],
            readers[k],
            chunks[i].id,
            plain[i],
            reads[i],
        );
    }
    assert(reads.map_values(|r: Result<Option<Vec<u8>>, PackError>| bytes_read(r)) =~= plain);
}

/// A materialize over what is there ends as one into an empty directory does: a file that is not
/// written is a regular file of the planned size and time, last read or written with the planned
/// chunks, and a symlink that is not created leads where the planned one does.
pub proof fn law_what_is_kept_is_what_would_be_written(
    v: Seq<char>,
    entry: DirEntry,
    disk: OnDisk,
    files: Map<Seq<char>, IndexedFile>,
    step: EntryStep,
)
    requires
        is_step(v, entry, disk, files, step),
        step is Keep || step is SetMode,
    ensures
        match entry.kind {
            EntryKind::File => {
                &&& disk matches OnDisk::There(meta)
                &&& meta.kind == FileKind::File
                &&& meta.stat.size == entry.size
                &&& meta.stat.mtime == entry.mtime
                &&& step is Keep ==> meta.mode & MODE_BITS == entry.mode
                &&& files.dom().contains(v)
                &&& files[v].stat == meta.stat
                &&& entry.chunks is Some
                &&& order::views(files[v].chunks@) == order::views(entry.chunks->0@)
            },
            EntryKind::Symlink => {
                &&& disk matches OnDisk::Link(t)
                &&& is_same_link(
                    t@,
                    match entry.target {
                        Some(w) => w@,
                        None => Seq::empty(),
                    },
                )
            },
            _ => false,
        },
{
}

/// A file that was just written is skipped by the next materialize of the same entry, as long as
/// its stat stays what it was and matches the entry.
pub proof fn law_a_written_file_is_not_written_again(
    v: Seq<char>,
    entry: DirEntry,
    meta: Meta,
    files: Map<Seq<char>, IndexedFile>,
)
    requires
        entry.chunks is Some,
        files.dom().contains(v),
        files[v].stat == meta.stat,
        files[v].chunks@ == entry.chunks->0@,
        meta.kind == FileKind::File,
        meta.stat.size == entry.size,
        meta.stat.mtime == entry.mtime,
    ensures
        is_as_planned(v, entry, OnDisk::There(meta), files),
{
}

/// A dependency tree built elsewhere is never restored: of a plan that was asked for with a
/// platform, the bulk class is brought to disk only where it was captured for that platform.
pub proof fn law_a_bulk_tree_of_another_platform_is_not_restored(
    head: HeadInfo,
    platform: String,
    planned: HeadInfo,
    class: MaterializeClass,
)
    requires
        registrar::is_planned_head(head, Some(platform), planned),
    ensures
        steps(class, planned.manifest.sections.bulk).contains(ClassStep::Bulk) ==> (
        planned.manifest.sections.bulk matches BulkState::Ready(b) && b.platform@ == platform@),
{
    let all = steps(class, planned.manifest.sections.bulk);
    if !(planned.manifest.sections.bulk is Ready) {
        assert forall|i: int| 0 <= i < all.len() implies all[i] != ClassStep::Bulk by {}
    }
}

/// Whether two names are of one file.
pub open spec fn are_linked(canonical: OnDisk, member: OnDisk) -> bool {
    match (canonical, member) {
        (OnDisk::There(a), OnDisk::There(b)) => a.kind == FileKind::File && b.kind
            == FileKind::File && a.stat.dev == b.stat.dev && a.stat.ino == b.stat.ino,
        _ => false,
    }
}

/// Whether a member of a hardlink group is already another name of its canonical file.
pub fn is_linked(canonical: &OnDisk, member: &OnDisk) -> (r: bool)
    ensures
        r == are_linked(*canonical, *member),
{
    match (canonical, member) {
        (OnDisk::There(a), OnDisk::There(b)) => a.kind == FileKind::File && b.kind
            == FileKind::File && a.stat.dev == b.stat.dev && a.stat.ino == b.stat.ino,
        _ => false,
    }
}

/// Whether `a` is swept before `b`: longer paths (in bytes) go first, and equally long ones by name.
pub open spec fn swept_before(a: Seq<char>, b: Seq<char>) -> bool {
    encode_utf8(a).len() > encode_utf8(b).len() || (encode_utf8(a).len() == encode_utf8(b).len()
        && text::text_less(a, b))
}

/// Whether paths are in the order in which they are swept.
pub open spec fn in_sweep_order(s: Seq<String>) -> bool {
    forall|i: int, j: int|
        0 <= i < j < s.len() ==> swept_before((#[trigger] s[i])@, (#[trigger] s[j])@)
}

/// Whether a path is swept: the class would capture it, and the plan does not name it.
pub open spec fn is_stale(listing: Listing, planned: SortedSet<String>, v: Seq<char>) -> bool {
    listing.entries@.dom().contains(v) && !planned.has(v)
}

/// What to remove, in order: children before their parents, so that a directory is tried once
/// everything under it went.
pub fn sweep(listing: &Listing, planned: &SortedSet<String>) -> (r: Vec<String>)
    requires
        listing.wf(),
        planned.wf(),
    ensures
        forall|v: Seq<char>| #[trigger]
            text::among(r@, v) <==> is_stale(*listing, *planned, v),
        in_sweep_order(r@),
{
    let mut out: Vec<String> = Vec::new();
    let ghost ks = listing.entries.keys@;
    let mut i: usize = 0;
    while i < listing.entries.keys.len()
        invariant
            0 <= i <= ks.len(),
            ks == listing.entries.keys@,
            listing.wf(),
            planned.wf(),
            forall|v: Seq<char>| #[trigger]
                text::among(out@, v) <==> order::holds(ks.take(i as int), v) && !planned.has(v),
            is_distinct(out@),
        decreases ks.len() - i,
    {
        let v: &String = &listing.entries.keys[i];
        let named: bool = planned.contains(v);
        let ghost before = out@;
        proof {
            assert(!order::holds(ks.take(i as int), v@)) by {
                if order::holds(ks.take(i as int), v@) {
                    let t = ks.take(i as int);
                    let j = order::spot(t, v@);
                    assert(0 <= j < t.len() && t[j]@ == v@);
                    order::lemma_ascending_distinct(ks, j, i as int);
                }
            }
            assert(!text::among(before, v@));
            assert forall|j: int| 0 <= j < before.len() implies (#[trigger] before[j])@ != v@ by {
                if before[j]@ == v@ {
                    assert(text::among(before, v@));
                }
            }
        }
        if !named {
            out.push(v.clone());
        }
        proof {
            let t = ks.take(i + 1);
            let u = ks.take(i as int);
            assert forall|x: Seq<char>| #[trigger]
                text::among(out@, x) <==> order::holds(t, x) && !planned.has(x) by {
                assert(text::among(before, x) <==> order::holds(u, x) && !planned.has(x));
                if !named {
                    text::lemma_among_push(before, out@[before.len() as int], x);
                }
                if order::holds(u, x) {
                    let j = order::spot(u, x);
                    assert(0 <= j < u.len() && u[j]@ == x);
                    assert(t[j]@ == x);
                }
                if x == v@ {
                    assert(t[i as int]@ == x);
                }
                if order::holds(t, x) && x != v@ {
                    let j = order::spot(t, x);
                    assert(0 <= j < t.len() && t[j]@ == x);
                    assert(u[j]@ == x);
                }
            }
        }
        i = i + 1;
    }
    assert(ks.take(ks.len() as int) =~= ks);
    sort_for_sweep(out)
}

spec fn is_distinct(s: Seq<String>) -> bool {
    forall|i: int, j: int| 0 <= i < j < s.len() ==> (#[trigger] s[i])@ != (#[trigger] s[j])@
}

fn comes_before(a: &String, b: &String) -> (r: bool)
    ensures
        r == swept_before(a@, b@),
{
    let n: usize = a.as_str().as_bytes().len();
    let m: usize = b.as_str().as_bytes().len();
    n > m || (n == m && text::str_less(a.as_str(), b.as_str()))
}

proof fn lemma_swept_before(a: Seq<char>, b: Seq<char>, c: Seq<char>)
    ensures
        swept_before(a, b) && swept_before(b, c) ==> swept_before(a, c),
        a != b ==> swept_before(a, b) || swept_before(b, a),
{
    if swept_before(a, b) && swept_before(b, c) && encode_utf8(a).len() == encode_utf8(b).len()
        && encode_utf8(b).len() == encode_utf8(c).len() {
        order::lemma_rank_transitive(text::text_rank(a), text::text_rank(b), text::text_rank(c));
    }
    if a != b && encode_utf8(a).len() == encode_utf8(b).len() {
        if text::text_rank(a) == text::text_rank(b) {
            text::lemma_text_rank_injective(a, b);
        }
        order::lemma_rank_total(text::text_rank(a), text::text_rank(b));
    }
}

fn sort_for_sweep(items: Vec<String>) -> (r: Vec<String>)
    requires
        is_distinct(items@),
    ensures
        in_sweep_order(r@),
        forall|x: Seq<char>| #[trigger] text::among(r@, x) <==> text::among(items@, x),
    decreases items@.len(),
{
    let n: usize = items.len();
    if n <= 1 {
        return items;
    }
    let ghost all = items@;
    let half: usize = n / 2;
    let mut left: Vec<String> = items;
    let right: Vec<String> = left.split_off(half);
    let ghost a = left@;
    let ghost b = right@;
    assert(all =~= a + b);
    assert forall|x: Seq<char>| text::among(a, x) implies !text::among(b, x) by {
        if text::among(b, x) {
            let i = choose|i: int| 0 <= i < a.len() && (#[trigger] a[i])@ == x;
            let j = choose|j: int| 0 <= j < b.len() && (#[trigger] b[j])@ == x;
            assert(all[i]@ == all[half + j]@);
        }
    }
    let r: Vec<String> = merge_for_sweep(sort_for_sweep(left), sort_for_sweep(right));
    proof {
        assert forall|x: Seq<char>| #[trigger] text::among(r@, x) <==> text::among(all, x) by {
            text::lemma_among_concat(a, b, x);
        }
    }
    r
}

fn merge_for_sweep(left: Vec<String>, right: Vec<String>) -> (r: Vec<String>)
    requires
        in_sweep_order(left@),
        in_sweep_order(right@),
        forall|x: Seq<char>| #[trigger] text::among(left@, x) ==> !text::among(right@, x),
    ensures
        in_sweep_order(r@),
        forall|x: Seq<char>| #[trigger]
            text::among(r@, x) <==> text::among(left@, x) || text::among(right@, x),
{
    let n: usize = left.len();
    let m: usize = right.len();
    let mut out: Vec<String> = Vec::new();
    let mut i: usize = 0;
    let mut j: usize = 0;
    while i < n || j < m
        invariant
            n == left@.len(),
            m == right@.len(),
            0 <= i <= n,
            0 <= j <= m,
            in_sweep_order(left@),
            in_sweep_order(right@),
            in_sweep_order(out@),
            forall|x: Seq<char>| #[trigger] text::among(left@, x) ==> !text::among(right@, x),
            forall|k: int, p: int|
                0 <= k < out@.len() && i <= p < n ==> swept_before(
                    (#[trigger] out@[k])@,
                    (#[trigger] left@[p])@,
                ),
            forall|k: int, p: int|
                0 <= k < out@.len() && j <= p < m ==> swept_before(
                    (#[trigger] out@[k])@,
                    (#[trigger] right@[p])@,
                ),
            forall|x: Seq<char>| #[trigger]
                text::among(out@, x) <==> text::among(left@.take(i as int), x) || text::among(
                    right@.take(j as int),
                    x,
                ),
        decreases n - i + m - j,
    {
        let ghost before = out@;
        let from_left: bool = j >= m || (i < n && comes_before(&left[i], &right[j]));
        let ghost next = if from_left {
            left@[i as int]
        } else {
            right@[j as int]
        };
        let ghost (pi, pj) = (i as int, j as int);
        proof {
            if i < n && j < m {
                assert(text::among(left@, left@[i as int]@));
                assert(text::among(right@, right@[j as int]@));
                lemma_swept_before(left@[i as int]@, right@[j as int]@, left@[i as int]@);
            }
        }
        if from_left {
            out.push(left[i].clone());
            i = i + 1;
        } else {
            out.push(right[j].clone());
            j = j + 1;
        }
        proof {
            assert(out@ == before.push(next));
            assert forall|p: int| i <= p < n implies swept_before(next@, (#[trigger] left@[p])@) by {
                if !from_left {
                    lemma_swept_before(next@, left@[pi]@, left@[p]@);
                }
            }
            assert forall|p: int| j <= p < m implies swept_before(next@, (#[trigger] right@[p])@) by {
                if from_left {
                    lemma_swept_before(next@, right@[pj]@, right@[p]@);
                }
            }
            assert forall|x: Seq<char>| #[trigger]
                text::among(out@, x) <==> text::among(left@.take(i as int), x) || text::among(
                    right@.take(j as int),
                    x,
                ) by {
                text::lemma_among_push(before, next, x);
                if from_left {
                    assert(left@.take(i as int) =~= left@.take(pi).push(next));
                    text::lemma_among_push(left@.take(pi), next, x);
                } else {
                    assert(right@.take(j as int) =~= right@.take(pj).push(next));
                    text::lemma_among_push(right@.take(pj), next, x);
                }
            }
        }
    }
    assert(left@.take(n as int) =~= left@);
    assert(right@.take(m as int) =~= right@);
    out
}

/// Whatever lies below a directory is swept before the directory itself.
pub proof fn law_children_are_swept_before_their_parents(r: Seq<String>, i: int, j: int)
    requires
        in_sweep_order(r),
        0 <= i < r.len(),
        0 <= j < r.len(),
        text::has_prefix(r[i]@, r[j]@ + "/"@),
    ensures
        i < j,
{
    let below = r[i]@.skip(r[j]@.len() as int);
    let stem = r[j]@ + "/"@;
    reveal_strlit("/");
    assert(r[i]@ =~= r[j]@ + below) by {
        assert forall|k: int| 0 <= k < r[j]@.len() implies r[i]@[k] == r[j]@[k] by {
            assert(r[i]@.take(stem.len() as int)[k] == stem[k]);
        }
    }
    lemma_bytes_of_both(r[j]@, below);
    assert(below.len() > 0);
    lemma_some_bytes(below);
    if j < i {
        assert(swept_before(r[j]@, r[i]@));
    } else if i == j {
        assert(r[i]@.len() > r[j]@.len());
    }
}

proof fn lemma_bytes_of_both(a: Seq<char>, b: Seq<char>)
    ensures
        encode_utf8(a + b).len() == encode_utf8(a).len() + encode_utf8(b).len(),
    decreases a.len(),
{
    if a.len() == 0 {
        assert(a + b =~= b);
    } else {
        assert((a + b).drop_first() =~= a.drop_first() + b);
        lemma_bytes_of_both(a.drop_first(), b);
    }
}

proof fn lemma_some_bytes(a: Seq<char>)
    requires
        a.len() > 0,
    ensures
        encode_utf8(a).len() > 0,
{
    char_is_scalar(a[0]);
}

/// What is removed at a path.
#[derive(Debug, Clone, Copy, PartialEq, Eq, Structural)]
pub enum SweepStep {
    /// Nothing: it is a root of the class.
    Keep,
    /// The directory, if it emptied out; one that still holds something the listing did not cover
    /// stays.
    RemoveDir,
    /// The file or symlink.
    RemoveFile,
}

/// What is removed at a path that is swept.
pub open spec fn step_of_sweep(meta: Meta, is_root: bool) -> SweepStep {
    if meta.kind == FileKind::Dir {
        if is_root {
            SweepStep::Keep
        } else {
            SweepStep::RemoveDir
        }
    } else {
        SweepStep::RemoveFile
    }
}

/// What is removed at a path that is swept; `is_root` says whether it is a root of the class.
pub fn sweep_step(meta: &Meta, is_root: bool) -> (r: SweepStep)
    ensures
        r == step_of_sweep(*meta, is_root),
{
    if meta.kind == FileKind::Dir {
        if is_root {
            SweepStep::Keep
        } else {
            SweepStep::RemoveDir
        }
    } else {
        SweepStep::RemoveFile
    }
}

/// The paths that a sweep of the bulk class leaves alone: those planned, and those that are in no
/// bulk directory, for the ancestors of bulk directories are the worktree's.
pub fn bulk_keeps(listing: &Listing, planned: SortedSet<String>, bulk_dirs: &Vec<String>) -> (r: SortedSet<
    String,
>)
    requires
        listing.wf(),
        planned.wf(),
    ensures
        r.wf(),
        forall|v: Seq<char>| #[trigger]
            r.has(v) <==> planned.has(v) || (listing.entries@.dom().contains(v)
                && !index::component_in(paths::components(v), bulk_dirs@)),
{
    let ghost given = planned;
    let mut out: SortedSet<String> = planned;
    let ghost ks = listing.entries.keys@;
    let mut i: usize = 0;
    while i < listing.entries.keys.len()
        invariant
            0 <= i <= ks.len(),
            ks == listing.entries.keys@,
            listing.wf(),
            out.wf(),
            forall|v: Seq<char>| #[trigger]
                out.has(v) <==> given.has(v) || (order::holds(ks.take(i as int), v)
                    && !index::component_in(paths::components(v), bulk_dirs@)),
        decreases ks.len() - i,
    {
        let v: &String = &listing.entries.keys[i];
        let ghost before = out;
        let parts: Vec<String> = paths::components_of(v.as_str());
        let bulk: bool = index::has_component_in(&parts, bulk_dirs);
        if !bulk {
            let added: bool = out.insert(v.clone());
        }
        proof {
            let t = ks.take(i + 1);
            let u = ks.take(i as int);
            assert forall|x: Seq<char>| #[trigger]
                out.has(x) <==> given.has(x) || (order::holds(t, x) && !index::component_in(
                    paths::components(x),
                    bulk_dirs@,
                )) by {
                assert(before.has(x) <==> given.has(x) || (order::holds(u, x)
                    && !index::component_in(paths::components(x), bulk_dirs@)));
                if order::holds(u, x) {
                    let j = order::spot(u, x);
                    assert(0 <= j < u.len() && u[j]@ == x);
                    assert(t[j]@ == x);
                }
                if x == v@ {
                    assert(t[i as int]@ == x);
                }
                if order::holds(t, x) && x != v@ {
                    let j = order::spot(t, x);
                    assert(0 <= j < t.len() && t[j]@ == x);
                    assert(u[j]@ == x);
                }
            }
        }
        i = i + 1;
    }
    assert(ks.take(ks.len() as int) =~= ks);
    out
}

/// After a sweep the index names the plan's files and nothing else.
pub fn retain_planned(index: &TreeIndex, planned: &SortedSet<String>) -> (r: TreeIndex)
    requires
        index.wf(),
        planned.wf(),
    ensures
        r.wf(),
        forall|v: Seq<char>| #[trigger]
            r.files@.dom().contains(v) <==> index.files@.dom().contains(v) && planned.has(v),
        forall|v: Seq<char>| #[trigger]
            r.files@.dom().contains(v) ==> r.files@[v].stat == index.files@[v].stat
                && r.files@[v].chunks@ == index.files@[v].chunks@,
{
    let mut out: TreeIndex = TreeIndex::empty();
    let ghost ks = index.files.keys@;
    let mut i: usize = 0;
    while i < index.files.keys.len()
        invariant
            0 <= i <= ks.len(),
            ks == index.files.keys@,
            index.wf(),
            planned.wf(),
            out.wf(),
            forall|v: Seq<char>| #[trigger]
                out.files@.dom().contains(v) <==> order::holds(ks, v) && order::spot(ks, v) < i
                    && planned.has(v),
            forall|v: Seq<char>| #[trigger]
                out.files@.dom().contains(v) ==> out.files@[v].stat == index.files@[v].stat
                    && out.files@[v].chunks@ == index.files@[v].chunks@,
        decreases ks.len() - i,
    {
        let v: &String = &index.files.keys[i];
        proof {
            index.files.lemma_entry(i as int);
            order::lemma_spot(ks, i as int);
            assert forall|k: Seq<char>| order::holds(ks, k) && order::spot(ks, k) == i implies k
                == v@ by {
                assert(ks[order::spot(ks, k)]@ == k);
            }
        }
        if planned.contains(v) {
            let chunks: Vec<ChunkId> = index.files.values[i].chunks.clone();
            assert(chunks@ =~= index.files.values@[i as int].chunks@);
            let earlier: Option<IndexedFile> = out.files.insert(
                v.clone(),
                IndexedFile { stat: index.files.values[i].stat, chunks },
            );
        }
        i = i + 1;
    }
    proof {
        assert forall|v: Seq<char>| #[trigger]
            out.files@.dom().contains(v) <==> index.files@.dom().contains(v) && planned.has(v) by {
            if order::holds(ks, v) {
                let at = order::spot(ks, v);
                assert(0 <= at < ks.len() && ks[at]@ == v);
            }
        }
    }
    out
}

/// A moment: before or after the Unix epoch, and by how many nanoseconds.
#[derive(Debug, Clone, Copy, PartialEq, Eq, Structural)]
pub struct Moment {
    /// Before the epoch.
    pub before: bool,
    /// Nanoseconds.
    pub nanos: u64,
}

/// The moment that a number of nanoseconds since the Unix epoch names.
#[must_use]
pub fn system_time_from_ns(mtime_ns: i64) -> (r: Moment)
    ensures
        r.before == (mtime_ns < 0),
        mtime_ns == if r.before {
            -(r.nanos as int)
        } else {
            r.nanos as int
        },
{
    if mtime_ns >= 0 {
        Moment { before: false, nanos: mtime_ns as u64 }
    } else if mtime_ns == i64::MIN {
        Moment { before: true, nanos: 9_223_372_036_854_775_808 }
    } else {
        Moment { before: true, nanos: (-mtime_ns) as u64 }
    }
}

/// Materializing everything covers every class that the manifest holds, and is what materializing
/// each of them comes to: git first, then the workspace, then a bulk class that was captured, and the
/// local exclude last of all.
pub proof fn law_all_covers_every_class(
    m: Materializer,
    manifest: Manifest,
    all: Vec<ClassStep>,
    git: Vec<ClassStep>,
    workspace: Vec<ClassStep>,
    bulk: Vec<ClassStep>,
)
    requires
        call_ensures(Materializer::materialize, (&m, &manifest, MaterializeClass::All), all),
        call_ensures(Materializer::materialize, (&m, &manifest, MaterializeClass::Git), git),
        call_ensures(
            Materializer::materialize,
            (&m, &manifest, MaterializeClass::Workspace),
            workspace,
        ),
        call_ensures(Materializer::materialize, (&m, &manifest, MaterializeClass::Bulk), bulk),
    ensures
        all@.contains(ClassStep::Git),
        all@.contains(ClassStep::Workspace),
        all@.contains(ClassStep::Bulk) <==> manifest.sections.bulk is Ready,
        all@.len() > 0 && all@.last() == ClassStep::Exclude && all@[0] == ClassStep::Git,
        all@.no_duplicates(),
        git@.contains(ClassStep::Git) && git@.len() == 2 && git@.last() == ClassStep::Exclude,
        workspace@.contains(ClassStep::Workspace) && workspace@.len() == 1,
        bulk@.contains(ClassStep::Bulk) <==> manifest.sections.bulk is Ready,
        bulk@.len() <= 1,
        forall|step: ClassStep| #[trigger]
            git@.contains(step) || workspace@.contains(step) || bulk@.contains(step)
                <==> all@.contains(step),
        forall|i: int, j: int|
            0 <= i < j < all@.len() && (#[trigger] all@[i]) == ClassStep::Bulk ==> (
            #[trigger] all@[j]) == ClassStep::Exclude,
{
    assert(git@ =~= seq![ClassStep::Git, ClassStep::Exclude]);
    assert(workspace@ =~= seq![ClassStep::Workspace]);
    assert(git@[0] == ClassStep::Git && git@[1] == ClassStep::Exclude);
    assert(workspace@[0] == ClassStep::Workspace);
    if manifest.sections.bulk is Ready {
        assert(bulk@ =~= seq![ClassStep::Bulk]);
        assert(bulk@[0] == ClassStep::Bulk);
        assert(all@ =~= seq![
            ClassStep::Git,
            ClassStep::Workspace,
            ClassStep::Bulk,
            ClassStep::Exclude,
        ]);
        assert(all@[0] == ClassStep::Git && all@[1] == ClassStep::Workspace && all@[2]
            == ClassStep::Bulk && all@[3] == ClassStep::Exclude);
    } else {
        assert(bulk@ =~= Seq::empty());
        assert(all@ =~= seq![ClassStep::Git, ClassStep::Workspace, ClassStep::Exclude]);
        assert(all@[0] == ClassStep::Git && all@[1] == ClassStep::Workspace && all@[2]
            == ClassStep::Exclude);
    }
}

/// The worktree ends at the tree that the manifest names, from wherever it stood: it moves from the
/// tree last checked out where that is still in the repository, and is checked out whole otherwise;
/// a second checkout has nowhere to go. Only a move tells how many paths it changed.
pub proof fn law_the_worktree_ends_at_the_manifests_tree(
    m: Materializer,
    manifest: Manifest,
    state: &mut DiskState,
    still_here: bool,
    checkout: Checkout,
    changed: u64,
    report: &mut MaterializeReport,
    tree: String,
    again: Checkout,
)
    requires
        manifest.wf(),
        call_ensures(Materializer::checkout, (&m, &manifest, &*old(state), still_here), checkout),
        call_ensures(Materializer::checked_out, (&m, checkout, changed, state, report), ()),
        call_ensures(Materializer::checkout, (&m, &manifest, &*final(state), true), again),
        manifest.sections.git.refs@.dom().contains("refs/sealant/capture/worktree"@),
        manifest.sections.git.refs@["refs/sealant/capture/worktree"@] == tree,
    ensures
        final(state).worktree_tree == Some(tree),
        still_here && old(state).worktree_tree is Some ==> checkout == Checkout::Delta(
            old(state).worktree_tree->0,
            tree,
        ),
        !(still_here && old(state).worktree_tree is Some) ==> checkout == Checkout::Full(tree),
        again == Checkout::Delta(tree, tree),
        checkout is Delta ==> final(report).git_paths_changed == Some(changed),
        checkout is Full ==> *final(report) == *old(report),
        final(state).index_tree == old(state).index_tree,
        final(state).workspace == old(state).workspace,
        final(state).bulk == old(state).bulk,
{
}

/// A manifest without a worktree tree leaves the worktree alone.
pub proof fn law_no_worktree_tree_no_checkout(
    m: Materializer,
    manifest: Manifest,
    state: DiskState,
    still_here: bool,
    checkout: Checkout,
)
    requires
        manifest.wf(),
        call_ensures(Materializer::checkout, (&m, &manifest, &state, still_here), checkout),
    ensures
        checkout is Nothing <==> !manifest.sections.git.refs@.dom().contains(
            "refs/sealant/capture/worktree"@,
        ),
{
}

/// The index is read from the manifest's index tree, once: a second time there is nothing to read,
/// until the manifest names another tree.
pub proof fn law_the_index_is_read_once(
    m: Materializer,
    manifest: Manifest,
    state: &mut DiskState,
    r: Option<String>,
    second: &mut DiskState,
    again: Option<String>,
)
    requires
        manifest.wf(),
        call_ensures(Materializer::index_to_read, (&m, &manifest, state), r),
        *old(second) == *final(state),
        call_ensures(Materializer::index_to_read, (&m, &manifest, second), again),
    ensures
        again is None,
        r matches Some(tree) ==> manifest.sections.git.refs@.dom().contains(
            "refs/sealant/capture/index"@,
        ) && tree == manifest.sections.git.refs@["refs/sealant/capture/index"@] && final(state).index_tree == Some(tree),
        manifest.sections.git.refs@.dom().contains("refs/sealant/capture/index"@) && text::opt_view(
            old(state).index_tree,
        ) != Some(manifest.sections.git.refs@["refs/sealant/capture/index"@]@) ==> r is Some,
        r is None ==> *final(state) == *old(state),
        final(state).worktree_tree == old(state).worktree_tree,
{
}

/// The repository is checked unless the worktree merely moved and no pack came.
pub proof fn law_the_repository_is_checked_when_it_may_have_changed(
    m: Materializer,
    report: MaterializeReport,
    r: bool,
)
    requires
        call_ensures(Materializer::needs_fsck, (&m, &report), r),
    ensures
        report.git_packs > 0 ==> r,
        report.git_paths_changed is None ==> r,
        report.git_packs == 0 && report.git_paths_changed is Some ==> !r,
{
}

/// A file is written unless a regular file is there with the stat that the index has, the size and
/// time of the plan, and the plan's chunks; a file that is there keeps its content, and its mode is
/// set where it differs.
pub proof fn law_a_file_that_differs_is_written(
    v: String,
    entry: DirEntry,
    disk: OnDisk,
    index: TreeIndex,
    step: EntryStep,
)
    requires
        index.wf(),
        call_ensures(entry_step, (&v, &entry, &disk, &index), step),
        entry.kind == EntryKind::File,
    ensures
        !(disk is There) ==> step is Write,
        entry.chunks is None ==> step is Write,
        !index.files@.dom().contains(v@) ==> step is Write,
        disk matches OnDisk::There(meta) ==> {
            &&& meta.kind != FileKind::File ==> step is Write
            &&& meta.stat.size != entry.size || meta.stat.mtime != entry.mtime ==> step is Write
            &&& index.files@.dom().contains(v@) && index.files@[v@].stat != meta.stat
                ==> step is Write
            &&& index.files@.dom().contains(v@) && entry.chunks is Some && order::views(
                entry.chunks->0@,
            ) != order::views(index.files@[v@].chunks@) ==> step is Write
            &&& !(step is Write) ==> (step is SetMode <==> meta.mode & 0o7777 != entry.mode)
            &&& meta.kind == FileKind::File && index.files@.dom().contains(v@)
                && index.files@[v@].stat == meta.stat && meta.stat.size == entry.size
                && meta.stat.mtime == entry.mtime && entry.chunks is Some && order::views(
                entry.chunks->0@,
            ) == order::views(index.files@[v@].chunks@) ==> step is Keep || step is SetMode
        },
        step is Write || step is Keep || step is SetMode,
{
}

/// A directory is walked into under its own key, a symlink is created with the plan's text unless it
/// is there with it, and a member of a hardlink group is linked to its canonical file.
pub proof fn law_other_entries_are_brought_to_disk(
    v: String,
    entry: DirEntry,
    disk: OnDisk,
    index: TreeIndex,
    step: EntryStep,
)
    requires
        index.wf(),
        call_ensures(entry_step, (&v, &entry, &disk, &index), step),
    ensures
        entry.kind == EntryKind::Dir && entry.child is Some ==> step is Descend && step->Descend_0
            == entry.child->0,
        entry.kind == EntryKind::HardlinkGroup && entry.target is Some ==> step is Link
            && step->Link_0 == entry.target->0,
        entry.kind == EntryKind::Symlink && !(disk is Link) ==> step is Symlink,
        entry.kind == EntryKind::Symlink && step is Symlink && entry.target is Some
            ==> step->Symlink_0@ == entry.target->0@,
        entry.kind == EntryKind::Symlink && disk is Link && entry.target is Some
            && disk->Link_0@ == entry.target->0@ ==> step is Keep,
        entry.kind == EntryKind::Symlink && step is Keep && entry.target is Some ==> disk is Link
            && paths::components(disk->Link_0@) == paths::components(entry.target->0@),
        step is Descend ==> entry.kind == EntryKind::Dir,
        step is Link ==> entry.kind == EntryKind::HardlinkGroup,
{
}

/// Everything in a directory's listing is planned, with the directory, and stays planned; each entry
/// gets its step and each member of a hardlink group its link.
pub proof fn law_a_plan_names_every_entry(
    plan: &mut ClassWrite,
    vdir: &str,
    obj: DirObject,
    disk: Vec<OnDisk>,
    index: TreeIndex,
    report: &mut MaterializeReport,
    steps: Vec<EntryStep>,
    i: int,
    v: Seq<char>,
)
    requires
        old(plan).planned.wf(),
        disk@.len() == obj.entries@.len(),
        index.wf(),
        call_ensures(ClassWrite::plan_dir, (plan, vdir, &obj, &disk, &index, report), steps),
        0 <= i < obj.entries@.len(),
        vdir@.len() > 0,
        forall|k: int| 0 <= k < obj.entries@.len() ==> (#[trigger] obj.entries@[k]).name@.len() > 0,
    ensures
        steps@.len() == obj.entries@.len(),
        final(plan).planned.has(vdir@ + "/"@ + obj.entries@[i].name@),
        final(plan).planned.has(vdir@),
        old(plan).planned.has(v) ==> final(plan).planned.has(v),
        final(plan).planned.has(v) && !old(plan).planned.has(v) && v != vdir@ ==> exists|k: int|
            0 <= k < obj.entries@.len() && v == vdir@ + "/"@ + (#[trigger] obj.entries@[k]).name@,
        final(plan).links@.len() >= old(plan).links@.len(),
        obj.entries@[i].kind == EntryKind::HardlinkGroup && obj.entries@[i].target is Some
            ==> exists|k: int|
            old(plan).links@.len() <= k < final(plan).links@.len() && (#[trigger] final(plan).links@[k]).0@ == obj.entries@[i].target->0@ && final(plan).links@[k].1@ == vdir@
                + "/"@ + obj.entries@[i].name@ && final(plan).links@[k].2 == obj.entries@[i].mode,
        final(report).files == old(report).files && final(report).bytes == old(report).bytes,
        final(report).removed == old(report).removed,
        final(report).hardlinks == old(report).hardlinks,
{
    let es = obj.entries@;
    let p = paths::joined(vdir@, es[i].name@);
    assert(p == vdir@ + "/"@ + es[i].name@);
    assert(is_entry(vdir@, es, p));
    if final(plan).planned.has(v) && !old(plan).planned.has(v) && v != vdir@ {
        let k = choose|k: int|
            0 <= k < es.len() && paths::joined(vdir@, (#[trigger] es[k]).name@) == v;
        assert(v == vdir@ + "/"@ + es[k].name@);
    }
    if es[i].kind == EntryKind::HardlinkGroup && es[i].target is Some {
        lemma_links_of(vdir@, es, i);
        let n = old(plan).links@.len() as int;
        let added = final(plan).links@.skip(n);
        let want = (es[i].target->0@, p, es[i].mode);
        let views = link_views(added);
        let k = choose|k: int| 0 <= k < views.len() && views[k] == want;
        assert(views[k] == (added[k].0@, added[k].1@, added[k].2));
        assert(final(plan).links@[n + k] == added[k]);
    }
    lemma_counted_keeps(*old(report), es, steps@);
}

proof fn lemma_links_of(vdir: Seq<char>, entries: Seq<DirEntry>, i: int)
    requires
        0 <= i < entries.len(),
        entries[i].kind == EntryKind::HardlinkGroup && entries[i].target is Some,
    ensures
        links_of(vdir, entries).contains(
            (entries[i].target->0@, paths::joined(vdir, entries[i].name@), entries[i].mode),
        ),
    decreases entries.len(),
{
    let want = (entries[i].target->0@, paths::joined(vdir, entries[i].name@), entries[i].mode);
    let all = links_of(vdir, entries);
    let front = links_of(vdir, entries.drop_last());
    if i < entries.len() - 1 {
        lemma_links_of(vdir, entries.drop_last(), i);
        let k = choose|k: int| 0 <= k < front.len() && front[k] == want;
        assert(all[k] == want);
    } else {
        assert(all[all.len() - 1] == want);
    }
}

proof fn lemma_counted_keeps(
    report: MaterializeReport,
    entries: Seq<DirEntry>,
    steps: Seq<EntryStep>,
)
    ensures
        ({
            let r = counted_all(report, entries, steps);
            &&& r.files == report.files && r.bytes == report.bytes
            &&& r.removed == report.removed && r.hardlinks == report.hardlinks
        }),
    decreases entries.len(),
{
    if entries.len() > 0 {
        lemma_counted_keeps(report, entries.drop_last(), steps.drop_last());
    }
}

/// A sweep removes just what the class would capture and the plan does not name: nothing planned is
/// lost, and no file is left behind. A root of the class stays.
pub proof fn law_a_sweep_removes_what_is_not_planned(
    listing: Listing,
    planned: SortedSet<String>,
    r: Vec<String>,
    v: String,
    is_root: bool,
    step: SweepStep,
)
    requires
        listing.wf(),
        planned.wf(),
        call_ensures(sweep, (&listing, &planned), r),
        listing.entries@.dom().contains(v@),
        call_ensures(sweep_step, (&listing.entries@[v@], is_root), step),
    ensures
        planned.has(v@) ==> !order::views(r@).contains(v@),
        !planned.has(v@) ==> order::views(r@).contains(v@),
        forall|k: int|
            0 <= k < r@.len() ==> listing.entries@.dom().contains((#[trigger] r@[k])@)
                && !planned.has(r@[k]@),
        listing.entries@[v@].kind == FileKind::File || listing.entries@[v@].kind
            == FileKind::Symlink ==> step == SweepStep::RemoveFile,
        listing.entries@[v@].kind == FileKind::Dir ==> step == if is_root {
            SweepStep::Keep
        } else {
            SweepStep::RemoveDir
        },
{
    let rv = order::views(r@);
    if rv.contains(v@) {
        let k = choose|k: int| 0 <= k < rv.len() && rv[k] == v@;
        assert(r@[k]@ == v@);
        assert(text::among(r@, v@));
    }
    if !planned.has(v@) {
        assert(is_stale(listing, planned, v@));
        assert(text::among(r@, v@));
        let k = choose|k: int| 0 <= k < r@.len() && #[trigger] r@[k]@ == v@;
        assert(rv[k] == v@);
    }
    assert forall|k: int| 0 <= k < r@.len() implies listing.entries@.dom().contains(
        (#[trigger] r@[k])@,
    ) && !planned.has(r@[k]@) by {
        assert(text::among(r@, r@[k]@));
    }
}

/// A sweep of the bulk class stays in bulk directories: what has none of them on its path is kept,
/// and what has one is kept only if it is planned.
pub proof fn law_a_bulk_sweep_stays_in_bulk_directories(
    listing: Listing,
    planned: SortedSet<String>,
    bulk_dirs: Vec<String>,
    keep: SortedSet<String>,
    v: Seq<char>,
    i: int,
    j: int,
)
    requires
        listing.wf(),
        planned.wf(),
        call_ensures(bulk_keeps, (&listing, planned, &bulk_dirs), keep),
    ensures
        planned.has(v) ==> keep.has(v),
        listing.entries@.dom().contains(v) && (forall|a: int, b: int|
            0 <= a < paths::components(v).len() && 0 <= b < bulk_dirs@.len()
                ==> #[trigger] paths::components(v)[a] != (#[trigger] bulk_dirs@[b])@)
            ==> keep.has(v),
        0 <= i < paths::components(v).len() && 0 <= j < bulk_dirs@.len() && paths::components(v)[i]
            == bulk_dirs@[j]@ && paths::components(v)[i] != ".."@ && !planned.has(v) ==> !keep.has(
            v,
        ),
{
    let rel = paths::components(v);
    if 0 <= i < rel.len() && 0 <= j < bulk_dirs@.len() && rel[i] == bulk_dirs@[j]@ && rel[i]
        != ".."@ {
        assert(text::among(bulk_dirs@, rel[i]));
        assert(index::component_in(rel, bulk_dirs@));
    }
}

/// Members of a hardlink group are linked unless they are one file already.
pub proof fn law_members_are_linked_unless_one_file(canonical: OnDisk, member: OnDisk, r: bool)
    requires
        call_ensures(is_linked, (&canonical, &member), r),
    ensures
        r ==> canonical is There && member is There,
        r ==> canonical->There_0.stat.ino == member->There_0.stat.ino
            && canonical->There_0.stat.dev == member->There_0.stat.dev,
        canonical is There && member is There && canonical->There_0.kind == FileKind::File
            && member->There_0.kind == FileKind::File && canonical->There_0.stat.ino
            == member->There_0.stat.ino && canonical->There_0.stat.dev
            == member->There_0.stat.dev ==> r,
{
}

/// A chunk is found in the first pack that was opened with it, and is missing only where no pack
/// holds it; opening more packs moves no chunk.
pub proof fn law_a_chunk_is_found_in_the_first_pack_that_holds_it(
    store: &mut ChunkStore,
    ids: Vec<ChunkId>,
    i: int,
    found: Result<usize, MaterializeError>,
    other: ChunkId,
    before: Result<usize, MaterializeError>,
    after: Result<usize, MaterializeError>,
)
    requires
        old(store).wf(),
        old(store).packs < usize::MAX,
        call_ensures(ChunkStore::open, (store, &ids), ()),
        0 <= i < ids@.len(),
        call_ensures(ChunkStore::find, (&*final(store), &ids@[i]), found),
        call_ensures(ChunkStore::find, (&*old(store), &other), before),
        call_ensures(ChunkStore::find, (&*final(store), &other), after),
    ensures
        found is Ok,
        found->Ok_0 <= old(store).packs,
        before is Ok ==> after is Ok && after->Ok_0 == before->Ok_0,
        before is Err && after is Ok ==> after->Ok_0 == old(store).packs && exists|k: int|
            0 <= k < ids@.len() && (#[trigger] ids@[k])@ == other@,
        before is Err && (forall|k: int| 0 <= k < ids@.len() ==> (#[trigger] ids@[k])@ != other@)
            ==> after is Err,
        final(store).packs == old(store).packs + 1,
{
    assert(order::holds(ids@, ids@[i]@));
}

/// A chunk that is read has the digest that it was asked for by, whatever the packs hold.
pub proof fn law_a_chunk_read_is_the_chunk_asked_for(
    store: ChunkStore,
    id: ChunkId,
    packs: Vec<OpenPack>,
    r: Result<Vec<u8>, MaterializeError>,
)
    requires
        store.wf(),
        store.covers(packs@),
        call_ensures(ChunkStore::read, (&store, &id, &packs), r),
    ensures
        r matches Ok(plain) ==> chunk::sha256(plain@) == id@,
        !store.by_chunk@.dom().contains(id@) ==> r is Err,
{
}

/// Bytes are taken under a key just if they have the digest that it names; a key that names none,
/// and the index of a git pack, take any.
pub proof fn law_objects_are_verified_against_their_keys(
    key: &str,
    bytes: &[u8],
    r: Result<(), MaterializeError>,
    digest: Option<&str>,
)
    requires
        call_ensures(verify_key, (key, bytes), r),
        call_ensures(keys::key_digest, (key,), digest),
    ensures
        digest is Some && !text::has_suffix(key@, ".idx"@) ==> (r is Ok <==> digest->0@
            == chunk::content_name(bytes@)),
        digest is None || text::has_suffix(key@, ".idx"@) ==> r is Ok,
        r matches Err(e) ==> e is Corrupt,
{
}

/// A manifest is taken just if its bytes have the digest by which it was asked for.
pub proof fn law_a_manifest_is_taken_under_its_own_id(
    m: Materializer,
    key: &str,
    capture_id: &str,
    bytes: &[u8],
    parsed: Result<Manifest, String>,
    r: Result<EncodedManifest, MaterializeError>,
)
    requires
        call_ensures(Materializer::fetch_manifest, (&m, key, capture_id, bytes, parsed), r),
    ensures
        r is Ok <==> capture_id@ == chunk::content_name(bytes@) && parsed is Ok,
        r matches Ok(e) ==> e.capture_id@ == capture_id@ && e.bytes@ == bytes@ && e.manifest
            == parsed->Ok_0,
        capture_id@ != chunk::content_name(bytes@) ==> r is Err && r->Err_0 is ManifestMismatch,
{
}

/// After a sweep the index has just the planned files that it had, as they were.
pub proof fn law_the_index_keeps_the_planned_files(
    index: TreeIndex,
    planned: SortedSet<String>,
    r: TreeIndex,
    v: Seq<char>,
)
    requires
        index.wf(),
        planned.wf(),
        call_ensures(retain_planned, (&index, &planned), r),
    ensures
        index.files@.dom().contains(v) && planned.has(v) ==> r.files@.dom().contains(v)
            && r.files@[v].stat == index.files@[v].stat && r.files@[v].chunks@
            == index.files@[v].chunks@,
        r.files@.dom().contains(v) ==> index.files@.dom().contains(v) && planned.has(v),
{
}

/// A written file is indexed as it stands on disk, with the plan's chunks, and counted with its
/// bytes; the next decision on it, with the stat it was left with, keeps it.
pub proof fn law_a_written_file_is_kept_next_time(
    index: &mut TreeIndex,
    v: String,
    meta: Meta,
    entry: DirEntry,
    bytes: u64,
    report: &mut MaterializeReport,
    step: EntryStep,
)
    requires
        old(index).wf(),
        call_ensures(written, (index, v, meta.stat, &entry, bytes, report), ()),
        entry.kind == EntryKind::File,
        entry.chunks is Some,
        meta.kind == FileKind::File,
        meta.stat.size == entry.size,
        meta.stat.mtime == entry.mtime,
        meta.mode & 0o7777 == entry.mode,
        call_ensures(entry_step, (&v, &entry, &OnDisk::There(meta), &*final(index)), step),
        old(report).files < u64::MAX,
        old(report).bytes + bytes <= u64::MAX,
    ensures
        step is Keep,
        final(report).files == old(report).files + 1,
        final(report).bytes == old(report).bytes + bytes,
        forall|w: Seq<char>| #[trigger]
            old(index).files@.dom().contains(w) && w != v@ ==> final(index).files@[w] == old(index).files@[w],
{
}

/// What is counted while a workspace is brought to disk is counted once.
pub proof fn law_reports_count_by_one(
    removed: &mut MaterializeReport,
    linked: &mut MaterializeReport,
    fetched: &mut MaterializeReport,
    installed: &mut MaterializeReport,
    fresh: MaterializeReport,
)
    requires
        call_ensures(MaterializeReport::new, (), fresh),
        call_ensures(MaterializeReport::removed_one, (removed,), ()),
        call_ensures(MaterializeReport::linked_one, (linked,), ()),
        call_ensures(MaterializeReport::fetched_one, (fetched,), ()),
        call_ensures(MaterializeReport::installed_one, (installed,), ()),
        *old(removed) == fresh,
        *old(linked) == fresh,
        *old(fetched) == fresh,
        *old(installed) == fresh,
    ensures
        fresh.files == 0 && fresh.bytes == 0 && fresh.removed == 0 && fresh.symlinks == 0
            && fresh.hardlinks == 0 && fresh.packs_fetched == 0 && fresh.git_packs == 0,
        fresh.git_paths_changed is None && fresh.fsck is None,
        *final(removed) == (MaterializeReport { removed: 1, ..fresh }),
        *final(linked) == (MaterializeReport { hardlinks: 1, ..fresh }),
        *final(fetched) == (MaterializeReport { packs_fetched: 1, ..fresh }),
        *final(installed) == (MaterializeReport { git_packs: 1, ..fresh }),
{
}

/// A time is told from the Unix epoch, before it or after it, to the nanosecond.
pub proof fn law_times_are_told_from_the_epoch(ns: i64, r: Moment)
    requires
        call_ensures(system_time_from_ns, (ns,), r),
    ensures
        ns >= 0 ==> !r.before && r.nanos == ns,
        ns < 0 ==> r.before && r.nanos == -ns,
{
}

/// Whether a file matches and what is done for it are one decision.
pub proof fn law_a_matching_file_is_not_written(
    v: String,
    entry: DirEntry,
    disk: OnDisk,
    index: TreeIndex,
    matching: bool,
    step: EntryStep,
)
    requires
        index.wf(),
        entry.kind == EntryKind::File,
        call_ensures(file_matches, (&v, &entry, &disk, &index), matching),
        call_ensures(entry_step, (&v, &entry, &disk, &index), step),
    ensures
        matching <==> !(step is Write),
{
}

/// The roots of a restore are its targets, whole.
pub proof fn law_a_restore_goes_to_its_targets(
    root: FsPath,
    home: Option<FsPath>,
    credential_files: Vec<String>,
    targets: MaterializeTargets,
    r: ClassRoots,
)
    requires
        call_ensures(MaterializeTargets::new, (&root, home, credential_files), targets),
        call_ensures(MaterializeTargets::roots, (&targets,), r),
    ensures
        r.root@ == root@,
        home is Some <==> r.harness_home is Some,
        home is Some ==> r.harness_home->0@ == home->0@,
        r.credential_files@ == credential_files@,
        r.staging_dir@ == targets.staging_dir@,
        r.bulk_dirs@ == targets.bulk_dirs@,
        targets.cache_dir@.starts_with(root@) && targets.scratch_dir@.starts_with(root@)
            && targets.index_dir@.starts_with(root@),
{
    let p = targets.cache_dir@;
    assert(targets.cache_dir@.parts.take(root@.parts.len() as int) =~= root@.parts);
    assert(targets.scratch_dir@.parts.take(root@.parts.len() as int) =~= root@.parts);
    assert(targets.index_dir@.parts.take(root@.parts.len() as int) =~= root@.parts);
}

} // verus!
