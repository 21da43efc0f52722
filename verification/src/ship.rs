//! Staging and shipping. Snaps are staged on local disk; a worker uploads them oldest first, with
//! retry and coalescing, then registers each.
//!
//! What is on disk is read and written elsewhere. This module says where things are kept, which
//! queued captures may be claimed, coalesced or dropped, which files go with them, and what comes
//! next at an upload, at a register and at a pass over the queue.

use vstd::prelude::*;
use vstd::string::*;
use crate::count;
use crate::engine::Class;
use crate::manifest::CaptureKind;
use crate::order::SortedSet;
use crate::pacing;
use crate::paths::FsPath;
use crate::registrar::{RegisterRequest, RegisterResponse, RegistrarError};
use crate::sink;
use crate::sink::{PutOutcome, SinkError};
use crate::text;

verus! {

/// Most single-PUT objects whose URLs are minted in one channel call.
pub const PREFETCH_BATCH: usize = 500;

/// How large objects are uploaded.
#[derive(Debug, Clone, Copy, PartialEq, Eq, Structural)]
pub struct MultipartConfig {
    /// Objects at or above this size are uploaded as multipart (below: one PUT).
    pub threshold: u64,
    /// Preferred part size; a store that fixes its own wins.
    pub part_size: u64,
    /// Parts uploading at once per object.
    pub parts_in_flight: usize,
}

impl Default for MultipartConfig {
    /// 16 MiB threshold, 16 MiB parts, 4 in flight.
    fn default() -> (r: Self)
        ensures
            r.threshold == 16 * 1024 * 1024,
            r.part_size == 16 * 1024 * 1024,
            r.parts_in_flight == 4,
    {
        MultipartConfig { threshold: 16_777_216, part_size: 16_777_216, parts_in_flight: 4 }
    }
}

/// One object to upload: a key and a file under the staging objects directory.
#[derive(Debug)]
pub struct Upload {
    /// Store key.
    pub key: String,
    /// File name under `objects/`.
    pub file: String,
    /// Bytes.
    pub bytes: u64,
}

/// What an upload stands for.
#[verifier::ext_equal]
pub struct UploadModel {
    /// Store key.
    pub key: Seq<char>,
    /// File name.
    pub file: Seq<char>,
    /// Bytes.
    pub bytes: u64,
}

impl View for Upload {
    type V = UploadModel;

    open spec fn view(&self) -> UploadModel {
        UploadModel { key: self.key@, file: self.file@, bytes: self.bytes }
    }
}

impl Upload {
    /// A copy.
    pub fn copy(&self) -> (r: Self)
        ensures
            r == *self,
    {
        Upload { key: self.key.clone(), file: self.file.clone(), bytes: self.bytes }
    }
}

/// A copy of a list of uploads.
pub fn copy_uploads(uploads: &Vec<Upload>) -> (r: Vec<Upload>)
    ensures
        r@ == uploads@,
{
    let mut out: Vec<Upload> = Vec::new();
    let mut i: usize = 0;
    while i < uploads.len()
        invariant
            0 <= i <= uploads@.len(),
            out@ == uploads@.take(i as int),
        decreases uploads@.len() - i,
    {
        out.push(uploads[i].copy());
        i = i + 1;
        assert(out@ =~= uploads@.take(i as int));
    }
    assert(uploads@.take(uploads@.len() as int) =~= uploads@);
    out
}

/// One staged capture.
pub struct QueueEntry {
    /// Chain position.
    pub n: u64,
    /// Capture id.
    pub capture_id: String,
    /// Kind.
    pub kind: CaptureKind,
    /// The class the snap built; `None` for an entry an older daemon staged.
    pub class: Option<Class>,
    /// Objects in write order (packs, trees), the manifest last.
    pub uploads: Vec<Upload>,
    /// The register call.
    pub register: RegisterRequest,
}

/// A capture the registrar refused for the session's byte quota. It was dropped with every queued
/// capture that descends from it; the engine continues the chain from its parent.
pub struct RefusedCapture {
    /// Chain position the refused capture held.
    pub n: u64,
    /// Its capture id.
    pub capture_id: String,
    /// Its parent (the chain head the executor continues from).
    pub parent: Option<String>,
    /// The class that was refused, when the entry names one.
    pub class: Option<Class>,
    /// The registrar's reason code (`byte-quota`).
    pub reason: String,
    /// The session's budget in bytes, when the answer names it.
    pub limit: Option<u64>,
    /// Bytes priced against the session so far.
    pub used: Option<u64>,
    /// Bytes the refused call asked for.
    pub requested: Option<u64>,
    /// Every object the dropped captures staged.
    pub uploads: Vec<Upload>,
}

/// Shipping errors.
#[derive(Debug)]
#[allow(inconsistent_fields)]
pub enum ShipError {
    /// The registrar fenced this epoch; shipping stopped.
    Fenced(RegistrarError),
    /// The chain moved under us (another writer with our epoch, or a lost coalesce).
    Conflict(RegistrarError),
    /// The registrar refused this capture's bytes for the session's byte quota. Terminal: the
    /// entry and its staged bytes are dropped and the class stops.
    QuotaRefused {
        /// The registrar's reason code (`byte-quota`).
        reason: String,
        /// The session's budget in bytes, when the answer names it.
        limit: Option<u64>,
        /// Bytes priced against the session so far.
        used: Option<u64>,
        /// Bytes the refused call asked for.
        requested: Option<u64>,
    },
    /// Upload failed after retries.
    Upload {
        /// Key.
        key: String,
        /// Cause.
        source: SinkError,
    },
    /// Register failed after retries.
    Register {
        /// Position.
        n: u64,
        /// Cause.
        source: RegistrarError,
    },
    /// Staging I/O.
    Io(String),
    /// A queue entry could not be parsed.
    BadEntry {
        /// Path.
        path: String,
        /// Why.
        reason: String,
    },
}

impl ShipError {
    /// What the error says.
    pub open spec fn says(&self) -> Seq<char> {
        match self {
            ShipError::Fenced(e) => "fenced: "@ + e.says(),
            ShipError::Conflict(e) => "chain conflict: "@ + e.says(),
            ShipError::QuotaRefused { reason, limit, used, requested } => sink::quota_text(
                reason@,
                *limit,
                *used,
                *requested,
            ),
            ShipError::Upload { key, source } => "upload "@ + key@ + ": "@ + source.says(),
            ShipError::Register { n, source } => "register n="@ + text::decimal(*n as nat) + ": "@
                + source.says(),
            ShipError::Io(why) => why@,
            ShipError::BadEntry { path, reason } => "bad queue entry "@ + path@ + ": "@ + reason@,
        }
    }

    /// What the error says.
    pub fn message(&self) -> (r: String)
        ensures
            r@ == self.says(),
    {
        match self {
            ShipError::Fenced(e) => text::concat("fenced: ", e.message().as_str()),
            ShipError::Conflict(e) => text::concat("chain conflict: ", e.message().as_str()),
            ShipError::QuotaRefused { reason, limit, used, requested } => sink::quota_message(
                reason.as_str(),
                limit,
                used,
                requested,
            ),
            ShipError::Upload { key, source } => {
                let mut out: String = "upload ".to_owned();
                out.append(key.as_str());
                out.append(": ");
                out.append(source.message().as_str());
                out
            },
            ShipError::Register { n, source } => {
                let mut out: String = "register n=".to_owned();
                out.append(text::dec(*n).as_str());
                out.append(": ");
                out.append(source.message().as_str());
                out
            },
            ShipError::Io(why) => why.clone(),
            ShipError::BadEntry { path, reason } => {
                let mut out: String = "bad queue entry ".to_owned();
                out.append(path.as_str());
                out.append(": ");
                out.append(reason.as_str());
                out
            },
        }
    }
}

/// Whether a queued capture lists a file.
pub open spec fn lists(pending: Seq<QueueEntry>, file: Seq<char>) -> bool {
    exists|i: int| 0 <= i < pending.len() && #[trigger] names_file(pending[i].uploads@, file)
}

/// Whether a list of uploads names a file.
pub open spec fn names_file(uploads: Seq<Upload>, file: Seq<char>) -> bool {
    exists|j: int| 0 <= j < uploads.len() && (#[trigger] uploads[j]).file@ == file
}

/// Whether a list of uploads names a file.
pub fn names(uploads: &Vec<Upload>, file: &str) -> (r: bool)
    ensures
        r == names_file(uploads@, file@),
{
    let mut i: usize = 0;
    while i < uploads.len()
        invariant
            0 <= i <= uploads@.len(),
            forall|j: int| 0 <= j < i ==> (#[trigger] uploads@[j]).file@ != file@,
        decreases uploads@.len() - i,
    {
        if text::str_eq(uploads[i].file.as_str(), file) {
            return true;
        }
        i = i + 1;
    }
    false
}

/// Whether a queued capture lists a file.
pub fn is_listed(pending: &Vec<QueueEntry>, file: &str) -> (r: bool)
    ensures
        r == lists(pending@, file@),
{
    let mut i: usize = 0;
    while i < pending.len()
        invariant
            0 <= i <= pending@.len(),
            forall|j: int|
                0 <= j < i ==> !#[trigger] names_file(pending@[j].uploads@, file@),
        decreases pending@.len() - i,
    {
        if names(&pending[i].uploads, file) {
            assert(names_file(pending@[i as int].uploads@, file@));
            return true;
        }
        i = i + 1;
    }
    false
}

/// The object files of `uploads` that no queued capture lists: those to remove. The marks of what
/// was uploaded stay, so an unchanged object listed by a later capture is neither staged nor
/// uploaded again within this epoch. A file that a queued capture still lists stays: it is read
/// from staging when that capture's turn comes.
pub fn discard_unreferenced(pending: &Vec<QueueEntry>, uploads: &Vec<Upload>) -> (r: SortedSet<
    String,
>)
    ensures
        r.wf(),
        forall|f: Seq<char>| #[trigger]
            r.has(f) <==> names_file(uploads@, f) && !lists(pending@, f),
{
    let mut removed: SortedSet<String> = SortedSet::new();
    let mut i: usize = 0;
    assert(uploads@.take(0) =~= Seq::empty());
    while i < uploads.len()
        invariant
            0 <= i <= uploads@.len(),
            removed.wf(),
            forall|f: Seq<char>| #[trigger]
                removed.has(f) <==> names_file(uploads@.take(i as int), f) && !lists(pending@, f),
        decreases uploads@.len() - i,
    {
        let ghost before = removed;
        let file: &String = &uploads[i].file;
        let listed: bool = is_listed(pending, file.as_str());
        if !listed {
            let added: bool = removed.insert(file.clone());
        }
        proof {
            let t = uploads@.take(i + 1);
            let u = uploads@.take(i as int);
            assert forall|f: Seq<char>| #[trigger]
                removed.has(f) <==> names_file(t, f) && !lists(pending@, f) by {
                assert(before.has(f) <==> names_file(u, f) && !lists(pending@, f));
                if names_file(t, f) && f != file@ {
                    let j = choose|j: int| 0 <= j < t.len() && (#[trigger] t[j]).file@ == f;
                    assert(u[j].file@ == f);
                }
                if names_file(u, f) {
                    let j = choose|j: int| 0 <= j < u.len() && (#[trigger] u[j]).file@ == f;
                    assert(t[j].file@ == f);
                }
                if f == file@ {
                    assert(t[i as int].file@ == f);
                }
            }
        }
        i = i + 1;
    }
    assert(uploads@.take(uploads@.len() as int) =~= uploads@);
    removed
}

/// Queued captures with one more, behind those at the same position or before it.
pub open spec fn placed(s: Seq<QueueEntry>, e: QueueEntry) -> Seq<QueueEntry>
    decreases s.len(),
{
    if s.len() == 0 || s.last().n <= e.n {
        s.push(e)
    } else {
        placed(s.drop_last(), e).push(s.last())
    }
}

/// Queued captures, oldest first.
pub open spec fn oldest_first(s: Seq<QueueEntry>) -> Seq<QueueEntry>
    decreases s.len(),
{
    if s.len() == 0 {
        Seq::empty()
    } else {
        placed(oldest_first(s.drop_last()), s.last())
    }
}

/// Whether queued captures stand in the order of their positions.
pub open spec fn in_order(s: Seq<QueueEntry>) -> bool {
    forall|i: int, j: int| 0 <= i < j < s.len() ==> (#[trigger] s[i]).n <= (#[trigger] s[j]).n
}

proof fn lemma_placed(s: Seq<QueueEntry>, e: QueueEntry)
    requires
        in_order(s),
    ensures
        in_order(placed(s, e)),
        placed(s, e).len() == s.len() + 1,
        placed(s, e).to_multiset() == s.to_multiset().insert(e),
        forall|i: int|
            0 <= i < placed(s, e).len() ==> (#[trigger] placed(s, e)[i]).n <= e.n || (s.len() > 0
                && placed(s, e)[i].n <= s.last().n),
    decreases s.len(),
{
    broadcast use vstd::seq_lib::group_to_multiset_ensures;

    if s.len() == 0 || s.last().n <= e.n {
    } else {
        assert(s =~= s.drop_last().push(s.last()));
        assert(in_order(s.drop_last())) by {
            assert forall|i: int, j: int| 0 <= i < j < s.drop_last().len() implies (
            #[trigger] s.drop_last()[i]).n <= (#[trigger] s.drop_last()[j]).n by {
                assert(s[i].n <= s[j].n);
            }
        }
        lemma_placed(s.drop_last(), e);
        let p = placed(s.drop_last(), e);
        assert(placed(s, e).to_multiset() =~= s.to_multiset().insert(e));
        assert forall|i: int, j: int| 0 <= i < j < placed(s, e).len() implies (
        #[trigger] placed(s, e)[i]).n <= (#[trigger] placed(s, e)[j]).n by {
            if j < p.len() {
                assert(p[i].n <= p[j].n);
            } else {
                assert(p[i].n <= e.n || (s.drop_last().len() > 0 && p[i].n
                    <= s.drop_last().last().n));
                if s.len() > 1 {
                    assert(s[s.len() - 2].n <= s[s.len() - 1].n);
                }
            }
        }
        assert forall|i: int| 0 <= i < placed(s, e).len() implies (#[trigger] placed(s, e)[i]).n
            <= e.n || (s.len() > 0 && placed(s, e)[i].n <= s.last().n) by {
            assert(placed(s, e)[placed(s, e).len() - 1] == s.last());
            if i < p.len() {
                assert(placed(s, e)[i].n <= placed(s, e)[placed(s, e).len() - 1].n);
            }
        }
    }
}

/// The queue stands in the order of the chain, and holds what was read, each as often.
pub proof fn law_the_queue_is_in_order(s: Seq<QueueEntry>)
    ensures
        in_order(oldest_first(s)),
        oldest_first(s).len() == s.len(),
        oldest_first(s).to_multiset() == s.to_multiset(),
    decreases s.len(),
{
    broadcast use vstd::seq_lib::group_to_multiset_ensures;

    if s.len() > 0 {
        assert(s =~= s.drop_last().push(s.last()));
        law_the_queue_is_in_order(s.drop_last());
        lemma_placed(oldest_first(s.drop_last()), s.last());
    }
}

/// Put the captures read from the queue in order, oldest first.
pub fn pending(entries: Vec<QueueEntry>) -> (r: Vec<QueueEntry>)
    ensures
        r@ == oldest_first(entries@),
        in_order(r@),
        r@.to_multiset() == entries@.to_multiset(),
{
    let ghost all = entries@;
    let mut rest: Vec<QueueEntry> = entries;
    let mut flipped: Vec<QueueEntry> = Vec::new();
    while rest.len() > 0
        invariant
            rest@.len() + flipped@.len() == all.len(),
            rest@ == all.take(rest@.len() as int),
            forall|i: int|
                0 <= i < flipped@.len() ==> #[trigger] flipped@[i] == all[all.len() - 1 - i],
        decreases rest@.len(),
    {
        let e: QueueEntry = rest.pop().unwrap();
        flipped.push(e);
        assert(rest@ =~= all.take(rest@.len() as int));
    }
    let mut out: Vec<QueueEntry> = Vec::new();
    assert(all.take(0) =~= Seq::empty());
    while flipped.len() > 0
        invariant
            flipped@.len() <= all.len(),
            forall|i: int|
                0 <= i < flipped@.len() ==> #[trigger] flipped@[i] == all[all.len() - 1 - i],
            out@ == oldest_first(all.take(all.len() - flipped@.len())),
        decreases flipped@.len(),
    {
        let ghost done = all.len() - flipped@.len();
        let e: QueueEntry = flipped.pop().unwrap();
        proof {
            let t = all.take(done + 1);
            assert(t.drop_last() =~= all.take(done as int));
            assert(t.last() == e);
        }
        place(&mut out, e);
    }
    assert(all.take(all.len() as int) =~= all);
    proof {
        law_the_queue_is_in_order(all);
    }
    out
}

fn place(out: &mut Vec<QueueEntry>, e: QueueEntry)
    ensures
        final(out)@ == placed(old(out)@, e),
{
    let ghost s = out@;
    let mut i: usize = out.len();
    assert(s.take(s.len() as int) =~= s);
    assert(s.skip(s.len() as int) =~= Seq::empty());
    assert(placed(s.take(i as int), e) + s.skip(i as int) =~= placed(s, e));
    while i > 0 && out[i - 1].n > e.n
        invariant
            0 <= i <= s.len(),
            out@ == s,
            placed(s, e) == placed(s.take(i as int), e) + s.skip(i as int),
        decreases i,
    {
        proof {
            let t = s.take(i as int);
            assert(t.last() == s[i - 1]);
            assert(t.drop_last() =~= s.take(i - 1));
            assert(placed(t, e) == placed(s.take(i - 1), e).push(s[i - 1]));
            assert(placed(s.take(i - 1), e).push(s[i - 1]) + s.skip(i as int) =~= placed(
                s.take(i - 1),
                e,
            ) + s.skip(i - 1));
        }
        i = i - 1;
    }
    out.insert(i, e);
    proof {
        let t = s.take(i as int);
        if i > 0 {
            assert(t.last() == s[i - 1]);
        }
        assert(placed(t, e) == t.push(e));
        assert(out@ =~= t.push(e) + s.skip(i as int));
    }
}

/// The staging area: where it is, whose it is, what is being shipped, and what was refused.
pub struct Staging {
    /// Root.
    pub root: FsPath,
    /// The worktree entries are staged under.
    pub worktree: String,
    /// The epoch entries are staged under.
    pub epoch: u64,
    /// The position being shipped.
    pub in_flight: Option<u64>,
    /// Captures the registrar refused, for the engine to read at its next snap.
    pub refusals: Vec<RefusedCapture>,
}

/// A text that can be one component of a path: every slash becomes an underscore.
pub open spec fn flattened(s: Seq<char>) -> Seq<char> {
    s.map_values(
        |c: char|
            if c == '/' {
                '_'
            } else {
                c
            },
    )
}

/// A text that can be one component of a path.
fn flatten(s: &str) -> (r: String)
    ensures
        r@ == flattened(s@),
{
    let chars: Vec<char> = text::chars_of(s);
    let mut out: String = String::new();
    let mut i: usize = 0;
    while i < chars.len()
        invariant
            0 <= i <= chars@.len(),
            chars@ == s@,
            out@ == flattened(s@.take(i as int)),
        decreases chars@.len() - i,
    {
        if chars[i] == '/' {
            out.push('_');
        } else {
            out.push(chars[i]);
        }
        i = i + 1;
        assert(out@ =~= flattened(s@.take(i as int)));
    }
    assert(s@.take(s@.len() as int) =~= s@);
    out
}

impl Staging {
    /// Staging at `dir` for `worktree_id` at `epoch`. Upload acks are kept per worktree and epoch:
    /// an object acked under a prior identity was written under a prior prefix and must be
    /// uploaded again.
    pub fn open(dir: &FsPath, worktree_id: &str, epoch: u64) -> (r: Self)
        ensures
            r.root@ == dir@,
            r.worktree@ == worktree_id@,
            r.epoch == epoch,
            r.in_flight is None,
            r.refusals@.len() == 0,
    {
        Staging {
            root: dir.copy(),
            worktree: worktree_id.to_owned(),
            epoch,
            in_flight: None,
            refusals: Vec::new(),
        }
    }

    /// The worktree and epoch entries are staged under.
    #[must_use]
    pub fn identity(&self) -> (r: (String, u64))
        ensures
            r.0 == self.worktree,
            r.1 == self.epoch,
    {
        (self.worktree.clone(), self.epoch)
    }

    /// Move to `worktree_id` at `epoch` (a re-plan). Acks of the previous identity stop counting;
    /// entries already queued become foreign.
    pub fn set_identity(&mut self, worktree_id: &str, epoch: u64)
        ensures
            final(self).worktree@ == worktree_id@,
            final(self).epoch == epoch,
            *final(self) == (Staging {
                worktree: final(self).worktree,
                epoch: final(self).epoch,
                ..*old(self)
            }),
    {
        self.worktree = worktree_id.to_owned();
        self.epoch = epoch;
    }

    /// Whether `entry` was staged under another identity than the current one.
    pub open spec fn foreign(&self, entry: QueueEntry) -> bool {
        entry.register.worktree_id@ != self.worktree@ || entry.register.epoch != self.epoch
    }

    /// Whether `entry` was staged under another identity than the current one.
    #[must_use]
    pub fn is_foreign(&self, entry: &QueueEntry) -> (r: bool)
        ensures
            r == self.foreign(*entry),
    {
        !text::str_eq(entry.register.worktree_id.as_str(), self.worktree.as_str())
            || entry.register.epoch != self.epoch
    }

    /// The queued captures to drop after a re-plan, by their place in the queue: those staged under
    /// another identity that are not being shipped right now.
    pub fn discard_foreign(&self, pending: &Vec<QueueEntry>) -> (r: Vec<bool>)
        ensures
            r@.len() == pending@.len(),
            forall|i: int|
                0 <= i < pending@.len() ==> #[trigger] r@[i] == (self.foreign(pending@[i])
                    && self.in_flight != Some(pending@[i].n)),
    {
        let mut out: Vec<bool> = Vec::new();
        let mut i: usize = 0;
        while i < pending.len()
            invariant
                0 <= i <= pending@.len(),
                out@.len() == i,
                forall|j: int|
                    0 <= j < i ==> #[trigger] out@[j] == (self.foreign(pending@[j])
                        && self.in_flight != Some(pending@[j].n)),
            decreases pending@.len() - i,
        {
            let busy: bool = match self.in_flight {
                Some(n) => n == pending[i].n,
                None => false,
            };
            out.push(self.is_foreign(&pending[i]) && !busy);
            i = i + 1;
        }
        out
    }

    /// Root.
    #[must_use]
    pub fn dir(&self) -> (r: &FsPath)
        ensures
            *r == self.root,
    {
        &self.root
    }

    /// Where packs, trees and manifests are written before upload.
    #[must_use]
    pub fn objects_dir(&self) -> (r: FsPath)
        ensures
            r@ == self.root@.child("objects"@),
    {
        self.root.child("objects")
    }

    /// Scratch space (temporary git indexes).
    #[must_use]
    pub fn scratch_dir(&self) -> (r: FsPath)
        ensures
            r@ == self.root@.child("scratch"@),
    {
        self.root.child("scratch")
    }

    /// Persisted tree indexes and the chunk map.
    #[must_use]
    pub fn index_dir(&self) -> (r: FsPath)
        ensures
            r@ == self.root@.child("index"@),
    {
        self.root.child("index")
    }

    /// Materialize-side pack cache.
    #[must_use]
    pub fn cache_dir(&self) -> (r: FsPath)
        ensures
            r@ == self.root@.child("cache"@),
    {
        self.root.child("cache")
    }

    /// Where the queue entries are.
    #[must_use]
    pub fn queue_dir(&self) -> (r: FsPath)
        ensures
            r@ == self.root@.child("queue"@),
    {
        self.root.child("queue")
    }

    /// Where the entry at position `n` is: a name of twenty digits, so that the names sort as the
    /// positions do.
    #[must_use]
    pub fn queue_path(&self, n: u64) -> (r: FsPath)
        ensures
            r@ == self.root@.child("queue"@).child(
                text::decimal_padded(n as nat, 20) + ".json"@,
            ),
    {
        let mut name: String = text::dec_padded(n, 20);
        name.append(".json");
        self.root.child("queue").child(name.as_str())
    }

    /// Where the acks of the current identity are.
    #[must_use]
    pub fn marker_dir(&self) -> (r: FsPath)
        ensures
            r@ == self.root@.child("uploaded"@).child(flattened(self.worktree@)).child(
                text::decimal(self.epoch as nat),
            ),
    {
        self.root.child("uploaded").child(flatten(self.worktree.as_str()).as_str()).child(
            text::dec(self.epoch).as_str(),
        )
    }

    /// The ack of an object file.
    #[must_use]
    pub fn marker_path(&self, file: &str) -> (r: FsPath)
        ensures
            r@ == self.root@.child("uploaded"@).child(flattened(self.worktree@)).child(
                text::decimal(self.epoch as nat),
            ).child(file@),
    {
        self.marker_dir().child(file)
    }

    /// Claim `entry` for shipping: mark it in flight if `current`, what the queue now holds at its
    /// position, is still it. `false` when it was coalesced away (or acked) meanwhile.
    #[must_use]
    pub fn claim(&mut self, entry: &QueueEntry, current: Option<&QueueEntry>) -> (r: bool)
        ensures
            r == can_claim(
                *entry,
                match current {
                    Some(e) => Some(*e),
                    None => None,
                },
            ),
            *final(self) == (Staging {
                in_flight: if r {
                    Some(entry.n)
                } else {
                    None
                },
                ..*old(self)
            }),
    {
        let same: bool = match current {
            Some(e) => text::str_eq(e.capture_id.as_str(), entry.capture_id.as_str()),
            None => false,
        };
        self.in_flight = if same {
            Some(entry.n)
        } else {
            None
        };
        same
    }

    /// The shipper is done with the claimed entry (shipped or failed).
    pub fn release(&mut self)
        ensures
            *final(self) == (Staging { in_flight: None, ..*old(self) }),
    {
        self.in_flight = None;
    }

    /// Whether the newest queued capture may be coalesced with.
    pub open spec fn may_coalesce(&self, pending: Seq<QueueEntry>) -> bool {
        pending.len() > 0 && pending.last().kind == CaptureKind::Auto && self.in_flight != Some(
            pending.last().n,
        )
    }

    /// The newest pending entry if it is an `auto` capture not yet being shipped: the one a new
    /// `auto` snap may coalesce with (taking its `n` and parent).
    pub fn coalescible<'a>(&self, pending: &'a Vec<QueueEntry>) -> (r: Option<&'a QueueEntry>)
        ensures
            match r {
                Some(e) => self.may_coalesce(pending@) && *e == pending@.last(),
                None => !self.may_coalesce(pending@),
            },
    {
        let len: usize = pending.len();
        if len == 0 {
            return None;
        }
        let last: &QueueEntry = &pending[len - 1];
        let busy: bool = match self.in_flight {
            Some(n) => n == last.n,
            None => false,
        };
        if last.kind == CaptureKind::Auto && !busy {
            Some(last)
        } else {
            None
        }
    }

    /// Drop `entry` because the registrar refused it for good, with every queued capture after it
    /// (they name it as their parent and can never register). Gives the positions dropped; the
    /// refusal, with all the objects they staged, is kept for the engine.
    pub fn drop_refused(
        &mut self,
        pending: &Vec<QueueEntry>,
        entry: &QueueEntry,
        refusal: RefusedCapture,
    ) -> (r: Vec<u64>)
        ensures
            r@ == dropped_from(pending@, entry.n),
            *final(self) == (Staging { refusals: final(self).refusals, ..*old(self) }),
            final(self).refusals@.len() == old(self).refusals@.len() + 1,
            final(self).refusals@.drop_last() == old(self).refusals@,
            ({
                let kept = final(self).refusals@.last();
                &&& kept == (RefusedCapture { uploads: kept.uploads, ..refusal })
                &&& kept.uploads@ == refusal.uploads@ + uploads_from(pending@, entry.n)
            }),
    {
        let ghost given = refusal;
        let mut refusal: RefusedCapture = refusal;
        let mut dropped: Vec<u64> = Vec::new();
        let mut i: usize = 0;
        proof {
            assert(pending@.take(0) =~= Seq::empty());
            assert(refusal.uploads@ =~= given.uploads@ + uploads_from(pending@.take(0), entry.n));
        }
        while i < pending.len()
            invariant
                0 <= i <= pending@.len(),
                dropped@ == dropped_from(pending@.take(i as int), entry.n),
                refusal == (RefusedCapture { uploads: refusal.uploads, ..given }),
                refusal.uploads@ == given.uploads@ + uploads_from(
                    pending@.take(i as int),
                    entry.n,
                ),
            decreases pending@.len() - i,
        {
            proof {
                let t = pending@.take(i + 1);
                assert(t.drop_last() =~= pending@.take(i as int));
                assert(t.last() == pending@[i as int]);
            }
            let queued: &QueueEntry = &pending[i];
            if queued.n >= entry.n {
                let ghost before = refusal.uploads@;
                let mut more: Vec<Upload> = copy_uploads(&queued.uploads);
                refusal.uploads.append(&mut more);
                dropped.push(queued.n);
                assert(refusal.uploads@ =~= given.uploads@ + (uploads_from(
                    pending@.take(i as int),
                    entry.n,
                ) + queued.uploads@));
            }
            i = i + 1;
        }
        assert(pending@.take(pending@.len() as int) =~= pending@);
        self.refusals.push(refusal);
        assert(self.refusals@.drop_last() =~= old(self).refusals@);
        dropped
    }

    /// Take the refusals recorded since the last call (the engine applies them).
    #[must_use]
    pub fn take_refusals(&mut self) -> (r: Vec<RefusedCapture>)
        ensures
            r@ == old(self).refusals@,
            final(self).refusals@.len() == 0,
            *final(self) == (Staging { refusals: final(self).refusals, ..*old(self) }),
    {
        let mut out: Vec<RefusedCapture> = Vec::new();
        std::mem::swap(&mut out, &mut self.refusals);
        out
    }
}

/// The positions in the queue from `n` on.
pub open spec fn dropped_from(pending: Seq<QueueEntry>, n: u64) -> Seq<u64>
    decreases pending.len(),
{
    if pending.len() == 0 {
        Seq::empty()
    } else {
        let front = dropped_from(pending.drop_last(), n);
        if pending.last().n >= n {
            front.push(pending.last().n)
        } else {
            front
        }
    }
}

/// What the queued captures from `n` on staged.
pub open spec fn uploads_from(pending: Seq<QueueEntry>, n: u64) -> Seq<Upload>
    decreases pending.len(),
{
    if pending.len() == 0 {
        Seq::empty()
    } else {
        let front = uploads_from(pending.drop_last(), n);
        if pending.last().n >= n {
            front + pending.last().uploads@
        } else {
            front
        }
    }
}

/// Whether `entry` may be claimed where the queue holds `current` at its position.
pub open spec fn can_claim(entry: QueueEntry, current: Option<QueueEntry>) -> bool {
    current is Some && current->0.capture_id@ == entry.capture_id@
}

/// A capture that was claimed is never coalesced away while it is being shipped, and one that was
/// replaced is never claimed.
pub proof fn law_claim_and_coalesce_exclude_each_other(
    staging: Staging,
    entry: QueueEntry,
    replacement: QueueEntry,
    pending: Seq<QueueEntry>,
)
    requires
        pending.len() > 0,
        pending.last().n == entry.n,
    ensures
        staging.in_flight == Some(entry.n) ==> !staging.may_coalesce(pending),
        replacement.capture_id@ != entry.capture_id@ ==> !can_claim(entry, Some(replacement)),
{
}

/// Live counters.
pub struct ShipStatus {
    /// Objects uploaded.
    pub uploaded_objects: u64,
    /// Bytes uploaded.
    pub uploaded_bytes: u64,
    /// Objects skipped as already present.
    pub already_present: u64,
    /// Captures registered.
    pub registered: u64,
    /// Highest registered n.
    pub head_n: Option<u64>,
    /// Whether the epoch was fenced.
    pub fenced: bool,
    /// Failed attempts (uploads and registers).
    pub failures: u64,
    /// The small class was refused for the session's byte quota.
    pub refused_small: bool,
    /// The bulk class was refused for the session's byte quota; no bulk snap runs until the next
    /// epoch or re-plan.
    pub refused_bulk: bool,
}

/// A point-in-time copy of [`ShipStatus`].
#[derive(Debug, Clone, Copy, PartialEq, Eq, Structural)]
pub struct ShipSnapshot {
    /// Objects uploaded.
    pub uploaded_objects: u64,
    /// Bytes uploaded.
    pub uploaded_bytes: u64,
    /// Objects already present.
    pub already_present: u64,
    /// Captures registered.
    pub registered: u64,
    /// Highest registered n.
    pub head_n: Option<u64>,
    /// Fenced.
    pub fenced: bool,
    /// Failed attempts.
    pub failures: u64,
    /// The small class was refused for the byte quota.
    pub refused_small: bool,
    /// The bulk class was refused for the byte quota.
    pub refused_bulk: bool,
}

impl ShipStatus {
    /// Nothing shipped yet.
    pub fn new() -> (r: Self)
        ensures
            r.uploaded_objects == 0,
            r.uploaded_bytes == 0,
            r.already_present == 0,
            r.registered == 0,
            r.head_n is None,
            !r.fenced,
            r.failures == 0,
            !r.refused_small,
            !r.refused_bulk,
    {
        ShipStatus {
            uploaded_objects: 0,
            uploaded_bytes: 0,
            already_present: 0,
            registered: 0,
            head_n: None,
            fenced: false,
            failures: 0,
            refused_small: false,
            refused_bulk: false,
        }
    }

    /// Snapshot as plain numbers.
    #[must_use]
    pub fn snapshot(&self) -> (r: ShipSnapshot)
        ensures
            r.uploaded_objects == self.uploaded_objects,
            r.uploaded_bytes == self.uploaded_bytes,
            r.already_present == self.already_present,
            r.registered == self.registered,
            r.head_n == self.head_n,
            r.fenced == self.fenced,
            r.failures == self.failures,
            r.refused_small == self.refused_small,
            r.refused_bulk == self.refused_bulk,
    {
        ShipSnapshot {
            uploaded_objects: self.uploaded_objects,
            uploaded_bytes: self.uploaded_bytes,
            already_present: self.already_present,
            registered: self.registered,
            head_n: self.head_n,
            fenced: self.fenced,
            failures: self.failures,
            refused_small: self.refused_small,
            refused_bulk: self.refused_bulk,
        }
    }

    /// Whether `class` was refused.
    pub open spec fn refused(&self, class: Class) -> bool {
        match class {
            Class::Small => self.refused_small,
            Class::Bulk => self.refused_bulk,
        }
    }

    /// The flag for `class`.
    #[must_use]
    pub fn refused_flag(&self, class: Class) -> (r: bool)
        ensures
            r == self.refused(class),
    {
        match class {
            Class::Small => self.refused_small,
            Class::Bulk => self.refused_bulk,
        }
    }

    /// The counters with the flag for `class` set.
    pub open spec fn with_refused(self, class: Option<Class>, refused: bool) -> ShipStatus {
        match class {
            Some(Class::Small) => ShipStatus { refused_small: refused, ..self },
            Some(Class::Bulk) => ShipStatus { refused_bulk: refused, ..self },
            None => self,
        }
    }

    /// Set the flag for `class`, if there is one.
    pub fn set_refused(&mut self, class: Option<Class>, refused: bool)
        ensures
            *final(self) == old(self).with_refused(class, refused),
    {
        match class {
            Some(Class::Small) => {
                self.refused_small = refused;
            },
            Some(Class::Bulk) => {
                self.refused_bulk = refused;
            },
            None => {},
        }
    }

    /// The counters after a re-plan.
    pub open spec fn replanned(self, head_n: Option<u64>) -> ShipStatus {
        ShipStatus { fenced: false, refused_small: false, refused_bulk: false, head_n, ..self }
    }

    /// Lift the fence and the byte-quota refusals after a re-plan gave this executor a fresh
    /// identity. `head_n` is the plan's head, or none for an empty chain.
    pub fn reset_after_replan(&mut self, head_n: Option<u64>)
        ensures
            *final(self) == old(self).replanned(head_n),
    {
        self.fenced = false;
        self.refused_small = false;
        self.refused_bulk = false;
        self.head_n = head_n;
    }

    /// The counters after an object was put.
    pub open spec fn with_put(self, outcome: PutOutcome, bytes: u64) -> ShipStatus {
        match outcome {
            PutOutcome::Stored => ShipStatus {
                uploaded_objects: count::capped((self.uploaded_objects + 1) as nat) as u64,
                uploaded_bytes: count::capped((self.uploaded_bytes + bytes) as nat) as u64,
                ..self
            },
            PutOutcome::AlreadyPresent => ShipStatus {
                already_present: count::capped((self.already_present + 1) as nat) as u64,
                ..self
            },
        }
    }

    /// The counters after a failed attempt.
    pub open spec fn with_failure(self) -> ShipStatus {
        ShipStatus { failures: count::capped((self.failures + 1) as nat) as u64, ..self }
    }
}

/// Retry policy for one pass.
#[derive(Debug, Clone, Copy, PartialEq, Eq, Structural)]
pub struct RetryPolicy {
    /// Attempts per object / register within one pass.
    pub attempts: u32,
    /// First backoff, in nanoseconds; doubles per attempt.
    pub backoff: u64,
    /// Backoff cap, in nanoseconds.
    pub max_backoff: u64,
}

impl Default for RetryPolicy {
    fn default() -> (r: Self)
        ensures
            r.attempts == 5,
            r.backoff == 200 * pacing::MILLISECOND,
            r.max_backoff == 5 * pacing::SECOND,
    {
        RetryPolicy {
            attempts: 5,
            backoff: 200 * pacing::MILLISECOND,
            max_backoff: 5 * pacing::SECOND,
        }
    }
}

impl RetryPolicy {
    /// The wait after failed attempt number `attempt` (from 0).
    pub open spec fn wait_after(&self, attempt: u32) -> u64 {
        pacing::wait(self.backoff as nat, attempt as nat, self.max_backoff as nat) as u64
    }

    /// The wait after failed attempt number `attempt` (from 0).
    pub fn delay(&self, attempt: u32) -> (r: u64)
        ensures
            r == self.wait_after(attempt),
            r == pacing::wait(self.backoff as nat, attempt as nat, self.max_backoff as nat),
    {
        pacing::backoff(self.backoff, attempt, self.max_backoff)
    }
}

/// An upload under way: the attempt that comes next, and how the last one failed.
pub struct UploadRun {
    /// The next attempt, from 0.
    pub attempt: u32,
    /// How the last attempt failed.
    pub last: Option<SinkError>,
}

/// What an upload does next.
#[derive(Debug, Clone, Copy, PartialEq, Eq, Structural)]
pub enum UploadAction {
    /// The bytes are gone from staging: ask whether the store has them.
    Probe,
    /// Upload in parts: part size, parts in flight.
    PutMultipart(u64, usize),
    /// Upload with one PUT.
    PutSingle,
    /// Every attempt was made.
    Exhausted,
}

/// What an attempt led to.
pub enum UploadStep {
    /// The store has the object: ack it.
    Uploaded,
    /// The upload failed.
    Failed(ShipError),
    /// Wait so many nanoseconds and go on.
    Wait(u64),
}

impl UploadRun {
    /// No attempt made yet.
    pub fn new() -> (r: Self)
        ensures
            r.attempt == 0,
            r.last is None,
    {
        UploadRun { attempt: 0, last: None }
    }

    /// What comes next. `present` says whether the bytes are in staging.
    pub fn next(
        &self,
        upload: &Upload,
        present: bool,
        retry: &RetryPolicy,
        multipart: &MultipartConfig,
    ) -> (r: UploadAction)
        ensures
            r == if self.attempt >= retry.attempts {
                UploadAction::Exhausted
            } else if !present {
                UploadAction::Probe
            } else if upload.bytes >= multipart.threshold {
                UploadAction::PutMultipart(multipart.part_size, multipart.parts_in_flight)
            } else {
                UploadAction::PutSingle
            },
    {
        if self.attempt >= retry.attempts {
            UploadAction::Exhausted
        } else if !present {
            UploadAction::Probe
        } else if upload.bytes >= multipart.threshold {
            UploadAction::PutMultipart(multipart.part_size, multipart.parts_in_flight)
        } else {
            UploadAction::PutSingle
        }
    }

    /// The store was asked whether it has the object.
    pub fn probed(&mut self, upload: &Upload, retry: &RetryPolicy, answer: Result<bool, SinkError>) -> (r:
        UploadStep)
        requires
            old(self).attempt < retry.attempts,
        ensures
            match answer {
                Ok(true) => r is Uploaded && *final(self) == *old(self),
                Ok(false) => {
                    &&& *final(self) == *old(self)
                    &&& r matches UploadStep::Failed(
                        ShipError::Upload { key, source: SinkError::NotFound(file) },
                    )
                    &&& key == upload.key
                    &&& file == upload.file
                },
                Err(e) => {
                    &&& final(self).attempt == old(self).attempt + 1
                    &&& final(self).last == Some(e)
                    &&& r == UploadStep::Wait(retry.wait_after(old(self).attempt))
                },
            },
    {
        match answer {
            Ok(true) => UploadStep::Uploaded,
            Ok(false) => UploadStep::Failed(
                ShipError::Upload {
                    key: upload.key.clone(),
                    source: SinkError::NotFound(upload.file.clone()),
                },
            ),
            Err(e) => {
                let wait: u64 = retry.delay(self.attempt);
                self.attempt = self.attempt + 1;
                self.last = Some(e);
                UploadStep::Wait(wait)
            },
        }
    }

    /// A put was answered: an object is acked once, a failure that may pass is tried again, a
    /// refusal for the byte quota ends the capture, and anything else ends the pass.
    pub fn put(
        &mut self,
        upload: &Upload,
        retry: &RetryPolicy,
        answer: Result<PutOutcome, SinkError>,
        status: &mut ShipStatus,
    ) -> (r: UploadStep)
        requires
            old(self).attempt < retry.attempts,
        ensures
            match answer {
                Ok(outcome) => {
                    &&& r is Uploaded
                    &&& *final(self) == *old(self)
                    &&& *final(status) == old(status).with_put(outcome, upload.bytes)
                },
                Err(e) => if e.can_pass() {
                    &&& final(self).attempt == old(self).attempt + 1
                    &&& final(self).last == Some(e)
                    &&& *final(status) == old(status).with_failure()
                    &&& r == UploadStep::Wait(retry.wait_after(old(self).attempt))
                } else {
                    &&& *final(self) == *old(self)
                    &&& match e {
                        SinkError::QuotaRefused { reason, limit, used, requested } => {
                            &&& *final(status) == *old(status)
                            &&& r == UploadStep::Failed(
                                ShipError::QuotaRefused { reason, limit, used, requested },
                            )
                        },
                        _ => {
                            &&& *final(status) == old(status).with_failure()
                            &&& r == UploadStep::Failed(
                                ShipError::Upload { key: upload.key, source: e },
                            )
                        },
                    }
                },
            },
    {
        match answer {
            Ok(PutOutcome::Stored) => {
                status.uploaded_objects = status.uploaded_objects.saturating_add(1);
                status.uploaded_bytes = status.uploaded_bytes.saturating_add(upload.bytes);
                UploadStep::Uploaded
            },
            Ok(PutOutcome::AlreadyPresent) => {
                status.already_present = status.already_present.saturating_add(1);
                UploadStep::Uploaded
            },
            Err(e) => {
                if e.is_retryable() {
                    status.failures = status.failures.saturating_add(1);
                    let wait: u64 = retry.delay(self.attempt);
                    self.attempt = self.attempt + 1;
                    self.last = Some(e);
                    return UploadStep::Wait(wait);
                }
                match e {
                    SinkError::QuotaRefused { reason, limit, used, requested } => {
                        UploadStep::Failed(
                            ShipError::QuotaRefused { reason, limit, used, requested },
                        )
                    },
                    other => {
                        status.failures = status.failures.saturating_add(1);
                        UploadStep::Failed(
                            ShipError::Upload { key: upload.key.clone(), source: other },
                        )
                    },
                }
            },
        }
    }

    /// Every attempt was made: the error of the last one.
    pub fn exhausted(self, upload: &Upload) -> (r: ShipError)
        ensures
            r matches ShipError::Upload { key, source } && key == upload.key && match self.last {
                Some(e) => source == e,
                None => source == SinkError::NotFound(upload.key),
            },
    {
        let source: SinkError = match self.last {
            Some(e) => e,
            None => SinkError::NotFound(upload.key.clone()),
        };
        ShipError::Upload { key: upload.key.clone(), source }
    }
}

/// Whether an upload's URL can be minted ahead with others: it goes up with one PUT, and `ready`
/// says that it is in staging and not uploaded yet.
pub open spec fn is_single_put(upload: Upload, ready: bool, threshold: u64) -> bool {
    ready && upload.bytes < threshold
}

/// Where the batch that begins at `start` ends: it holds at most [`PREFETCH_BATCH`] objects and
/// ends at one that is uploaded already, missing from staging, or multipart-sized. A batch that
/// ends where it begins stands for the one object there, which mints its own URLs.
pub fn batch_end(uploads: &Vec<Upload>, ready: &Vec<bool>, start: usize, threshold: u64) -> (r:
    usize)
    requires
        start < uploads@.len(),
        ready@.len() == uploads@.len(),
    ensures
        start <= r <= uploads@.len(),
        r - start <= PREFETCH_BATCH,
        forall|i: int|
            start <= i < r ==> is_single_put(#[trigger] uploads@[i], ready@[i], threshold),
        r < uploads@.len() && r - start < PREFETCH_BATCH ==> !is_single_put(
            uploads@[r as int],
            ready@[r as int],
            threshold,
        ),
{
    let mut end: usize = start;
    while end < uploads.len() && end - start < PREFETCH_BATCH && ready[end] && uploads[end].bytes
        < threshold
        invariant
            start <= end <= uploads@.len(),
            ready@.len() == uploads@.len(),
            end - start <= PREFETCH_BATCH,
            forall|i: int|
                start <= i < end ==> is_single_put(#[trigger] uploads@[i], ready@[i], threshold),
        decreases uploads@.len() - end,
    {
        end = end + 1;
    }
    end
}

/// The keys and sizes of a batch.
pub fn batch_keys(uploads: &Vec<Upload>, start: usize, end: usize) -> (r: Vec<(String, u64)>)
    requires
        start <= end <= uploads@.len(),
    ensures
        r@.len() == end - start,
        forall|i: int|
            0 <= i < r@.len() ==> (#[trigger] r@[i]).0 == uploads@[start + i].key && r@[i].1
                == uploads@[start + i].bytes,
{
    let mut out: Vec<(String, u64)> = Vec::new();
    let mut i: usize = start;
    while i < end
        invariant
            start <= i <= end <= uploads@.len(),
            out@.len() == i - start,
            forall|j: int|
                0 <= j < out@.len() ==> (#[trigger] out@[j]).0 == uploads@[start + j].key
                    && out@[j].1 == uploads@[start + j].bytes,
        decreases end - i,
    {
        out.push((uploads[i].key.clone(), uploads[i].bytes));
        i = i + 1;
    }
    out
}

/// Judge the mint of a batch: only a refusal for the byte quota stops the capture. After any other
/// failure each PUT mints its own URL, and reports what stands in the way.
pub fn judge_prefetch(answer: Result<(), SinkError>) -> (r: Result<(), ShipError>)
    ensures
        match answer {
            Err(SinkError::QuotaRefused { reason, limit, used, requested }) => r == Err::<
                (),
                ShipError,
            >(ShipError::QuotaRefused { reason, limit, used, requested }),
            _ => r is Ok,
        },
{
    match answer {
        Err(SinkError::QuotaRefused { reason, limit, used, requested }) => Err(
            ShipError::QuotaRefused { reason, limit, used, requested },
        ),
        _ => Ok(()),
    }
}

/// A register under way: the attempt that comes next, and how the last one failed.
pub struct RegisterRun {
    /// The next attempt, from 0.
    pub attempt: u32,
    /// How the last attempt failed.
    pub last: Option<RegistrarError>,
}

/// What a register led to.
pub enum RegisterStep {
    /// The capture is on the chain.
    Registered,
    /// The register failed.
    Failed(ShipError),
    /// Wait so many nanoseconds and try again.
    Wait(u64),
}

impl RegisterRun {
    /// No attempt made yet.
    pub fn new() -> (r: Self)
        ensures
            r.attempt == 0,
            r.last is None,
    {
        RegisterRun { attempt: 0, last: None }
    }

    /// Whether an attempt is left.
    pub fn goes_on(&self, retry: &RetryPolicy) -> (r: bool)
        ensures
            r == (self.attempt < retry.attempts),
    {
        self.attempt < retry.attempts
    }

    /// A register was answered. A fence on an entry staged under a previous identity (`foreign`) is
    /// that identity's, not this executor's.
    pub fn answered(
        &mut self,
        n: u64,
        foreign: bool,
        retry: &RetryPolicy,
        answer: Result<RegisterResponse, RegistrarError>,
        status: &mut ShipStatus,
    ) -> (r: RegisterStep)
        requires
            old(self).attempt < retry.attempts,
        ensures
            match answer {
                Ok(resp) => {
                    &&& r is Registered
                    &&& *final(self) == *old(self)
                    &&& *final(status) == (ShipStatus {
                        registered: count::capped((old(status).registered + 1) as nat) as u64,
                        head_n: Some(resp.head_n),
                        ..*old(status)
                    })
                },
                Err(e) => match e {
                    RegistrarError::Fenced { .. } => {
                        &&& r == RegisterStep::Failed(ShipError::Fenced(e))
                        &&& *final(self) == *old(self)
                        &&& *final(status) == (ShipStatus {
                            fenced: old(status).fenced || !foreign,
                            ..*old(status)
                        })
                    },
                    RegistrarError::WrongParent { .. } => {
                        &&& r == RegisterStep::Failed(ShipError::Conflict(e))
                        &&& *final(self) == *old(self)
                        &&& *final(status) == *old(status)
                    },
                    RegistrarError::QuotaRefused { reason, limit, used, requested } => {
                        &&& r == RegisterStep::Failed(
                            ShipError::QuotaRefused { reason, limit, used, requested },
                        )
                        &&& *final(self) == *old(self)
                        &&& *final(status) == *old(status)
                    },
                    RegistrarError::Transport(_) => {
                        &&& r == RegisterStep::Wait(retry.wait_after(old(self).attempt))
                        &&& final(self).attempt == old(self).attempt + 1
                        &&& final(self).last == Some(e)
                        &&& *final(status) == old(status).with_failure()
                    },
                    _ => {
                        &&& r == RegisterStep::Failed(ShipError::Register { n, source: e })
                        &&& *final(self) == *old(self)
                        &&& *final(status) == *old(status)
                    },
                },
            },
    {
        match answer {
            Ok(resp) => {
                status.registered = status.registered.saturating_add(1);
                status.head_n = Some(resp.head_n);
                RegisterStep::Registered
            },
            Err(RegistrarError::Fenced { epoch, live }) => {
                if !foreign {
                    status.fenced = true;
                }
                RegisterStep::Failed(ShipError::Fenced(RegistrarError::Fenced { epoch, live }))
            },
            Err(RegistrarError::WrongParent { head_n, head_capture_id }) => RegisterStep::Failed(
                ShipError::Conflict(RegistrarError::WrongParent { head_n, head_capture_id }),
            ),
            Err(RegistrarError::QuotaRefused { reason, limit, used, requested }) =>
                RegisterStep::Failed(ShipError::QuotaRefused { reason, limit, used, requested }),
            Err(RegistrarError::Transport(why)) => {
                status.failures = status.failures.saturating_add(1);
                let wait: u64 = retry.delay(self.attempt);
                self.attempt = self.attempt + 1;
                self.last = Some(RegistrarError::Transport(why));
                RegisterStep::Wait(wait)
            },
            Err(e) => RegisterStep::Failed(ShipError::Register { n, source: e }),
        }
    }

    /// Every attempt was made: the error of the last one.
    pub fn exhausted(self, n: u64) -> (r: ShipError)
        ensures
            r matches ShipError::Register { n: m, source } && m == n && match self.last {
                Some(e) => source == e,
                None => source matches RegistrarError::Transport(why) && why@ == "exhausted"@,
            },
    {
        let source: RegistrarError = match self.last {
            Some(e) => e,
            None => RegistrarError::Transport("exhausted".to_owned()),
        };
        ShipError::Register { n, source }
    }
}

/// What a pass does with the next queued capture.
#[derive(Debug, Clone, Copy, PartialEq, Eq, Structural)]
pub enum EntryAction {
    /// It was coalesced away since the queue was read: the next pass ships the replacement. The
    /// pass never skips ahead, for the chain is ordered.
    Stop,
    /// It was staged under an identity that a re-plan replaced: nothing of it can register.
    Drop,
    /// Upload its objects and register it.
    Ship,
}

/// What a pass does after a capture was shipped, or was not.
pub enum PassStep {
    /// It is on the chain: ack it and go on.
    Acked,
    /// It was refused for good: drop it with all that descend from it, and stop the pass.
    Refused(RefusedCapture),
    /// The pass ends here; the queue keeps this capture and everything after it.
    Failed(ShipError),
}

/// Whether a pass is made at all: not once the epoch is fenced.
pub fn may_ship(status: &ShipStatus) -> (r: bool)
    ensures
        r == !status.fenced,
{
    !status.fenced
}

/// Whether a scheduled snap of a class is taken, given whether snaps are allowed at all: not once
/// the epoch is fenced, and none of the bulk class once that was refused for the byte quota, until
/// the next epoch or a re-plan. The small class goes on: its batches may fit what is left.
pub open spec fn takes_snap(status: ShipStatus, class: Class, allowed: bool) -> bool {
    allowed && !status.fenced && !(class == Class::Bulk && status.refused_bulk)
}

/// Whether a scheduled snap of a class is taken.
pub fn may_snap(status: &ShipStatus, class: Class, allowed: bool) -> (r: bool)
    ensures
        r == takes_snap(*status, class, allowed),
{
    let refused: bool = match class {
        Class::Small => false,
        Class::Bulk => status.refused_bulk,
    };
    allowed && !status.fenced && !refused
}

/// Take up the next queued capture; `current` is what the queue now holds at its position.
pub fn take_up(staging: &mut Staging, entry: &QueueEntry, current: Option<&QueueEntry>) -> (r:
    EntryAction)
    ensures
        ({
            let claimed = can_claim(
                *entry,
                match current {
                    Some(e) => Some(*e),
                    None => None,
                },
            );
            &&& r == if !claimed {
                EntryAction::Stop
            } else if old(staging).foreign(*entry) {
                EntryAction::Drop
            } else {
                EntryAction::Ship
            }
            &&& *final(staging) == (Staging {
                in_flight: if r == EntryAction::Ship {
                    Some(entry.n)
                } else {
                    None
                },
                ..*old(staging)
            })
        }),
{
    if !staging.claim(entry, current) {
        return EntryAction::Stop;
    }
    if staging.is_foreign(entry) {
        staging.release();
        return EntryAction::Drop;
    }
    EntryAction::Ship
}

/// What is kept of a capture that was refused.
pub open spec fn is_refusal_of(
    entry: QueueEntry,
    reason: Seq<char>,
    limit: Option<u64>,
    used: Option<u64>,
    requested: Option<u64>,
    r: RefusedCapture,
) -> bool {
    &&& r.n == entry.n
    &&& r.capture_id == entry.capture_id
    &&& r.parent == entry.register.parent
    &&& r.class == entry.class
    &&& r.reason@ == reason
    &&& r.limit == limit
    &&& r.used == used
    &&& r.requested == requested
    &&& r.uploads@ == entry.uploads@
}

/// The registrar refused `entry` for the session's byte quota: what is kept of it, and the class
/// stops.
pub fn refuse(
    entry: &QueueEntry,
    reason: &str,
    limit: Option<u64>,
    used: Option<u64>,
    requested: Option<u64>,
    status: &mut ShipStatus,
) -> (r: RefusedCapture)
    ensures
        is_refusal_of(*entry, reason@, limit, used, requested, r),
        *final(status) == old(status).with_refused(entry.class, true),
{
    status.set_refused(entry.class, true);
    RefusedCapture {
        n: entry.n,
        capture_id: entry.capture_id.clone(),
        parent: text::copy_opt(&entry.register.parent),
        class: entry.class,
        reason: reason.to_owned(),
        limit,
        used,
        requested,
        uploads: copy_uploads(&entry.uploads),
    }
}

/// A capture was shipped, or was not: what the pass does next. The claim ends either way.
pub fn settle(
    staging: &mut Staging,
    entry: &QueueEntry,
    result: Result<(), ShipError>,
    status: &mut ShipStatus,
) -> (r: PassStep)
    ensures
        *final(staging) == (Staging { in_flight: None, ..*old(staging) }),
        match result {
            Ok(()) => r is Acked && *final(status) == old(status).with_refused(entry.class, false),
            Err(ShipError::QuotaRefused { reason, limit, used, requested }) => {
                &&& r matches PassStep::Refused(kept)
                &&& is_refusal_of(*entry, reason@, limit, used, requested, kept)
                &&& *final(status) == old(status).with_refused(entry.class, true)
            },
            Err(e) => r == PassStep::Failed(e) && *final(status) == *old(status),
        },
{
    staging.release();
    match result {
        Ok(()) => {
            status.set_refused(entry.class, false);
            PassStep::Acked
        },
        Err(ShipError::QuotaRefused { reason, limit, used, requested }) => PassStep::Refused(
            refuse(entry, reason.as_str(), limit, used, requested, status),
        ),
        Err(e) => PassStep::Failed(e),
    }
}

/// What a flush does after a pass.
pub enum FlushStep {
    /// Everything was shipped, or the time is up: so many captures shipped.
    Done(usize),
    /// It failed.
    Failed(ShipError),
    /// Wait so many nanoseconds and, unless the time is up then, make another pass.
    Again(u64),
}

/// A flush after one pass: it goes on until the queue is empty, a fence or a conflict stands in
/// the way, or the time is up. `total` counts what was shipped.
pub fn flushed(
    total: &mut usize,
    result: Result<usize, ShipError>,
    queue_is_empty: bool,
    time_is_up: bool,
    retry: &RetryPolicy,
) -> (r: FlushStep)
    ensures
        ({
            let shipped = match result {
                Ok(n) => if *old(total) + n > usize::MAX {
                    usize::MAX
                } else {
                    (*old(total) + n) as usize
                },
                Err(_) => *old(total),
            };
            &&& *final(total) == shipped
            &&& match result {
                Ok(_) => r == if queue_is_empty || time_is_up {
                    FlushStep::Done(shipped)
                } else {
                    FlushStep::Again(0)
                },
                Err(e) => r == if e is Fenced || e is Conflict || time_is_up {
                    FlushStep::Failed(e)
                } else {
                    FlushStep::Again(retry.backoff)
                },
            }
        }),
{
    match result {
        Ok(n) => {
            *total = total.saturating_add(n);
            if queue_is_empty || time_is_up {
                FlushStep::Done(*total)
            } else {
                FlushStep::Again(0)
            }
        },
        Err(ShipError::Fenced(e)) => FlushStep::Failed(ShipError::Fenced(e)),
        Err(ShipError::Conflict(e)) => FlushStep::Failed(ShipError::Conflict(e)),
        Err(e) => {
            if time_is_up {
                FlushStep::Failed(e)
            } else {
                FlushStep::Again(retry.backoff)
            }
        },
    }
}

/// A refusal for the byte quota is final: it is neither tried again nor does it end the pass with
/// an error; the capture goes and its class stops.
pub proof fn law_a_quota_refusal_is_never_retried(
    e: SinkError,
    entry: QueueEntry,
    before: ShipStatus,
    class: Class,
)
    requires
        e is QuotaRefused,
        entry.class == Some(class),
    ensures
        !e.can_pass(),
        before.with_refused(entry.class, true).refused(class),
{
}

/// An object is tried as often as the policy says, whole or in parts by its size, and asked for at
/// the store where its file is gone; once the attempts are used up the last error tells why.
pub proof fn law_an_object_is_tried_as_often_as_the_policy_says(
    run: UploadRun,
    upload: Upload,
    present: bool,
    retry: RetryPolicy,
    multipart: MultipartConfig,
    action: UploadAction,
    fresh: UploadRun,
    why: ShipError,
)
    requires
        call_ensures(UploadRun::next, (&run, &upload, present, &retry, &multipart), action),
        call_ensures(UploadRun::new, (), fresh),
        call_ensures(UploadRun::exhausted, (run, &upload), why),
    ensures
        fresh.attempt == 0,
        action is Exhausted <==> run.attempt >= retry.attempts,
        run.attempt < retry.attempts && !present ==> action is Probe,
        run.attempt < retry.attempts && present && upload.bytes >= multipart.threshold ==> action
            == UploadAction::PutMultipart(multipart.part_size, multipart.parts_in_flight),
        run.attempt < retry.attempts && present && upload.bytes < multipart.threshold
            ==> action is PutSingle,
        why is Upload && why->Upload_key == upload.key,
        run.last matches Some(e) ==> why->Upload_source == e,
{
}

/// An object whose file is gone counts as uploaded only if the store has it; a store that cannot be
/// asked is asked again.
pub proof fn law_a_missing_file_has_to_be_in_the_store(
    run: &mut UploadRun,
    upload: Upload,
    retry: RetryPolicy,
    answer: Result<bool, SinkError>,
    step: UploadStep,
)
    requires
        old(run).attempt < retry.attempts,
        call_ensures(UploadRun::probed, (run, &upload, &retry, answer), step),
    ensures
        step is Uploaded <==> answer == Ok::<bool, SinkError>(true),
        answer == Ok::<bool, SinkError>(false) ==> step is Failed,
        answer is Err ==> step is Wait && final(run).attempt == old(run).attempt + 1,
        step is Wait ==> answer is Err && step->Wait_0 <= retry.max_backoff,
{
}

/// A put that is answered is done, and counted as what it was; one that failed for a while is tried
/// again, after a wait, and counted; any other failure ends the object, and one for the byte quota
/// is told as such, without counting as a failure.
pub proof fn law_a_put_is_retried_only_where_it_may_pass(
    run: &mut UploadRun,
    upload: Upload,
    retry: RetryPolicy,
    answer: Result<PutOutcome, SinkError>,
    status: &mut ShipStatus,
    step: UploadStep,
    passes: bool,
)
    requires
        old(run).attempt < retry.attempts,
        old(status).uploaded_objects < u64::MAX,
        old(status).already_present < u64::MAX,
        old(status).failures < u64::MAX,
        old(status).uploaded_bytes + upload.bytes <= u64::MAX,
        call_ensures(UploadRun::put, (run, &upload, &retry, answer, status), step),
        answer is Err ==> call_ensures(SinkError::is_retryable, (&answer->Err_0,), passes),
    ensures
        step is Uploaded <==> answer is Ok,
        answer == Ok::<PutOutcome, SinkError>(PutOutcome::Stored) ==> final(status).uploaded_objects == old(status).uploaded_objects + 1 && final(status).uploaded_bytes
            == old(status).uploaded_bytes + upload.bytes && final(status).already_present == old(status).already_present && final(status).failures == old(status).failures,
        answer == Ok::<PutOutcome, SinkError>(PutOutcome::AlreadyPresent) ==> final(status).already_present == old(status).already_present + 1 && final(status).uploaded_objects
            == old(status).uploaded_objects && final(status).uploaded_bytes == old(status).uploaded_bytes,
        answer is Err && passes ==> step is Wait && final(run).attempt == old(run).attempt + 1
            && final(run).last == Some(answer->Err_0) && final(status).failures == old(status).failures + 1,
        answer is Err && !passes ==> step is Failed,
        answer is Err && answer->Err_0 is QuotaRefused ==> step is Failed
            && step->Failed_0 is QuotaRefused && *final(status) == *old(status),
        answer is Err && !passes && !(answer->Err_0 is QuotaRefused) ==> step->Failed_0 is Upload
            && step->Failed_0->Upload_key == upload.key && step->Failed_0->Upload_source
            == answer->Err_0,
        answer is Err && (answer->Err_0 is Transport || answer->Err_0 is Io) ==> passes,
        answer is Err && answer->Err_0 is Http ==> (passes <==> answer->Err_0->Http_status >= 500
            || answer->Err_0->Http_status == 429 || answer->Err_0->Http_status == 408),
        answer is Err && (answer->Err_0 is NoUrl || answer->Err_0 is Multipart
            || answer->Err_0 is QuotaRefused || answer->Err_0 is NotFound) ==> !passes,
        final(status).registered == old(status).registered && final(status).fenced == old(status).fenced && final(status).refused_bulk == old(status).refused_bulk,
{
}

/// A register that is answered makes its capture the head. A fence stops shipping for good, unless
/// it met a capture of another life; a conflict and a refusal end the capture, and only what may
/// pass is tried again.
pub proof fn law_a_register_is_retried_only_over_transport(
    run: &mut RegisterRun,
    n: u64,
    foreign: bool,
    retry: RetryPolicy,
    answer: Result<RegisterResponse, RegistrarError>,
    status: &mut ShipStatus,
    step: RegisterStep,
    ships: bool,
    goes_on: bool,
)
    requires
        call_ensures(RegisterRun::goes_on, (&*old(run), &retry), goes_on),
        goes_on,
        old(status).registered < u64::MAX,
        old(status).failures < u64::MAX,
        call_ensures(RegisterRun::answered, (run, n, foreign, &retry, answer, status), step),
        call_ensures(may_ship, (&*final(status),), ships),
    ensures
        old(run).attempt < retry.attempts,
        step is Registered <==> answer is Ok,
        answer matches Ok(resp) ==> final(status).head_n == Some(resp.head_n) && final(status).registered == old(status).registered + 1,
        answer is Err ==> final(status).head_n == old(status).head_n && final(status).registered
            == old(status).registered,
        answer is Err && answer->Err_0 is Fenced ==> step is Failed && step->Failed_0 is Fenced && (
        !foreign ==> !ships) && (foreign ==> final(status).fenced == old(status).fenced),
        !(answer is Err && answer->Err_0 is Fenced) ==> final(status).fenced == old(status).fenced,
        answer is Err && answer->Err_0 is WrongParent ==> step is Failed
            && step->Failed_0 is Conflict,
        answer is Err && answer->Err_0 is QuotaRefused ==> step is Failed
            && step->Failed_0 is QuotaRefused,
        step is Wait <==> answer is Err && answer->Err_0 is Transport,
        step is Wait ==> final(run).attempt == old(run).attempt + 1 && step->Wait_0
            <= retry.max_backoff,
        ships == !final(status).fenced,
{
}

/// Waits double from the policy's first one up to its longest.
pub proof fn law_waits_double(retry: RetryPolicy, attempt: u32, a: u64, b: u64, first: u64)
    requires
        call_ensures(RetryPolicy::delay, (&retry, 0u32), first),
        call_ensures(RetryPolicy::delay, (&retry, attempt), a),
        attempt < 10,
        call_ensures(RetryPolicy::delay, (&retry, (attempt + 1) as u32), b),
    ensures
        first == if retry.backoff < retry.max_backoff {
            retry.backoff
        } else {
            retry.max_backoff
        },
        a <= retry.max_backoff && b <= retry.max_backoff,
        b == 2 * a || b == retry.max_backoff,
        b < retry.max_backoff ==> b == 2 * a,
        2 * a < retry.max_backoff ==> b == 2 * a,
{
    let base = retry.backoff as nat;
    assert(pacing::doubled(base, (attempt + 1) as nat) == 2 * pacing::doubled(
        base,
        attempt as nat,
    ));
    assert(pacing::doubled(base, 0) == base);
}

/// A class is snapped only where that is allowed and the epoch is not fenced; a refused bulk class
/// is not, and a refused small class is, for what it holds may have shrunk.
pub proof fn law_a_fenced_or_refused_class_takes_no_snap(
    status: ShipStatus,
    class: Class,
    allowed: bool,
    r: bool,
    flagged: bool,
)
    requires
        call_ensures(may_snap, (&status, class, allowed), r),
        call_ensures(ShipStatus::refused_flag, (&status, class), flagged),
    ensures
        !allowed ==> !r,
        status.fenced ==> !r,
        class == Class::Bulk && flagged ==> !r,
        allowed && !status.fenced && !flagged ==> r,
        allowed && !status.fenced && class == Class::Small ==> r,
        class == Class::Small ==> flagged == status.refused_small,
        class == Class::Bulk ==> flagged == status.refused_bulk,
{
}

/// The outcome of a capture settles its class: acknowledged it is free again, refused for the byte
/// quota it is stopped and the capture is handed back whole, and any other failure leaves the
/// capture where it is. Either way it is no longer in flight.
pub proof fn law_a_pass_settles_its_capture(
    staging: &mut Staging,
    entry: QueueEntry,
    result: Result<(), ShipError>,
    status: &mut ShipStatus,
    step: PassStep,
    class: Class,
    flagged: bool,
)
    requires
        entry.class == Some(class),
        call_ensures(settle, (staging, &entry, result, status), step),
        call_ensures(ShipStatus::refused_flag, (&*final(status), class), flagged),
    ensures
        final(staging).in_flight is None,
        final(staging).refusals == old(staging).refusals,
        step is Acked <==> result is Ok,
        step is Refused <==> result is Err && result->Err_0 is QuotaRefused,
        result is Err && !(result->Err_0 is QuotaRefused) ==> step == PassStep::Failed(
            result->Err_0,
        ) && *final(status) == *old(status),
        result is Ok ==> !flagged,
        step is Refused ==> flagged,
        step matches PassStep::Refused(kept) ==> kept.n == entry.n && kept.capture_id
            == entry.capture_id && kept.parent == entry.register.parent && kept.class == entry.class
            && kept.uploads@ == entry.uploads@,
        class == Class::Bulk ==> final(status).refused_small == old(status).refused_small,
        class == Class::Small ==> final(status).refused_bulk == old(status).refused_bulk,
        final(status).fenced == old(status).fenced,
{
}

/// A re-plan lifts fence and refusals and moves the head; it touches no counter.
pub proof fn law_a_replan_lifts_every_stop(
    status: &mut ShipStatus,
    head_n: Option<u64>,
    ships: bool,
    small: bool,
    bulk: bool,
)
    requires
        call_ensures(ShipStatus::reset_after_replan, (status, head_n), ()),
        call_ensures(may_ship, (&*final(status),), ships),
        call_ensures(may_snap, (&*final(status), Class::Small, true), small),
        call_ensures(may_snap, (&*final(status), Class::Bulk, true), bulk),
    ensures
        ships && small && bulk,
        final(status).head_n == head_n,
        final(status).uploaded_objects == old(status).uploaded_objects,
        final(status).registered == old(status).registered,
        final(status).failures == old(status).failures,
{
}

/// A queued capture is shipped only if it still is what the queue holds and of this life; one of
/// another life is dropped, and one that was replaced stops the pass. While it is shipped it is in
/// flight, and no new capture takes its place.
pub proof fn law_a_capture_is_taken_up_as_it_is_queued(
    staging: &mut Staging,
    entry: QueueEntry,
    current: Option<&QueueEntry>,
    action: EntryAction,
    pending: Vec<QueueEntry>,
    free: Option<&QueueEntry>,
    foreign: bool,
)
    requires
        call_ensures(take_up, (staging, &entry, current), action),
        call_ensures(Staging::is_foreign, (&*old(staging), &entry), foreign),
        call_ensures(Staging::coalescible, (&*final(staging), &pending), free),
    ensures
        foreign <==> entry.register.worktree_id@ != old(staging).worktree@ || entry.register.epoch
            != old(staging).epoch,
        action is Ship ==> current is Some && current->0.capture_id@ == entry.capture_id@
            && !foreign,
        current is None || current->0.capture_id@ != entry.capture_id@ ==> action is Stop,
        current is Some && current->0.capture_id@ == entry.capture_id@ ==> action == if foreign {
            EntryAction::Drop
        } else {
            EntryAction::Ship
        },
        action is Ship ==> final(staging).in_flight == Some(entry.n),
        !(action is Ship) ==> final(staging).in_flight is None,
        action is Ship && pending@.len() > 0 && pending@.last().n == entry.n ==> free is None,
        free matches Some(e) ==> *e == pending@.last() && e.kind == CaptureKind::Auto,
        pending@.len() > 0 && pending@.last().kind == CaptureKind::Auto && final(staging).in_flight != Some(pending@.last().n) ==> free is Some,
        final(staging).worktree == old(staging).worktree && final(staging).epoch == old(staging).epoch,
{
}

/// Captures of another worktree or epoch are discarded, but for one in flight, and no other is.
pub proof fn law_captures_of_another_life_are_discarded(
    staging: Staging,
    pending: Vec<QueueEntry>,
    r: Vec<bool>,
    i: int,
)
    requires
        call_ensures(Staging::discard_foreign, (&staging, &pending), r),
        0 <= i < pending@.len(),
    ensures
        r@.len() == pending@.len(),
        r@[i] <==> (pending@[i].register.worktree_id@ != staging.worktree@
            || pending@[i].register.epoch != staging.epoch) && staging.in_flight != Some(
            pending@[i].n,
        ),
{
}

/// A refused capture is dropped with every queued one that descends from it, and their objects are
/// handed over with the refusal, once.
pub proof fn law_a_refusal_drops_all_that_descends(
    staging: &mut Staging,
    pending: Vec<QueueEntry>,
    entry: QueueEntry,
    refusal: RefusedCapture,
    r: Vec<u64>,
    i: int,
    j: int,
    taking: &mut Staging,
    taken: Vec<RefusedCapture>,
)
    requires
        call_ensures(Staging::drop_refused, (staging, &pending, &entry, refusal), r),
        0 <= i < pending@.len(),
        *old(taking) == *final(staging),
        call_ensures(Staging::take_refusals, (taking,), taken),
    ensures
        pending@[i].n >= entry.n <==> r@.contains(pending@[i].n),
        taken@.len() == old(staging).refusals@.len() + 1,
        taken@.last().n == refusal.n && taken@.last().capture_id == refusal.capture_id
            && taken@.last().class == refusal.class && taken@.last().parent == refusal.parent,
        pending@[i].n >= entry.n && 0 <= j < pending@[i].uploads@.len()
            ==> taken@.last().uploads@.contains(pending@[i].uploads@[j]),
        0 <= j < refusal.uploads@.len() ==> taken@.last().uploads@.contains(refusal.uploads@[j]),
        final(taking).refusals@.len() == 0,
{
    lemma_dropped_from(pending@, entry.n, i);
    let kept = final(staging).refusals@.last().uploads@;
    let more = uploads_from(pending@, entry.n);
    assert(kept == refusal.uploads@ + more);
    if 0 <= j < refusal.uploads@.len() {
        assert(kept[j] == refusal.uploads@[j]);
    }
    if pending@[i].n >= entry.n && 0 <= j < pending@[i].uploads@.len() {
        lemma_uploads_from(pending@, entry.n, i, j);
        let k = choose|k: int| 0 <= k < more.len() && more[k] == pending@[i].uploads@[j];
        assert(kept[refusal.uploads@.len() + k] == more[k]);
    }
}

proof fn lemma_dropped_from(pending: Seq<QueueEntry>, n: u64, i: int)
    requires
        0 <= i < pending.len(),
    ensures
        pending[i].n >= n <==> dropped_from(pending, n).contains(pending[i].n),
    decreases pending.len(),
{
    lemma_dropped_are_late(pending, n);
    let all = dropped_from(pending, n);
    let front = dropped_from(pending.drop_last(), n);
    if pending[i].n >= n {
        if i < pending.len() - 1 {
            lemma_dropped_from(pending.drop_last(), n, i);
            let k = choose|k: int| 0 <= k < front.len() && front[k] == pending[i].n;
            assert(all[k] == front[k]);
        } else {
            assert(all[front.len() as int] == pending[i].n);
        }
    }
}

proof fn lemma_dropped_are_late(pending: Seq<QueueEntry>, n: u64)
    ensures
        forall|k: int|
            0 <= k < dropped_from(pending, n).len() ==> #[trigger] dropped_from(pending, n)[k] >= n,
    decreases pending.len(),
{
    if pending.len() > 0 {
        lemma_dropped_are_late(pending.drop_last(), n);
        let all = dropped_from(pending, n);
        let front = dropped_from(pending.drop_last(), n);
        assert forall|k: int| 0 <= k < all.len() implies #[trigger] all[k] >= n by {
            assert(k < front.len() ==> all[k] == front[k]);
        }
    }
}

proof fn lemma_uploads_from(pending: Seq<QueueEntry>, n: u64, i: int, j: int)
    requires
        0 <= i < pending.len(),
        pending[i].n >= n,
        0 <= j < pending[i].uploads@.len(),
    ensures
        uploads_from(pending, n).contains(pending[i].uploads@[j]),
    decreases pending.len(),
{
    let all = uploads_from(pending, n);
    let front = uploads_from(pending.drop_last(), n);
    let want = pending[i].uploads@[j];
    if i < pending.len() - 1 {
        lemma_uploads_from(pending.drop_last(), n, i, j);
        let k = choose|k: int| 0 <= k < front.len() && front[k] == want;
        assert(all[k] == front[k]);
    } else {
        assert(all[front.len() + j] == want);
    }
}

/// An object file is discarded only if no queued capture lists it.
pub proof fn law_listed_objects_are_never_discarded(
    pending: Vec<QueueEntry>,
    uploads: Vec<Upload>,
    r: SortedSet<String>,
    i: int,
    e: int,
    j: int,
    file: &str,
    listed: bool,
)
    requires
        call_ensures(discard_unreferenced, (&pending, &uploads), r),
        call_ensures(is_listed, (&pending, file), listed),
    ensures
        0 <= e < pending@.len() && 0 <= j < pending@[e].uploads@.len() ==> !r.has(
            pending@[e].uploads@[j].file@,
        ),
        0 <= e < pending@.len() && 0 <= j < pending@[e].uploads@.len()
            && pending@[e].uploads@[j].file@ == file@ ==> listed,
        0 <= i < uploads@.len() && uploads@[i].file@ == file@ ==> (r.has(file@) <==> !listed),
        r.has(file@) ==> exists|k: int|
            0 <= k < uploads@.len() && (#[trigger] uploads@[k]).file@ == file@,
{
    if 0 <= e < pending@.len() && 0 <= j < pending@[e].uploads@.len() {
        assert(names_file(pending@[e].uploads@, pending@[e].uploads@[j].file@));
        assert(lists(pending@, pending@[e].uploads@[j].file@));
    }
    if 0 <= i < uploads@.len() {
        assert(names_file(uploads@, uploads@[i].file@));
    }
}

/// The queue is gone through oldest first, and holds just what it was given.
pub proof fn law_the_queue_is_gone_through_oldest_first(
    entries: Vec<QueueEntry>,
    r: Vec<QueueEntry>,
    i: int,
    j: int,
)
    requires
        call_ensures(pending, (entries,), r),
    ensures
        0 <= i < j < r@.len() ==> r@[i].n <= r@[j].n,
        r@.to_multiset() == entries@.to_multiset(),
{
}

/// URLs are asked for ahead of the uploads, for the objects that come next and are put in whole, as
/// many at once as a batch holds, with their keys and sizes; only a refusal for the byte quota
/// counts.
pub proof fn law_urls_are_asked_for_in_whole_batches(
    uploads: Vec<Upload>,
    ready: Vec<bool>,
    start: usize,
    threshold: u64,
    end: usize,
    keys: Vec<(String, u64)>,
    i: int,
    answer: Result<(), SinkError>,
    r: Result<(), ShipError>,
)
    requires
        start < uploads@.len(),
        ready@.len() == uploads@.len(),
        call_ensures(batch_end, (&uploads, &ready, start, threshold), end),
        call_ensures(batch_keys, (&uploads, start, end), keys),
        start <= i < end,
        call_ensures(judge_prefetch, (answer,), r),
    ensures
        end - start <= 500 && end <= uploads@.len(),
        ready@[i] && uploads@[i].bytes < threshold,
        end < uploads@.len() && end - start < 500 ==> !ready@[end as int]
            || uploads@[end as int].bytes >= threshold,
        keys@.len() == end - start,
        keys@[i - start].0 == uploads@[i].key && keys@[i - start].1 == uploads@[i].bytes,
        r is Err <==> answer is Err && answer->Err_0 is QuotaRefused,
        r is Err ==> r->Err_0 is QuotaRefused,
{
    assert(is_single_put(uploads@[i], ready@[i], threshold));
    assert(keys@[i - start].0 == uploads@[start + (i - start)].key);
}

/// A flush ends when the queue is empty or the time is up, and otherwise only where the chain is
/// lost; what was shipped adds up.
pub proof fn law_a_flush_goes_on_until_the_queue_is_empty(
    total: &mut usize,
    result: Result<usize, ShipError>,
    queue_is_empty: bool,
    time_is_up: bool,
    retry: RetryPolicy,
    step: FlushStep,
)
    requires
        result is Ok ==> *old(total) + result->Ok_0 <= usize::MAX,
        call_ensures(flushed, (total, result, queue_is_empty, time_is_up, &retry), step),
    ensures
        result matches Ok(n) ==> *final(total) == *old(total) + n,
        result is Err ==> *final(total) == *old(total),
        step is Done ==> result is Ok && (queue_is_empty || time_is_up) && step->Done_0 == *final(total),
        result is Ok && !queue_is_empty && !time_is_up ==> step is Again,
        result is Ok && (queue_is_empty || time_is_up) ==> step is Done,
        result is Err && (result->Err_0 is Fenced || result->Err_0 is Conflict) ==> step is Failed,
        result is Err && time_is_up ==> step is Failed,
        result is Err && !time_is_up && !(result->Err_0 is Fenced) && !(result->Err_0 is Conflict)
            ==> step is Again,
        step is Failed ==> step->Failed_0 == result->Err_0,
{
}

/// Everything that staging holds has a place of its own under its directory, and markers of uploaded
/// objects one for each worktree and epoch.
pub proof fn law_staging_has_its_places(
    staging: Staging,
    objects: FsPath,
    scratch: FsPath,
    index: FsPath,
    cache: FsPath,
    queue: FsPath,
    n: u64,
    entry: FsPath,
    file: &str,
    markers: FsPath,
    marker: FsPath,
)
    requires
        call_ensures(Staging::objects_dir, (&staging,), objects),
        call_ensures(Staging::scratch_dir, (&staging,), scratch),
        call_ensures(Staging::index_dir, (&staging,), index),
        call_ensures(Staging::cache_dir, (&staging,), cache),
        call_ensures(Staging::queue_dir, (&staging,), queue),
        call_ensures(Staging::queue_path, (&staging, n), entry),
        call_ensures(Staging::marker_dir, (&staging,), markers),
        call_ensures(Staging::marker_path, (&staging, file), marker),
    ensures
        objects@ == staging.root@.child("objects"@),
        scratch@ == staging.root@.child("scratch"@),
        index@ == staging.root@.child("index"@),
        cache@ == staging.root@.child("cache"@),
        queue@ == staging.root@.child("queue"@),
        entry@.starts_with(queue@) && entry@.parts.len() == queue@.parts.len() + 1,
        text::has_suffix(entry@.parts.last(), ".json"@),
        marker@ == markers@.child(file@),
        markers@.starts_with(staging.root@),
        markers@.parts.last() == text::decimal(staging.epoch as nat),
        markers@.parts.len() == staging.root@.parts.len() + 3,
{
    assert(entry@.parts.take(queue@.parts.len() as int) =~= queue@.parts);
    let padded = text::decimal_padded(n as nat, 20);
    assert(entry@.parts.last().skip(entry@.parts.last().len() - ".json"@.len()) =~= ".json"@);
    assert(markers@.parts.take(staging.root@.parts.len() as int) =~= staging.root@.parts);
}

/// What a status tells is what was counted, and a fresh one has counted nothing.
pub proof fn law_a_snapshot_is_the_status(fresh: ShipStatus, status: ShipStatus, r: ShipSnapshot)
    requires
        call_ensures(ShipStatus::new, (), fresh),
        call_ensures(ShipStatus::snapshot, (&status,), r),
    ensures
        r.uploaded_objects == status.uploaded_objects && r.uploaded_bytes == status.uploaded_bytes
            && r.already_present == status.already_present && r.registered == status.registered,
        r.head_n == status.head_n && r.fenced == status.fenced && r.failures == status.failures,
        r.refused_small == status.refused_small && r.refused_bulk == status.refused_bulk,
        !fresh.fenced && !fresh.refused_small && !fresh.refused_bulk && fresh.head_n is None,
        fresh.uploaded_objects == 0 && fresh.registered == 0 && fresh.failures == 0,
{
}

/// A capture is claimed only if the queue still holds it as it is, and released it is free again.
pub proof fn law_a_claim_is_on_the_queued_capture(
    staging: &mut Staging,
    entry: QueueEntry,
    current: Option<&QueueEntry>,
    r: bool,
    frees: &mut Staging,
)
    requires
        call_ensures(Staging::claim, (staging, &entry, current), r),
        *old(frees) == *final(staging),
        call_ensures(Staging::release, (frees,), ()),
    ensures
        r <==> current is Some && current->0.capture_id@ == entry.capture_id@,
        r ==> final(staging).in_flight == Some(entry.n),
        !r ==> final(staging).in_flight is None,
        final(frees).in_flight is None,
        final(frees).refusals == old(staging).refusals,
{
}

/// Staging is for one worktree and epoch at a time, the one that it was last given.
pub proof fn law_staging_is_for_its_identity(
    dir: FsPath,
    worktree: &str,
    epoch: u64,
    fresh: Staging,
    staging: &mut Staging,
    identity: (String, u64),
    place: &FsPath,
)
    requires
        call_ensures(Staging::open, (&dir, worktree, epoch), fresh),
        call_ensures(Staging::set_identity, (staging, worktree, epoch), ()),
        call_ensures(Staging::identity, (&*final(staging),), identity),
        call_ensures(Staging::dir, (&fresh,), place),
    ensures
        fresh.worktree@ == worktree@ && fresh.epoch == epoch && fresh.in_flight is None
            && fresh.refusals@.len() == 0,
        place@ == dir@,
        identity.0@ == worktree@ && identity.1 == epoch,
        final(staging).root == old(staging).root && final(staging).refusals == old(staging).refusals && final(staging).in_flight == old(staging).in_flight,
{
}

/// A refusal tells of its capture all that the engine needs to go back before it.
pub proof fn law_a_refusal_tells_of_its_capture(
    entry: QueueEntry,
    reason: &str,
    limit: Option<u64>,
    used: Option<u64>,
    requested: Option<u64>,
    status: &mut ShipStatus,
    r: RefusedCapture,
)
    requires
        call_ensures(refuse, (&entry, reason, limit, used, requested, status), r),
    ensures
        r.n == entry.n && r.capture_id == entry.capture_id && r.parent == entry.register.parent,
        r.class == entry.class && r.uploads@ == entry.uploads@ && r.reason@ == reason@,
        r.limit == limit && r.used == used && r.requested == requested,
        entry.class == Some(Class::Bulk) ==> final(status).refused_bulk,
        entry.class == Some(Class::Small) ==> final(status).refused_small,
        final(status).fenced == old(status).fenced,
{
}

/// How often and how long to try where nothing else is configured, and from which size on an object
/// goes up in parts.
pub proof fn law_defaults_of_shipping(retry: RetryPolicy, multipart: MultipartConfig)
    requires
        call_ensures(<RetryPolicy as Default>::default, (), retry),
        call_ensures(<MultipartConfig as Default>::default, (), multipart),
    ensures
        retry.attempts == 5 && retry.backoff == 200_000_000 && retry.max_backoff == 5_000_000_000,
        multipart.threshold == 16 * 1024 * 1024 && multipart.part_size == 16 * 1024 * 1024
            && multipart.parts_in_flight == 4,
{
}

} // verus!
