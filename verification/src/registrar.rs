//! The session channel: the calls an executor makes, each carrying its epoch, the in-memory
//! registrar that answers them, what the answers of an HTTP registrar mean, and the minter that
//! turns the answers into URLs.
//!
//! # Multipart uploads
//!
//! Large objects are uploaded in parts without the executor ever holding bucket credentials: the
//! registrar creates and completes the upload, the executor only PUTs parts to presigned part URLs
//! and reports their ETags. `upload.urls` carries the size of each key; the answer names, for the
//! keys the registrar takes in parts, an upload id, the part size and one URL per part. Part `i`
//! (from 1) goes to the `i`-th URL, and the key is not among the plain URLs. `upload.complete`
//! finishes one such upload, write-once.
//!
//! # Byte quota
//!
//! A session has a byte budget. A key is priced once; a call that would take the session past the
//! budget is refused whole, before anything is minted. That refusal is final for the capture that
//! asked.
//!
//! # Platforms
//!
//! `plan.get` names the executor's platform. The bulk section of a head that was captured for
//! another platform is answered as pending: a dependency tree built elsewhere is not this
//! executor's to restore.

use vstd::prelude::*;
use vstd::string::*;
use crate::count;
use crate::keys;
use crate::manifest::{BulkState, Manifest, PendingTag, Sections};
use crate::order;
use crate::order::{SortedMap, SortedSet};
use crate::sink;
use crate::sink::{Completed, PutOutcome, SinkError, UrlMinter};
use crate::text;

verus! {

/// `plan.get`.
pub struct PlanGetRequest {
    /// Worktree, when the executor knows it; otherwise the session token identifies it and the
    /// response says which.
    pub worktree_id: Option<String>,
    /// Caller's epoch; 0 = not claimed yet (the plan of a booting executor claims the lease).
    pub epoch: u64,
    /// The executor's `<os>-<arch>-<libc>`. Absent = the head as is.
    pub platform: Option<String>,
}

impl PlanGetRequest {
    /// The request a booting executor sends: `epoch` 0 and its own platform.
    #[must_use]
    pub fn booting(worktree_id: Option<String>, platform: String) -> (r: Self)
        ensures
            r.worktree_id == worktree_id,
            r.epoch == 0,
            r.platform == Some(platform),
    {
        PlanGetRequest { worktree_id, epoch: 0, platform: Some(platform) }
    }
}

/// The chain head.
pub struct HeadInfo {
    /// Position.
    pub n: u64,
    /// Capture id.
    pub capture_id: String,
    /// Manifest key.
    pub manifest_key: String,
    /// The manifest.
    pub manifest: Manifest,
}

impl HeadInfo {
    /// Whether `other` is a copy of this head.
    pub open spec fn copied(&self, other: &Self) -> bool {
        &&& self.n == other.n
        &&& self.capture_id == other.capture_id
        &&& self.manifest_key == other.manifest_key
        &&& self.manifest.copied(&other.manifest)
    }

    /// A copy.
    pub fn copy(&self) -> (r: Self)
        requires
            self.manifest.wf(),
        ensures
            self.copied(&r),
            r.manifest.wf(),
    {
        HeadInfo {
            n: self.n,
            capture_id: self.capture_id.clone(),
            manifest_key: self.manifest_key.clone(),
            manifest: self.manifest.copy(),
        }
    }
}

/// `plan.get` response: the head to materialize and GET URLs for what it needs.
pub struct PlanGetResponse {
    /// The worktree the session token is scoped to.
    pub worktree_id: String,
    /// The lease epoch this session holds.
    pub epoch: u64,
    /// Head, or none for an empty chain.
    pub head: Option<HeadInfo>,
    /// Key → presigned GET URL (empty when the sink is a directory).
    pub get_urls: SortedMap<String, String>,
}

/// `upload.urls`.
pub struct UploadUrlsRequest {
    /// Worktree.
    pub worktree_id: String,
    /// Caller's epoch.
    pub epoch: u64,
    /// Keys under the caller's epoch prefix.
    pub keys: Vec<String>,
    /// Size of each key the caller can size: the registrar prices the batch from these before it
    /// mints anything.
    pub sizes: SortedMap<String, u64>,
}

impl UploadUrlsRequest {
    /// Whether the sizes are in order.
    pub open spec fn wf(&self) -> bool {
        self.sizes.wf()
    }

    /// Single-PUT URLs for `keys`.
    #[must_use]
    pub fn new(worktree_id: &str, epoch: u64, keys: Vec<String>) -> (r: Self)
        ensures
            r.wf(),
            r.worktree_id@ == worktree_id@,
            r.epoch == epoch,
            r.keys == keys,
            r.sizes@ == Map::<Seq<char>, u64>::empty(),
    {
        UploadUrlsRequest {
            worktree_id: worktree_id.to_owned(),
            epoch,
            keys,
            sizes: SortedMap::new(),
        }
    }
}

/// One multipart upload the registrar created for a key.
#[derive(Debug)]
pub struct MultipartUrls {
    /// The store's upload id; echoed on `upload.complete`.
    pub upload_id: String,
    /// Bytes per part (the last part is shorter).
    pub part_size: u64,
    /// One presigned `UploadPart` URL per part, in part-number order.
    pub part_urls: Vec<String>,
}

/// What a multipart upload stands for.
#[verifier::ext_equal]
pub struct MultipartModel {
    /// The upload id.
    pub upload_id: Seq<char>,
    /// Bytes per part.
    pub part_size: u64,
    /// One URL per part.
    pub part_urls: Seq<Seq<char>>,
}

impl View for MultipartUrls {
    type V = MultipartModel;

    open spec fn view(&self) -> MultipartModel {
        MultipartModel {
            upload_id: self.upload_id@,
            part_size: self.part_size,
            part_urls: order::views(self.part_urls@),
        }
    }
}

/// `upload.urls` response.
pub struct UploadUrlsResponse {
    /// Key → presigned PUT URL.
    pub urls: SortedMap<String, String>,
    /// Key → multipart upload, for keys the registrar takes as multipart (absent from `urls`).
    pub multipart: SortedMap<String, MultipartUrls>,
}

impl UploadUrlsResponse {
    /// Whether the keys are in order.
    pub open spec fn wf(&self) -> bool {
        self.urls.wf() && self.multipart.wf()
    }
}

/// One uploaded part, as reported on `upload.complete`.
#[derive(Debug)]
pub struct CompletedPart {
    /// 1-based part number.
    pub part_number: u32,
    /// The ETag the store answered the part PUT with, verbatim.
    pub etag: String,
}

/// A copy of a list of parts.
pub fn copy_parts(parts: &Vec<CompletedPart>) -> (r: Vec<CompletedPart>)
    ensures
        r@ == parts@,
{
    let mut out: Vec<CompletedPart> = Vec::new();
    let mut i: usize = 0;
    while i < parts.len()
        invariant
            0 <= i <= parts@.len(),
            out@ == parts@.take(i as int),
        decreases parts@.len() - i,
    {
        out.push(CompletedPart { part_number: parts[i].part_number, etag: parts[i].etag.clone() });
        i = i + 1;
        assert(out@ =~= parts@.take(i as int));
    }
    assert(parts@.take(parts@.len() as int) =~= parts@);
    out
}

/// `upload.complete`: finish an upload at its key, write-once.
pub struct UploadCompleteRequest {
    /// Worktree.
    pub worktree_id: String,
    /// Caller's epoch.
    pub epoch: u64,
    /// Key.
    pub key: String,
    /// The upload id from `upload.urls`.
    pub upload_id: String,
    /// Every part, in part-number order.
    pub parts: Vec<CompletedPart>,
}

/// `upload.complete` response.
#[derive(Debug, Clone, Copy, PartialEq, Eq, Structural)]
pub struct UploadCompleteResponse {
    /// Size of the assembled object, when the registrar reports it.
    pub size: Option<u64>,
}

/// `capture.register`: the compare-and-swap.
pub struct RegisterRequest {
    /// Worktree.
    pub worktree_id: String,
    /// Caller's epoch.
    pub epoch: u64,
    /// Position.
    pub n: u64,
    /// Expected parent (the current head), or none for an empty chain.
    pub parent: Option<String>,
    /// Capture id.
    pub capture_id: String,
    /// Manifest key.
    pub manifest_key: String,
    /// The manifest.
    pub manifest: Manifest,
}

impl RegisterRequest {
    /// Whether `other` is a copy of this request.
    pub open spec fn copied(&self, other: &Self) -> bool {
        &&& self.worktree_id == other.worktree_id
        &&& self.epoch == other.epoch
        &&& self.n == other.n
        &&& self.parent == other.parent
        &&& self.capture_id == other.capture_id
        &&& self.manifest_key == other.manifest_key
        &&& self.manifest.copied(&other.manifest)
    }

    /// A copy.
    pub fn copy(&self) -> (r: Self)
        requires
            self.manifest.wf(),
        ensures
            self.copied(&r),
            r.manifest.wf(),
    {
        RegisterRequest {
            worktree_id: self.worktree_id.clone(),
            epoch: self.epoch,
            n: self.n,
            parent: text::copy_opt(&self.parent),
            capture_id: self.capture_id.clone(),
            manifest_key: self.manifest_key.clone(),
            manifest: self.manifest.copy(),
        }
    }
}

/// `capture.register` response.
#[derive(Debug)]
pub struct RegisterResponse {
    /// Head position after the call.
    pub head_n: u64,
    /// Head capture id after the call.
    pub head_capture_id: String,
}

/// `lease.heartbeat`.
#[derive(Debug)]
pub struct HeartbeatRequest {
    /// Worktree.
    pub worktree_id: String,
    /// Caller's epoch.
    pub epoch: u64,
}

/// `lease.heartbeat` response.
#[derive(Debug, Clone, Copy, PartialEq, Eq, Structural)]
pub struct HeartbeatResponse {
    /// Seconds until the lease expires without another heartbeat.
    pub expires_in_secs: u64,
}

/// `change.summary`.
#[derive(Debug)]
pub struct ChangeSummaryRequest {
    /// Worktree.
    pub worktree_id: String,
    /// Caller's epoch.
    pub epoch: u64,
    /// The checkpoint capture the summary belongs to (must be the chain head).
    pub capture_id: String,
    /// The summary, as JSON.
    pub summary: String,
}

impl ChangeSummaryRequest {
    /// A copy.
    pub fn copy(&self) -> (r: Self)
        ensures
            r == *self,
    {
        ChangeSummaryRequest {
            worktree_id: self.worktree_id.clone(),
            epoch: self.epoch,
            capture_id: self.capture_id.clone(),
            summary: self.summary.clone(),
        }
    }
}

/// Registrar errors.
#[derive(Debug)]
pub enum RegistrarError {
    /// The epoch is stale: stop shipping, pause the agent.
    Fenced {
        /// The caller's epoch.
        epoch: u64,
        /// The live epoch.
        live: u64,
    },
    /// Wrong parent.
    WrongParent {
        /// Head position.
        head_n: u64,
        /// Head capture id.
        head_capture_id: String,
    },
    /// Heartbeat found no lease row.
    LeaseLost,
    /// Summary refused (capture is not the head).
    SummaryRefused(String),
    /// The key already holds an object.
    KeyExists {
        /// Key.
        key: String,
    },
    /// The bytes are over the session's quota. Terminal for the capture that asked.
    QuotaRefused {
        /// The registrar's reason code (`byte-quota`).
        reason: String,
        /// The session's budget in bytes, when the answer names it.
        limit: Option<u64>,
        /// Bytes priced against the session so far.
        used: Option<u64>,
        /// Bytes this call asked for.
        requested: Option<u64>,
    },
    /// Transport failure (retryable).
    Transport(String),
    /// Unexpected answer.
    Protocol(String),
}

impl RegistrarError {
    /// What the error says.
    pub open spec fn says(&self) -> Seq<char> {
        match self {
            RegistrarError::Fenced { epoch, live } => "epoch "@ + text::decimal(*epoch as nat)
                + " is stale (live epoch "@ + text::decimal(*live as nat) + ")"@,
            RegistrarError::WrongParent { head_n, head_capture_id } =>
                "wrong parent: chain head is n="@ + text::decimal(*head_n as nat) + " "@
                + head_capture_id@,
            RegistrarError::LeaseLost => "lease lost"@,
            RegistrarError::SummaryRefused(why) => "summary refused: "@ + why@,
            RegistrarError::KeyExists { key } => "key exists: "@ + key@,
            RegistrarError::QuotaRefused { reason, limit, used, requested } => sink::quota_text(
                reason@,
                *limit,
                *used,
                *requested,
            ),
            RegistrarError::Transport(why) => "transport: "@ + why@,
            RegistrarError::Protocol(why) => "protocol: "@ + why@,
        }
    }

    /// What the error says.
    pub fn message(&self) -> (r: String)
        ensures
            r@ == self.says(),
    {
        match self {
            RegistrarError::Fenced { epoch, live } => {
                let mut out: String = "epoch ".to_owned();
                out.append(text::dec(*epoch).as_str());
                out.append(" is stale (live epoch ");
                out.append(text::dec(*live).as_str());
                out.append(")");
                out
            },
            RegistrarError::WrongParent { head_n, head_capture_id } => {
                let mut out: String = "wrong parent: chain head is n=".to_owned();
                out.append(text::dec(*head_n).as_str());
                out.append(" ");
                out.append(head_capture_id.as_str());
                out
            },
            RegistrarError::LeaseLost => "lease lost".to_owned(),
            RegistrarError::SummaryRefused(why) => text::concat("summary refused: ", why.as_str()),
            RegistrarError::KeyExists { key } => text::concat("key exists: ", key.as_str()),
            RegistrarError::QuotaRefused { reason, limit, used, requested } => sink::quota_message(
                reason.as_str(),
                limit,
                used,
                requested,
            ),
            RegistrarError::Transport(why) => text::concat("transport: ", why.as_str()),
            RegistrarError::Protocol(why) => text::concat("protocol: ", why.as_str()),
        }
    }

    /// Whether a retry can help: only a failure on the way can pass.
    #[must_use]
    pub fn is_retryable(&self) -> (r: bool)
        ensures
            r == (self is Transport),
    {
        match self {
            RegistrarError::Transport(_) => true,
            _ => false,
        }
    }
}

/// The session-channel port. Each registrar says what its answers are; one that says nothing may
/// answer anything.
pub trait Registrar: Sized {
    /// Whether the registrar is sound.
    open spec fn inv(&self) -> bool {
        true
    }

    /// Whether `answer` is this registrar's to `upload.urls`, and `after` what is left.
    open spec fn mints(
        before: Self,
        req: UploadUrlsRequest,
        answer: Result<UploadUrlsResponse, RegistrarError>,
        after: Self,
    ) -> bool {
        true
    }

    /// Whether `answer` is this registrar's to `upload.complete`, and `after` what is left.
    open spec fn completes_with(
        before: Self,
        req: UploadCompleteRequest,
        answer: Result<UploadCompleteResponse, RegistrarError>,
        after: Self,
    ) -> bool {
        true
    }

    /// Whether `answer` is this registrar's to `capture.register`, and `after` what is left.
    open spec fn registers(
        before: Self,
        req: RegisterRequest,
        answer: Result<RegisterResponse, RegistrarError>,
        after: Self,
    ) -> bool {
        true
    }

    /// Head manifest and GET URLs for materialize.
    fn plan_get(&self, req: &PlanGetRequest) -> (r: Result<PlanGetResponse, RegistrarError>)
        requires
            self.inv(),
    ;

    /// PUT URLs for a key list (minted only while the lease predicate holds).
    fn upload_urls(&mut self, req: &UploadUrlsRequest) -> (r: Result<
        UploadUrlsResponse,
        RegistrarError,
    >)
        requires
            old(self).inv(),
            req.wf(),
        ensures
            final(self).inv(),
            Self::mints(*old(self), *req, r, *final(self)),
            r matches Ok(resp) ==> resp.wf(),
    ;

    /// Complete a multipart upload write-once; [`RegistrarError::KeyExists`] when the key is
    /// already there.
    fn upload_complete(&mut self, req: &UploadCompleteRequest) -> (r: Result<
        UploadCompleteResponse,
        RegistrarError,
    >)
        requires
            old(self).inv(),
        ensures
            final(self).inv(),
            Self::completes_with(*old(self), *req, r, *final(self)),
    ;

    /// The CAS. A register that reports the chain already at `n` with the same capture id is a
    /// lost ack, not a conflict.
    fn capture_register(&mut self, req: &RegisterRequest) -> (r: Result<
        RegisterResponse,
        RegistrarError,
    >)
        requires
            old(self).inv(),
            req.manifest.wf(),
        ensures
            final(self).inv(),
            Self::registers(*old(self), *req, r, *final(self)),
    ;

    /// Zero rows = lost.
    fn lease_heartbeat(&self, req: &HeartbeatRequest) -> (r: Result<
        HeartbeatResponse,
        RegistrarError,
    >)
        requires
            self.inv(),
    ;

    /// Accepted only against the chain head.
    fn change_summary(&mut self, req: &ChangeSummaryRequest) -> (r: Result<(), RegistrarError>)
        requires
            old(self).inv(),
        ensures
            final(self).inv(),
    ;
}

/// How the in-memory registrar answers `sizes`: a key of at least `threshold` bytes is created as
/// a multipart upload cut at `part_size`.
#[derive(Debug, Clone, Copy, PartialEq, Eq, Structural)]
pub struct MultipartPolicy {
    /// Smallest size taken as multipart.
    pub threshold: u64,
    /// Bytes per part.
    pub part_size: u64,
}

/// Why a completer refused.
#[derive(Debug)]
pub enum CompleteRefusal {
    /// The key already holds an object.
    Exists,
    /// The parts do not assemble (unknown ETag, missing part).
    BadParts(String),
}

/// What the in-memory registrar's `upload.complete` drives: the bucket's side of it.
pub trait MultipartCompleter: Sized {
    /// What the bucket may answer when it is asked to assemble `parts` at `key`.
    open spec fn completes(
        &self,
        key: Seq<char>,
        upload_id: Seq<char>,
        parts: Vec<CompletedPart>,
        answer: Result<Option<u64>, CompleteRefusal>,
    ) -> bool {
        true
    }

    /// Assemble `parts` at `key`; the assembled size when known.
    fn complete(&self, key: &str, upload_id: &str, parts: &Vec<CompletedPart>) -> (r: Result<
        Option<u64>,
        CompleteRefusal,
    >)
        ensures
            self.completes(key@, upload_id@, *parts, r),
    ;
}

/// A multipart upload created and not yet completed.
pub struct PendingUpload {
    /// Key.
    pub key: String,
    /// Parts.
    pub parts: u32,
}

/// What a pending upload stands for.
#[verifier::ext_equal]
pub struct PendingModel {
    /// Key.
    pub key: Seq<char>,
    /// Parts.
    pub parts: u32,
}

impl View for PendingUpload {
    type V = PendingModel;

    open spec fn view(&self) -> PendingModel {
        PendingModel { key: self.key@, parts: self.parts }
    }
}

/// The in-memory registrar's byte budget. Keys are priced from the sizes of `upload.urls`; a key
/// that a register names and that was never sized is priced from what the bucket reports.
pub struct ByteQuota {
    /// Bytes this session may hold.
    pub limit: u64,
    /// Key → bytes, for the keys the bucket holds.
    pub stored: SortedMap<String, u64>,
}

/// In-memory registrar: one worktree, one chain, a live epoch, a lease flag.
pub struct InMemoryRegistrar {
    /// The worktree `plan.get` answers.
    pub worktree: String,
    /// Where URLs point to: `<base>/<key>`.
    pub url_base: Option<String>,
    /// Which keys are taken as multipart.
    pub multipart: Option<MultipartPolicy>,
    /// The byte budget.
    pub quota: Option<ByteQuota>,
    /// The live epoch.
    pub live_epoch: u64,
    /// Bytes priced per key (a key is priced once).
    pub priced: SortedMap<String, u64>,
    /// Every size a caller declared on `upload.urls`.
    pub declared: SortedMap<String, u64>,
    /// The captures registered, in order.
    pub captures: Vec<HeadInfo>,
    /// Whether heartbeats find a lease.
    pub lease_alive: bool,
    /// Summaries accepted.
    pub accepted: Vec<ChangeSummaryRequest>,
    /// `upload.urls` calls made.
    pub url_calls: u64,
    /// Upload id → upload.
    pub uploads: SortedMap<String, PendingUpload>,
    /// Keys known to hold an object.
    pub completed: SortedSet<String>,
    /// `upload.complete` calls that reached the store.
    pub complete_calls: u64,
    /// Uploads created so far.
    pub created: u64,
}

/// Where a key is to be had below `base`.
pub open spec fn url_text(base: Option<String>, key: Seq<char>) -> Seq<char> {
    match base {
        Some(b) => text::without_end(b@, '/') + "/"@ + key,
        None => Seq::empty(),
    }
}

/// What keys are under the prefix of an epoch: `captures/<worktree>/<epoch>/`.
pub open spec fn own_prefix(worktree_id: Seq<char>, epoch: nat) -> Seq<char> {
    keys::base_key(worktree_id, epoch) + "/"@
}

/// A list of keys and sizes.
pub open spec fn sized_views(list: Seq<(String, u64)>) -> Seq<(Seq<char>, u64)> {
    Seq::new(list.len(), |i: int| (list[i].0@, list[i].1))
}

/// Those of a list of keys that are not priced yet.
pub open spec fn fresh(list: Seq<(Seq<char>, u64)>, priced: Map<Seq<char>, u64>) -> Seq<
    (Seq<char>, u64),
>
    decreases list.len(),
{
    if list.len() == 0 {
        Seq::empty()
    } else if priced.dom().contains(list.last().0) {
        fresh(list.drop_last(), priced)
    } else {
        fresh(list.drop_last(), priced).push(list.last())
    }
}

/// The sizes of a list of keys.
pub open spec fn amounts(list: Seq<(Seq<char>, u64)>) -> Seq<u64> {
    Seq::new(list.len(), |i: int| list[i].1)
}

/// A map with a list of keys added, one by one.
pub open spec fn with_all(m: Map<Seq<char>, u64>, list: Seq<(Seq<char>, u64)>) -> Map<
    Seq<char>,
    u64,
>
    decreases list.len(),
{
    if list.len() == 0 {
        m
    } else {
        with_all(m, list.drop_last()).insert(list.last().0, list.last().1)
    }
}

/// The keys under `prefix` that come with a size, in order.
pub open spec fn sized_keys(
    keys: Seq<String>,
    prefix: Seq<char>,
    sizes: Map<Seq<char>, u64>,
) -> Seq<(Seq<char>, u64)>
    decreases keys.len(),
{
    if keys.len() == 0 {
        Seq::empty()
    } else {
        let front = sized_keys(keys.drop_last(), prefix, sizes);
        let k = keys.last()@;
        if text::has_prefix(k, prefix) && sizes.dom().contains(k) {
            front.push((k, sizes[k]))
        } else {
            front
        }
    }
}

/// What minting leads to: the uploads created, and what is answered.
#[verifier::ext_equal]
pub struct Minting {
    /// Uploads created so far.
    pub created: u64,
    /// Upload id → upload.
    pub uploads: Map<Seq<char>, PendingModel>,
    /// Key → PUT URL.
    pub urls: Map<Seq<char>, Seq<char>>,
    /// Key → multipart upload.
    pub multipart: Map<Seq<char>, MultipartModel>,
}

/// The id of the upload created as number `n`.
pub open spec fn upload_id_text(n: nat) -> Seq<char> {
    "mpu-"@ + text::decimal(n)
}

/// The URL of part `number` of an upload.
pub open spec fn part_url_text(url: Seq<char>, number: nat, upload_id: Seq<char>) -> Seq<char> {
    url + "?partNumber="@ + text::decimal(number) + "&uploadId="@ + upload_id
}

/// Whether a key is taken as multipart: its size is known and not below the threshold.
pub open spec fn takes_multipart(
    policy: Option<MultipartPolicy>,
    base: Option<String>,
    size: Option<u64>,
) -> bool {
    policy is Some && base is Some && size is Some && size->0 >= policy->0.threshold
        && policy->0.part_size > 0
}

/// The size of a key, if it has one.
pub open spec fn size_of_key(sizes: Map<Seq<char>, u64>, k: Seq<char>) -> Option<u64> {
    if sizes.dom().contains(k) {
        Some(sizes[k])
    } else {
        None
    }
}

impl Minting {
    /// With one key more: a multipart upload, or a plain URL.
    pub open spec fn with_key(
        self,
        policy: Option<MultipartPolicy>,
        base: Option<String>,
        k: Seq<char>,
        size: Option<u64>,
    ) -> Minting {
        if takes_multipart(policy, base, size) {
            let part_size = policy->0.part_size;
            let created = count::capped((self.created + 1) as nat) as u64;
            let id = upload_id_text(created as nat);
            let parts = sink::parts_of(size->0 as nat, part_size as nat);
            Minting {
                created,
                uploads: self.uploads.insert(
                    id,
                    PendingModel {
                        key: k,
                        parts: if parts > u32::MAX {
                            u32::MAX
                        } else {
                            parts as u32
                        },
                    },
                ),
                urls: self.urls,
                multipart: self.multipart.insert(
                    k,
                    MultipartModel {
                        upload_id: id,
                        part_size,
                        part_urls: Seq::new(
                            parts,
                            |i: int| part_url_text(url_text(base, k), (i + 1) as nat, id),
                        ),
                    },
                ),
            }
        } else {
            Minting { urls: self.urls.insert(k, url_text(base, k)), ..self }
        }
    }

    /// With the keys under `prefix`, one after another.
    pub open spec fn with_keys(
        self,
        policy: Option<MultipartPolicy>,
        base: Option<String>,
        keys: Seq<String>,
        prefix: Seq<char>,
        sizes: Map<Seq<char>, u64>,
    ) -> Minting
        decreases keys.len(),
    {
        if keys.len() == 0 {
            self
        } else {
            let front = self.with_keys(policy, base, keys.drop_last(), prefix, sizes);
            let k = keys.last()@;
            if text::has_prefix(k, prefix) {
                front.with_key(policy, base, k, size_of_key(sizes, k))
            } else {
                front
            }
        }
    }
}

/// The uploads of a map.
pub open spec fn pending_views(m: Map<Seq<char>, PendingUpload>) -> Map<Seq<char>, PendingModel> {
    m.map_values(|u: PendingUpload| u@)
}

/// The multipart answers of a map.
pub open spec fn multipart_views(m: Map<Seq<char>, MultipartUrls>) -> Map<
    Seq<char>,
    MultipartModel,
> {
    m.map_values(|u: MultipartUrls| u@)
}

/// Whether `e` is the refusal that `limit`, `used` and `requested` lead to.
pub open spec fn is_quota_refusal(e: RegistrarError, limit: u64, used: nat, requested: nat) -> bool {
    e matches RegistrarError::QuotaRefused { reason, limit: l, used: u, requested: q } && reason@
        == "byte-quota"@ && l == Some(limit) && u == Some(used as u64) && q == Some(
        requested as u64,
    )
}

/// Whether `e` is the fence of an epoch.
pub open spec fn is_fence(e: RegistrarError, epoch: u64, live: u64) -> bool {
    e matches RegistrarError::Fenced { epoch: a, live: b } && a == epoch && b == live
}

/// Every store key that a manifest's sections name, the tree roots aside: git packs (and their
/// indexes), workspace packs, bulk packs.
pub open spec fn section_packs(s: Sections) -> Seq<Seq<char>> {
    with_indexes(s.git.packs@) + order::views(s.workspace.packs@) + match s.bulk {
        BulkState::Ready(b) => order::views(b.packs@),
        BulkState::Pending(_) => Seq::empty(),
    }
}

/// Each pack key, followed by the key of its index.
pub open spec fn with_indexes(packs: Seq<String>) -> Seq<Seq<char>>
    decreases packs.len(),
{
    if packs.len() == 0 {
        Seq::empty()
    } else {
        with_indexes(packs.drop_last()).push(packs.last()@).push(packs.last()@ + ".idx"@)
    }
}

/// Each pack key, followed by the key of its index.
fn index_all(packs: &Vec<String>) -> (r: Vec<String>)
    ensures
        order::views(r@) == with_indexes(packs@),
{
    let mut out: Vec<String> = Vec::new();
    let mut i: usize = 0;
    assert(packs@.take(0) =~= Seq::empty());
    assert(order::views(out@) =~= with_indexes(packs@.take(0)));
    while i < packs.len()
        invariant
            0 <= i <= packs@.len(),
            order::views(out@) == with_indexes(packs@.take(i as int)),
        decreases packs@.len() - i,
    {
        let ghost before = order::views(out@);
        out.push(packs[i].clone());
        out.push(text::concat(packs[i].as_str(), ".idx"));
        proof {
            let t = packs@.take(i + 1);
            assert(t.drop_last() =~= packs@.take(i as int));
            assert(t.last() == packs@[i as int]);
            assert(order::views(out@) =~= before.push(t.last()@).push(t.last()@ + ".idx"@));
        }
        i = i + 1;
    }
    assert(packs@.take(packs@.len() as int) =~= packs@);
    out
}

/// Every store key a register names: git packs (and their indexes), the workspace and bulk tree
/// roots and packs, and the manifest itself.
pub open spec fn named_keys(s: Sections, manifest_key: Seq<char>) -> Seq<Seq<char>> {
    let front = with_indexes(s.git.packs@).push(s.workspace.root@) + order::views(
        s.workspace.packs@,
    );
    let all = match s.bulk {
        BulkState::Ready(b) => front.push(b.root@) + order::views(b.packs@),
        BulkState::Pending(_) => front,
    };
    all.push(manifest_key)
}

/// Every store key a register names.
pub fn manifest_keys(req: &RegisterRequest) -> (r: Vec<String>)
    ensures
        order::views(r@) == named_keys(req.manifest.sections, req.manifest_key@),
{
    let s: &Sections = &req.manifest.sections;
    let mut out: Vec<String> = index_all(&s.git.packs);
    let ghost v0 = order::views(out@);
    out.push(s.workspace.root.clone());
    assert(order::views(out@) =~= v0.push(s.workspace.root@));
    let ghost v1 = order::views(out@);
    let mut packs: Vec<String> = text::copy_all(&s.workspace.packs);
    out.append(&mut packs);
    assert(order::views(out@) =~= v1 + order::views(s.workspace.packs@));
    let ghost v2 = order::views(out@);
    match &s.bulk {
        BulkState::Ready(b) => {
            out.push(b.root.clone());
            let mut more: Vec<String> = text::copy_all(&b.packs);
            out.append(&mut more);
            assert(order::views(out@) =~= v2.push(b.root@) + order::views(b.packs@));
        },
        BulkState::Pending(_) => {},
    }
    let ghost v3 = order::views(out@);
    out.push(req.manifest_key.clone());
    assert(order::views(out@) =~= v3.push(req.manifest_key@));
    out
}

/// Those of `keys` that are neither priced nor unknown to the bucket, with the size it reports.
pub open spec fn unsized_keys(
    keys: Seq<Seq<char>>,
    priced: Map<Seq<char>, u64>,
    stored: Map<Seq<char>, u64>,
) -> Seq<(Seq<char>, u64)>
    decreases keys.len(),
{
    if keys.len() == 0 {
        Seq::empty()
    } else {
        let front = unsized_keys(keys.drop_last(), priced, stored);
        let k = keys.last();
        if !priced.dom().contains(k) && stored.dom().contains(k) {
            front.push((k, stored[k]))
        } else {
            front
        }
    }
}

/// A part list in a message.
pub open spec fn numbers_text(parts: Seq<CompletedPart>) -> Seq<char>
    decreases parts.len(),
{
    if parts.len() == 0 {
        Seq::empty()
    } else if parts.len() == 1 {
        text::decimal(parts[0].part_number as nat)
    } else {
        numbers_text(parts.drop_last()) + ", "@ + text::decimal(parts.last().part_number as nat)
    }
}

/// Whether a part list is complete: numbered from 1 to `count`, each with an ETag.
pub open spec fn completes_parts(parts: Seq<CompletedPart>, count: u32) -> bool {
    &&& parts.len() == count
    &&& forall|i: int|
        0 <= i < parts.len() ==> (#[trigger] parts[i]).part_number == i + 1
            && parts[i].etag@.len() > 0
}

/// What a part list that does not complete an upload is answered.
pub open spec fn bad_parts_text(parts: Seq<CompletedPart>, count: u32) -> Seq<char> {
    "parts ["@ + numbers_text(parts) + "] do not complete "@ + text::decimal(count as nat)
        + " parts"@
}

impl InMemoryRegistrar {
    /// Whether the maps are in order and the chain is a chain: capture `i` stands at position
    /// `i`.
    pub open spec fn wf(&self) -> bool {
        &&& self.priced.wf()
        &&& self.declared.wf()
        &&& self.uploads.wf()
        &&& self.completed.wf()
        &&& self.quota is Some ==> self.quota->0.stored.wf()
        &&& forall|i: int|
            0 <= i < self.captures@.len() ==> (#[trigger] self.captures@[i]).n == i
                && self.captures@[i].manifest.wf()
    }

    /// Bytes priced so far.
    pub open spec fn used(&self) -> nat {
        count::capped(count::total(self.priced.values@))
    }

    /// Bytes that pricing `list` adds.
    pub open spec fn requested(&self, list: Seq<(Seq<char>, u64)>) -> nat {
        count::capped(count::total(amounts(fresh(list, self.priced@))))
    }

    /// Whether the budget cannot take `list`.
    pub open spec fn over_budget(&self, list: Seq<(Seq<char>, u64)>) -> bool {
        self.quota is Some && count::capped(self.used() + self.requested(list))
            > self.quota->0.limit
    }

    /// A registrar for `worktree_id` whose live epoch is `epoch`. With `url_base`, URLs are
    /// `<base>/<key>`.
    #[must_use]
    pub fn new(worktree_id: &str, epoch: u64, url_base: Option<String>) -> (r: Self)
        ensures
            r.wf(),
            r.worktree@ == worktree_id@,
            r.live_epoch == epoch,
            r.url_base == url_base,
            r.multipart is None,
            r.quota is None,
            r.priced@ == Map::<Seq<char>, u64>::empty(),
            r.declared@ == Map::<Seq<char>, u64>::empty(),
            r.captures@.len() == 0,
            r.lease_alive,
            r.accepted@.len() == 0,
            r.url_calls == 0,
            r.uploads@ == Map::<Seq<char>, PendingUpload>::empty(),
            r.completed.items@.len() == 0,
            r.complete_calls == 0,
            r.created == 0,
    {
        InMemoryRegistrar {
            worktree: worktree_id.to_owned(),
            url_base,
            multipart: None,
            quota: None,
            live_epoch: epoch,
            priced: SortedMap::new(),
            declared: SortedMap::new(),
            captures: Vec::new(),
            lease_alive: true,
            accepted: Vec::new(),
            url_calls: 0,
            uploads: SortedMap::new(),
            completed: SortedSet::new(),
            complete_calls: 0,
            created: 0,
        }
    }

    /// Take keys of at least `policy.threshold` bytes as multipart (needs a `url_base`).
    #[must_use]
    pub fn with_multipart(self, policy: MultipartPolicy) -> (r: Self)
        requires
            self.wf(),
        ensures
            r.wf(),
            r == (InMemoryRegistrar { multipart: Some(policy), ..self }),
    {
        let mut r: Self = self;
        r.multipart = Some(policy);
        r
    }

    /// Refuse past `limit` bytes. Keys are priced once, from the sizes of `upload.urls` (refused
    /// there, before a URL is minted) and, for a key a register names that was never sized, from
    /// what the bucket reports as `stored` (refused at the register).
    #[must_use]
    pub fn with_byte_quota(self, limit: u64, stored: SortedMap<String, u64>) -> (r: Self)
        requires
            self.wf(),
            stored.wf(),
        ensures
            r.wf(),
            r == (InMemoryRegistrar { quota: Some(ByteQuota { limit, stored }), ..self }),
    {
        let mut r: Self = self;
        r.set_byte_quota(Some(limit), stored);
        r
    }

    /// Change (or lift) the byte budget.
    pub fn set_byte_quota(&mut self, limit: Option<u64>, stored: SortedMap<String, u64>)
        requires
            old(self).wf(),
            stored.wf(),
        ensures
            final(self).wf(),
            *final(self) == (InMemoryRegistrar {
                quota: match limit {
                    Some(limit) => Some(ByteQuota { limit, stored }),
                    None => None,
                },
                ..*old(self)
            }),
    {
        self.quota = match limit {
            Some(limit) => Some(ByteQuota { limit, stored }),
            None => None,
        };
    }

    /// Bytes priced against the session so far.
    #[must_use]
    pub fn used_bytes(&self) -> (r: u64)
        ensures
            r == self.used(),
    {
        count::sum(&self.priced.values)
    }

    /// Every size an `upload.urls` call declared, by key.
    #[must_use]
    pub fn sizes_seen(&self) -> (r: &SortedMap<String, u64>)
        ensures
            *r == self.declared,
    {
        &self.declared
    }

    /// Price `keys` (each at most once) and refuse the lot when the budget cannot take them.
    pub fn price(&mut self, list: &Vec<(String, u64)>) -> (r: Result<(), RegistrarError>)
        requires
            old(self).wf(),
        ensures
            final(self).wf(),
            *final(self) == (InMemoryRegistrar { priced: final(self).priced, ..*old(self) }),
            ({
                let keys = sized_views(list@);
                let new = fresh(keys, old(self).priced@);
                match r {
                    Ok(()) => {
                        &&& !old(self).over_budget(keys)
                        &&& final(self).priced@ == with_all(old(self).priced@, new)
                        &&& count::total(final(self).priced.values@) <= count::total(
                            old(self).priced.values@,
                        ) + count::total(amounts(new))
                    },
                    Err(e) => {
                        &&& old(self).over_budget(keys)
                        &&& is_quota_refusal(
                            e,
                            old(self).quota->0.limit,
                            old(self).used(),
                            old(self).requested(keys),
                        )
                        &&& final(self).priced == old(self).priced
                    },
                }
            }),
    {
        let ghost keys = sized_views(list@);
        let ghost before = self.priced@;
        let mut new: Vec<(String, u64)> = Vec::new();
        let mut asked: Vec<u64> = Vec::new();
        let mut i: usize = 0;
        proof {
            assert(keys.take(0) =~= Seq::empty());
            assert(sized_views(new@) =~= fresh(keys.take(0), before));
            assert(asked@ =~= amounts(fresh(keys.take(0), before)));
        }
        while i < list.len()
            invariant
                0 <= i <= list@.len(),
                self.wf(),
                before == self.priced@,
                keys == sized_views(list@),
                sized_views(new@) == fresh(keys.take(i as int), before),
                asked@ == amounts(fresh(keys.take(i as int), before)),
                *self == *old(self),
            decreases list@.len() - i,
        {
            proof {
                let t = keys.take(i + 1);
                assert(t.drop_last() =~= keys.take(i as int));
                assert(t.last() == keys[i as int]);
            }
            if !self.priced.contains(&list[i].0) {
                let ghost was = sized_views(new@);
                new.push((list[i].0.clone(), list[i].1));
                asked.push(list[i].1);
                assert(sized_views(new@) =~= was.push(keys[i as int]));
                assert(asked@ =~= amounts(was.push(keys[i as int])));
            }
            i = i + 1;
        }
        assert(keys.take(keys.len() as int) =~= keys);
        if let Some(quota) = &self.quota {
            let used: u64 = count::sum(&self.priced.values);
            let requested: u64 = count::sum(&asked);
            if used.saturating_add(requested) > quota.limit {
                return Err(
                    RegistrarError::QuotaRefused {
                        reason: "byte-quota".to_owned(),
                        limit: Some(quota.limit),
                        used: Some(used),
                        requested: Some(requested),
                    },
                );
            }
        }
        let ghost added = sized_views(new@);
        let ghost total0 = count::total(self.priced.values@);
        let mut j: usize = 0;
        proof {
            assert(added.take(0) =~= Seq::empty());
            assert(amounts(added.take(0)) =~= Seq::empty());
        }
        while j < new.len()
            invariant
                0 <= j <= new@.len(),
                self.wf(),
                added == sized_views(new@),
                self.priced@ == with_all(before, added.take(j as int)),
                count::total(self.priced.values@) <= total0 + count::total(
                    amounts(added.take(j as int)),
                ),
                *self == (InMemoryRegistrar { priced: self.priced, ..*old(self) }),
            decreases new@.len() - j,
        {
            let k: String = new[j].0.clone();
            let b: u64 = new[j].1;
            let ghost values0 = self.priced.values@;
            let earlier: Option<u64> = self.priced.insert(k, b);
            proof {
                let t = added.take(j + 1);
                assert(t.drop_last() =~= added.take(j as int));
                assert(t.last() == added[j as int]);
                assert(amounts(t).drop_last() =~= amounts(added.take(j as int)));
                assert(amounts(t).last() == b);
                match earlier {
                    None => {
                        let at = choose|at: int|
                            0 <= at <= values0.len() && self.priced.values@
                                == #[trigger] values0.insert(at, b);
                        count::lemma_total_insert(values0, at, b);
                    },
                    Some(_) => {
                        let at = choose|at: int|
                            0 <= at < values0.len() && self.priced.values@
                                == #[trigger] values0.update(at, b);
                        count::lemma_total_update(values0, at, b);
                    },
                }
            }
            j = j + 1;
        }
        assert(added.take(added.len() as int) =~= added);
        Ok(())
    }

    /// Pretend `key` already holds an object: the next complete of it answers `exists`.
    pub fn mark_existing(&mut self, key: &str)
        requires
            old(self).wf(),
        ensures
            final(self).wf(),
            *final(self) == (InMemoryRegistrar { completed: final(self).completed, ..*old(self) }),
            forall|k: Seq<char>| #[trigger]
                final(self).completed.has(k) <==> old(self).completed.has(k) || k == key@,
    {
        let added: bool = self.completed.insert(key.to_owned());
    }

    /// `upload.complete` calls that reached the store (completed or refused as existing).
    #[must_use]
    pub fn completes(&self) -> (r: u64)
        ensures
            r == self.complete_calls,
    {
        self.complete_calls
    }

    /// Multipart uploads created and not yet completed.
    #[must_use]
    pub fn open_uploads(&self) -> (r: usize)
        ensures
            r == self.uploads.keys@.len(),
    {
        self.uploads.len()
    }

    /// Fence: bump the live epoch (a replacement executor claimed the worktree).
    pub fn set_live_epoch(&mut self, epoch: u64)
        ensures
            *final(self) == (InMemoryRegistrar { live_epoch: epoch, ..*old(self) }),
    {
        self.live_epoch = epoch;
    }

    /// The worktree `plan.get` answers.
    #[must_use]
    pub fn worktree_id(&self) -> (r: String)
        ensures
            r == self.worktree,
    {
        self.worktree.clone()
    }

    /// Answer `plan.get` as `worktree_id` from now on.
    pub fn set_worktree_id(&mut self, worktree_id: &str)
        ensures
            *final(self) == (InMemoryRegistrar { worktree: final(self).worktree, ..*old(self) }),
            final(self).worktree@ == worktree_id@,
    {
        self.worktree = worktree_id.to_owned();
    }

    /// Re-stamp the head's bulk section as captured for `platform`; a head without a bulk section
    /// is left alone.
    pub fn set_bulk_platform(&mut self, platform: &str)
        requires
            old(self).wf(),
        ensures
            final(self).wf(),
            *final(self) == (InMemoryRegistrar { captures: final(self).captures, ..*old(self) }),
            ({
                let before = old(self).captures@;
                let after = final(self).captures@;
                if before.len() > 0 && before.last().manifest.sections.bulk is Ready {
                    &&& after.len() == before.len()
                    &&& after.drop_last() == before.drop_last()
                    &&& after.last().manifest.sections.bulk matches BulkState::Ready(b)
                    &&& b.platform@ == platform@
                    &&& b.root == before.last().manifest.sections.bulk->Ready_0.root
                    &&& b.packs@ == before.last().manifest.sections.bulk->Ready_0.packs@
                    &&& after.last() == (HeadInfo {
                        manifest: Manifest {
                            sections: Sections {
                                bulk: BulkState::Ready(b),
                                ..before.last().manifest.sections
                            },
                            ..before.last().manifest
                        },
                        ..before.last()
                    })
                } else {
                    after == before
                }
            }),
    {
        let ghost before = self.captures@;
        match self.captures.pop() {
            Some(head) => {
                let mut head: HeadInfo = head;
                match &head.manifest.sections.bulk {
                    BulkState::Ready(b) => {
                        let mut section = b.copy();
                        section.platform = platform.to_owned();
                        head.manifest.sections.bulk = BulkState::Ready(section);
                        self.captures.push(head);
                        assert(self.captures@.drop_last() =~= before.drop_last());
                    },
                    BulkState::Pending(_) => {
                        self.captures.push(head);
                        assert(self.captures@ =~= before);
                    },
                }
            },
            None => {
                assert(self.captures@ =~= before);
            },
        }
    }

    /// Whether heartbeats find a lease.
    pub fn set_lease_alive(&mut self, alive: bool)
        ensures
            *final(self) == (InMemoryRegistrar { lease_alive: alive, ..*old(self) }),
    {
        self.lease_alive = alive;
    }

    /// The chain.
    #[must_use]
    pub fn chain(&self) -> (r: &Vec<HeadInfo>)
        ensures
            *r == self.captures,
    {
        &self.captures
    }

    /// Head.
    #[must_use]
    pub fn head(&self) -> (r: Option<&HeadInfo>)
        ensures
            match r {
                Some(h) => self.captures@.len() > 0 && *h == self.captures@.last(),
                None => self.captures@.len() == 0,
            },
    {
        let n: usize = self.captures.len();
        if n == 0 {
            None
        } else {
            Some(&self.captures[n - 1])
        }
    }

    /// Summaries accepted.
    #[must_use]
    pub fn summaries(&self) -> (r: &Vec<ChangeSummaryRequest>)
        ensures
            *r == self.accepted,
    {
        &self.accepted
    }

    /// `upload.urls` calls made.
    #[must_use]
    pub fn url_requests(&self) -> (r: u64)
        ensures
            r == self.url_calls,
    {
        self.url_calls
    }

    fn check_epoch(&self, epoch: u64) -> (r: Result<(), RegistrarError>)
        ensures
            match r {
                Ok(()) => epoch == self.live_epoch,
                Err(e) => epoch != self.live_epoch && is_fence(e, epoch, self.live_epoch),
            },
    {
        if epoch != self.live_epoch {
            return Err(RegistrarError::Fenced { epoch, live: self.live_epoch });
        }
        Ok(())
    }

    fn url(&self, key: &str) -> (r: String)
        ensures
            r@ == url_text(self.url_base, key@),
    {
        match &self.url_base {
            Some(b) => {
                let mut out: String = text::trim_end_char(b.as_str(), '/').to_owned();
                out.append("/");
                out.append(key);
                out
            },
            None => String::new(),
        }
    }

    /// What has been minted so far.
    pub open spec fn minting(
        &self,
        urls: SortedMap<String, String>,
        multipart: SortedMap<String, MultipartUrls>,
    ) -> Minting {
        Minting {
            created: self.created,
            uploads: pending_views(self.uploads@),
            urls: text::texts(urls@),
            multipart: multipart_views(multipart@),
        }
    }

    /// Create a multipart upload of `key`.
    fn create_upload(&mut self, key: &String, part_size: u64, size: u64) -> (r: MultipartUrls)
        requires
            old(self).wf(),
            part_size > 0,
        ensures
            final(self).wf(),
            *final(self) == (InMemoryRegistrar {
                created: final(self).created,
                uploads: final(self).uploads,
                ..*old(self)
            }),
            ({
                let id = upload_id_text(final(self).created as nat);
                let parts = sink::parts_of(size as nat, part_size as nat);
                &&& final(self).created == count::capped((old(self).created + 1) as nat)
                &&& pending_views(final(self).uploads@) == pending_views(
                    old(self).uploads@,
                ).insert(
                    id,
                    PendingModel {
                        key: key@,
                        parts: if parts > u32::MAX {
                            u32::MAX
                        } else {
                            parts as u32
                        },
                    },
                )
                &&& r@ == (MultipartModel {
                    upload_id: id,
                    part_size,
                    part_urls: Seq::new(
                        parts,
                        |i: int|
                            part_url_text(url_text(old(self).url_base, key@), (i + 1) as nat, id),
                    ),
                })
            }),
    {
        self.created = self.created.saturating_add(1);
        let upload_id: String = text::concat("mpu-", text::dec(self.created).as_str());
        let ghost id = upload_id@;
        let parts: u64 = sink::part_count(size, part_size);
        let url: String = self.url(key.as_str());
        let mut part_urls: Vec<String> = Vec::new();
        let mut n: u64 = 0;
        while n < parts
            invariant
                0 <= n <= parts,
                part_urls@.len() == n,
                id == upload_id@,
                forall|i: int|
                    0 <= i < n ==> (#[trigger] part_urls@[i])@ == part_url_text(
                        url@,
                        (i + 1) as nat,
                        id,
                    ),
            decreases parts - n,
        {
            let mut one: String = url.clone();
            one.append("?partNumber=");
            one.append(text::dec(n + 1).as_str());
            one.append("&uploadId=");
            one.append(upload_id.as_str());
            part_urls.push(one);
            n = n + 1;
        }
        let counted: u32 = if parts > u32::MAX as u64 {
            u32::MAX
        } else {
            parts as u32
        };
        let ghost uploads0 = self.uploads@;
        let earlier: Option<PendingUpload> = self.uploads.insert(
            upload_id.clone(),
            PendingUpload { key: key.clone(), parts: counted },
        );
        proof {
            assert(pending_views(self.uploads@) =~= pending_views(uploads0).insert(
                id,
                PendingModel { key: key@, parts: counted },
            ));
            assert(order::views(part_urls@) =~= Seq::new(
                parts as nat,
                |i: int| part_url_text(url@, (i + 1) as nat, id),
            ));
        }
        MultipartUrls { upload_id, part_size, part_urls }
    }

    /// Mint for one key.
    fn mint_key(
        &mut self,
        key: &String,
        size: Option<u64>,
        urls: &mut SortedMap<String, String>,
        multipart: &mut SortedMap<String, MultipartUrls>,
    )
        requires
            old(self).wf(),
            old(urls).wf(),
            old(multipart).wf(),
        ensures
            final(self).wf(),
            final(urls).wf(),
            final(multipart).wf(),
            *final(self) == (InMemoryRegistrar {
                created: final(self).created,
                uploads: final(self).uploads,
                ..*old(self)
            }),
            final(self).minting(*final(urls), *final(multipart)) == old(self).minting(
                *old(urls),
                *old(multipart),
            ).with_key(old(self).multipart, old(self).url_base, key@, size),
    {
        let ghost urls0 = urls@;
        let ghost multipart0 = multipart@;
        if let Some(policy) = self.multipart {
            if let Some(bytes) = size {
                if self.url_base.is_some() && bytes >= policy.threshold && policy.part_size > 0 {
                    let upload: MultipartUrls = self.create_upload(key, policy.part_size, bytes);
                    let earlier: Option<MultipartUrls> = multipart.insert(key.clone(), upload);
                    assert(multipart_views(multipart@) =~= multipart_views(multipart0).insert(
                        key@,
                        upload@,
                    ));
                    return ;
                }
            }
        }
        let url: String = self.url(key.as_str());
        let earlier: Option<String> = urls.insert(key.clone(), url);
        assert(text::texts(urls@) =~= text::texts(urls0).insert(key@, url@));
    }

    /// Why an `upload.complete` is refused before the store is asked, if it is.
    pub open spec fn refuses_complete(&self, req: UploadCompleteRequest, e: RegistrarError) -> bool {
        if req.epoch != self.live_epoch {
            is_fence(e, req.epoch, self.live_epoch)
        } else if !self.lease_alive {
            e is LeaseLost
        } else if !self.uploads@.dom().contains(req.upload_id@) {
            e matches RegistrarError::Protocol(why) && why@ == "no such upload "@ + req.upload_id@
        } else if self.uploads@[req.upload_id@].key@ != req.key@ {
            e matches RegistrarError::Protocol(why) && why@ == "upload "@ + req.upload_id@
                + " is for "@ + self.uploads@[req.upload_id@].key@
        } else {
            e matches RegistrarError::Protocol(why) && why@ == bad_parts_text(
                req.parts@,
                self.uploads@[req.upload_id@].parts,
            )
        }
    }

    /// Whether an `upload.complete` comes through to the store: the epoch is live, the lease
    /// holds, and the parts are those of an open upload of the key.
    pub open spec fn takes_complete(&self, req: UploadCompleteRequest) -> bool {
        &&& req.epoch == self.live_epoch
        &&& self.lease_alive
        &&& self.uploads@.dom().contains(req.upload_id@)
        &&& self.uploads@[req.upload_id@].key@ == req.key@
        &&& completes_parts(req.parts@, self.uploads@[req.upload_id@].parts)
    }

    /// Check an `upload.complete` before the store is asked.
    pub fn check_complete(&self, req: &UploadCompleteRequest) -> (r: Result<(), RegistrarError>)
        requires
            self.wf(),
        ensures
            match r {
                Ok(()) => self.takes_complete(*req),
                Err(e) => !self.takes_complete(*req) && self.refuses_complete(*req, e),
            },
    {
        match self.check_epoch(req.epoch) {
            Ok(()) => {},
            Err(e) => {
                return Err(e);
            },
        }
        if !self.lease_alive {
            return Err(RegistrarError::LeaseLost);
        }
        match self.uploads.get(&req.upload_id) {
            None => Err(
                RegistrarError::Protocol(
                    text::concat("no such upload ", req.upload_id.as_str()),
                ),
            ),
            Some(pending) => {
                if !text::str_eq(pending.key.as_str(), req.key.as_str()) {
                    let mut why: String = "upload ".to_owned();
                    why.append(req.upload_id.as_str());
                    why.append(" is for ");
                    why.append(pending.key.as_str());
                    return Err(RegistrarError::Protocol(why));
                }
                if !check_parts(&req.parts, pending.parts) {
                    let mut why: String = "parts [".to_owned();
                    why.append(write_numbers(&req.parts).as_str());
                    why.append("] do not complete ");
                    why.append(text::dec(pending.parts as u64).as_str());
                    why.append(" parts");
                    return Err(RegistrarError::Protocol(why));
                }
                Ok(())
            },
        }
    }

    /// Whether the store has to be asked: the parts complete an upload, and the key is not known
    /// to hold an object.
    pub fn asks_store(&self, req: &UploadCompleteRequest) -> (r: bool)
        requires
            self.wf(),
        ensures
            r == (self.takes_complete(*req) && !self.completed.has(req.key@)),
    {
        match self.check_complete(req) {
            Ok(()) => !self.completed.contains(&req.key),
            Err(_) => false,
        }
    }

    /// What an `upload.complete` leads to, where the store answers `stored`.
    pub open spec fn completed_as(
        before: Self,
        req: UploadCompleteRequest,
        stored: Result<Option<u64>, CompleteRefusal>,
        answer: Result<UploadCompleteResponse, RegistrarError>,
        after: Self,
    ) -> bool {
        if !before.takes_complete(req) {
            &&& after == before
            &&& answer matches Err(e)
            &&& before.refuses_complete(req, e)
        } else {
            let there = before.completed.has(req.key@) || stored == Err::<
                Option<u64>,
                CompleteRefusal,
            >(CompleteRefusal::Exists);
            &&& after == (InMemoryRegistrar {
                uploads: after.uploads,
                completed: after.completed,
                complete_calls: after.complete_calls,
                ..before
            })
            &&& after.complete_calls == count::capped((before.complete_calls + 1) as nat)
            &&& match (there, stored) {
                (false, Err(CompleteRefusal::BadParts(reason))) => {
                    &&& after.uploads == before.uploads
                    &&& after.completed == before.completed
                    &&& answer == Err::<UploadCompleteResponse, RegistrarError>(
                        RegistrarError::Protocol(reason),
                    )
                },
                _ => {
                    &&& after.uploads@ == before.uploads@.remove(req.upload_id@)
                    &&& forall|k: Seq<char>| #[trigger]
                        after.completed.has(k) <==> before.completed.has(k) || k == req.key@
                    &&& if there {
                        answer matches Err(RegistrarError::KeyExists { key }) && key == req.key
                    } else {
                        answer matches Ok(resp) && stored matches Ok(size) && resp.size == size
                    }
                },
            }
        }
    }

    /// Carry an `upload.complete` out, where the store, if it is asked, answers `stored`.
    pub fn complete_answered(
        &mut self,
        req: &UploadCompleteRequest,
        stored: Result<Option<u64>, CompleteRefusal>,
    ) -> (r: Result<UploadCompleteResponse, RegistrarError>)
        requires
            old(self).wf(),
        ensures
            final(self).wf(),
            Self::completed_as(*old(self), *req, stored, r, *final(self)),
    {
        match self.check_complete(req) {
            Ok(()) => {},
            Err(e) => {
                return Err(e);
            },
        }
        self.complete_calls = self.complete_calls.saturating_add(1);
        if self.completed.contains(&req.key) {
            let gone: Option<PendingUpload> = self.uploads.remove(&req.upload_id);
            return Err(RegistrarError::KeyExists { key: req.key.clone() });
        }
        match stored {
            Ok(size) => {
                let added: bool = self.completed.insert(req.key.clone());
                let gone: Option<PendingUpload> = self.uploads.remove(&req.upload_id);
                Ok(UploadCompleteResponse { size })
            },
            Err(CompleteRefusal::Exists) => {
                let added: bool = self.completed.insert(req.key.clone());
                let gone: Option<PendingUpload> = self.uploads.remove(&req.upload_id);
                Err(RegistrarError::KeyExists { key: req.key.clone() })
            },
            Err(CompleteRefusal::BadParts(reason)) => Err(RegistrarError::Protocol(reason)),
        }
    }

    /// Carry an `upload.complete` out, with `completer` for the store.
    pub fn complete_with<C: MultipartCompleter>(
        &mut self,
        req: &UploadCompleteRequest,
        completer: &C,
    ) -> (r: Result<UploadCompleteResponse, RegistrarError>)
        requires
            old(self).wf(),
        ensures
            final(self).wf(),
            exists|stored: Result<Option<u64>, CompleteRefusal>|
                {
                    &&& #[trigger] Self::completed_as(*old(self), *req, stored, r, *final(self))
                    &&& old(self).takes_complete(*req) && !old(self).completed.has(req.key@)
                        ==> completer.completes(req.key@, req.upload_id@, req.parts, stored)
                },
    {
        let stored: Result<Option<u64>, CompleteRefusal> = if self.asks_store(req) {
            completer.complete(req.key.as_str(), req.upload_id.as_str(), &req.parts)
        } else {
            Ok(None)
        };
        self.complete_answered(req, stored)
    }

    /// What the bucket reports.
    pub open spec fn bucket(&self) -> Map<Seq<char>, u64> {
        match self.quota {
            Some(q) => q.stored@,
            None => Map::empty(),
        }
    }

    /// The keys that a register names and that have to be priced from the bucket's report.
    pub open spec fn unpriced(&self, req: RegisterRequest) -> Seq<(Seq<char>, u64)> {
        unsized_keys(
            named_keys(req.manifest.sections, req.manifest_key@),
            self.priced@,
            self.bucket(),
        )
    }

    /// The keys that a register names and that have to be priced from the bucket's report.
    fn find_unpriced(&self, req: &RegisterRequest) -> (r: Vec<(String, u64)>)
        requires
            self.wf(),
        ensures
            sized_views(r@) == self.unpriced(*req),
    {
        let keys: Vec<String> = manifest_keys(req);
        let ghost kv = order::views(keys@);
        let ghost bucket = self.bucket();
        let mut out: Vec<(String, u64)> = Vec::new();
        let mut i: usize = 0;
        proof {
            assert(kv.take(0) =~= Seq::empty());
            assert(sized_views(out@) =~= unsized_keys(kv.take(0), self.priced@, bucket));
        }
        while i < keys.len()
            invariant
                0 <= i <= keys@.len(),
                self.wf(),
                kv == order::views(keys@),
                bucket == self.bucket(),
                sized_views(out@) == unsized_keys(kv.take(i as int), self.priced@, bucket),
            decreases keys@.len() - i,
        {
            let k: &String = &keys[i];
            let ghost before = sized_views(out@);
            proof {
                let t = kv.take(i + 1);
                assert(t.drop_last() =~= kv.take(i as int));
                assert(t.last() == k@);
            }
            if !self.priced.contains(k) {
                if let Some(quota) = &self.quota {
                    if let Some(bytes) = quota.stored.get(k) {
                        out.push((k.clone(), *bytes));
                        assert(sized_views(out@) =~= before.push((k@, *bytes)));
                    }
                }
            }
            i = i + 1;
        }
        assert(kv.take(kv.len() as int) =~= kv);
        out
    }

    /// Whether a register finds the chain where it says it is.
    pub open spec fn is_next(&self, req: RegisterRequest) -> bool {
        &&& req.n == self.captures@.len()
        &&& text::opt_view(req.parent) == if self.captures@.len() > 0 {
            Some(self.captures@.last().capture_id@)
        } else {
            None
        }
    }

    /// Whether a register was carried out before: the chain is already at its position, with its
    /// id.
    pub open spec fn is_lost_ack(&self, req: RegisterRequest) -> bool {
        &&& self.captures@.len() > 0
        &&& self.captures@.last().n == req.n
        &&& self.captures@.last().capture_id@ == req.capture_id@
    }
}

/// Whether a part list is complete.
fn check_parts(parts: &Vec<CompletedPart>, expected: u32) -> (r: bool)
    ensures
        r == completes_parts(parts@, expected),
{
    if parts.len() as u64 != expected as u64 {
        return false;
    }
    let mut i: usize = 0;
    while i < parts.len()
        invariant
            0 <= i <= parts@.len(),
            parts@.len() == expected,
            forall|j: int|
                0 <= j < i ==> (#[trigger] parts@[j]).part_number == j + 1
                    && parts@[j].etag@.len() > 0,
        decreases parts@.len() - i,
    {
        if parts[i].part_number as u64 != i as u64 + 1 || parts[i].etag.as_str().unicode_len() == 0 {
            return false;
        }
        i = i + 1;
    }
    true
}

/// A part list in a message.
fn write_numbers(parts: &Vec<CompletedPart>) -> (r: String)
    ensures
        r@ == numbers_text(parts@),
{
    let mut out: String = String::new();
    let mut i: usize = 0;
    assert(parts@.take(0) =~= Seq::empty());
    while i < parts.len()
        invariant
            0 <= i <= parts@.len(),
            out@ == numbers_text(parts@.take(i as int)),
        decreases parts@.len() - i,
    {
        let ghost before = out@;
        if i > 0 {
            out.append(", ");
        }
        out.append(text::dec(parts[i].part_number as u64).as_str());
        proof {
            let t = parts@.take(i + 1);
            assert(t.drop_last() =~= parts@.take(i as int));
            assert(t.last() == parts@[i as int]);
            if i == 0 {
                assert(out@ =~= text::decimal(parts@[0].part_number as nat));
            }
        }
        i = i + 1;
    }
    assert(parts@.take(parts@.len() as int) =~= parts@);
    out
}

/// What a plan hands out of a head: the head as it is, or, where its bulk section was captured for
/// another platform than the one named, with that section pending.
pub open spec fn is_planned_head(head: HeadInfo, platform: Option<String>, planned: HeadInfo) -> bool {
    let s = head.manifest.sections;
    let elsewhere = platform is Some && s.bulk is Ready && s.bulk->Ready_0.platform@
        != platform->0@;
    if elsewhere {
        &&& planned.n == head.n
        &&& planned.capture_id == head.capture_id
        &&& planned.manifest_key == head.manifest_key
        &&& planned.manifest.sections.bulk == BulkState::Pending(PendingTag::Pending)
        &&& (Manifest {
            sections: Sections { bulk: planned.manifest.sections.bulk, ..head.manifest.sections },
            ..head.manifest
        }).copied(&planned.manifest)
    } else {
        head.copied(&planned)
    }
}

impl Registrar for InMemoryRegistrar {
    open spec fn inv(&self) -> bool {
        self.wf()
    }

    /// An epoch that is not live is fenced, and a lost lease mints nothing. Otherwise the batch is
    /// priced first; a batch past the budget is refused whole. Then every key under the caller's
    /// prefix is minted for, one after another.
    open spec fn mints(
        before: Self,
        req: UploadUrlsRequest,
        answer: Result<UploadUrlsResponse, RegistrarError>,
        after: Self,
    ) -> bool {
        let prefix = own_prefix(req.worktree_id@, req.epoch as nat);
        let list = sized_keys(req.keys@, prefix, req.sizes@);
        let new = fresh(list, before.priced@);
        if req.epoch != before.live_epoch {
            &&& after == before
            &&& answer matches Err(e)
            &&& is_fence(e, req.epoch, before.live_epoch)
        } else if !before.lease_alive {
            &&& after == before
            &&& answer matches Err(RegistrarError::LeaseLost)
        } else if before.over_budget(list) {
            &&& after == (InMemoryRegistrar {
                url_calls: count::capped((before.url_calls + 1) as nat) as u64,
                declared: after.declared,
                ..before
            })
            &&& after.declared@ == before.declared@.union_prefer_right(req.sizes@)
            &&& answer matches Err(e)
            &&& is_quota_refusal(e, before.quota->0.limit, before.used(), before.requested(list))
        } else {
            let m = (Minting {
                created: before.created,
                uploads: pending_views(before.uploads@),
                urls: Map::empty(),
                multipart: Map::empty(),
            }).with_keys(before.multipart, before.url_base, req.keys@, prefix, req.sizes@);
            &&& after == (InMemoryRegistrar {
                url_calls: count::capped((before.url_calls + 1) as nat) as u64,
                declared: after.declared,
                priced: after.priced,
                created: m.created,
                uploads: after.uploads,
                ..before
            })
            &&& after.declared@ == before.declared@.union_prefer_right(req.sizes@)
            &&& after.priced@ == with_all(before.priced@, new)
            &&& count::total(after.priced.values@) <= count::total(before.priced.values@)
                + count::total(amounts(new))
            &&& pending_views(after.uploads@) == m.uploads
            &&& answer matches Ok(resp)
            &&& text::texts(resp.urls@) == m.urls
            &&& multipart_views(resp.multipart@) == m.multipart
        }
    }

    /// The store completes what it is asked to complete, and reports no size.
    open spec fn completes_with(
        before: Self,
        req: UploadCompleteRequest,
        answer: Result<UploadCompleteResponse, RegistrarError>,
        after: Self,
    ) -> bool {
        Self::completed_as(before, req, Ok(None), answer, after)
    }

    /// An epoch that is not live is fenced. Keys that were never sized are priced; past the budget
    /// the capture is refused. A capture that is the head already is acknowledged again, one that
    /// does not follow the head is refused, and any other becomes the head.
    open spec fn registers(
        before: Self,
        req: RegisterRequest,
        answer: Result<RegisterResponse, RegistrarError>,
        after: Self,
    ) -> bool {
        let list = before.unpriced(req);
        let new = fresh(list, before.priced@);
        if req.epoch != before.live_epoch {
            &&& after == before
            &&& answer matches Err(e)
            &&& is_fence(e, req.epoch, before.live_epoch)
        } else if before.over_budget(list) {
            &&& after == before
            &&& answer matches Err(e)
            &&& is_quota_refusal(e, before.quota->0.limit, before.used(), before.requested(list))
        } else {
            &&& after == (InMemoryRegistrar {
                priced: after.priced,
                captures: after.captures,
                ..before
            })
            &&& after.priced@ == with_all(before.priced@, new)
            &&& count::total(after.priced.values@) <= count::total(before.priced.values@)
                + count::total(amounts(new))
            &&& if before.is_lost_ack(req) {
                &&& after.captures == before.captures
                &&& answer matches Ok(resp)
                &&& resp.head_n == req.n
                &&& resp.head_capture_id@ == req.capture_id@
            } else if !before.is_next(req) {
                &&& after.captures == before.captures
                &&& answer matches Err(RegistrarError::WrongParent { head_n, head_capture_id })
                &&& if before.captures@.len() > 0 {
                    head_n == before.captures@.last().n && head_capture_id
                        == before.captures@.last().capture_id
                } else {
                    head_n == 0 && head_capture_id@.len() == 0
                }
            } else {
                &&& after.captures@.len() == before.captures@.len() + 1
                &&& after.captures@.drop_last() == before.captures@
                &&& after.captures@.last().n == req.n
                &&& after.captures@.last().capture_id == req.capture_id
                &&& after.captures@.last().manifest_key == req.manifest_key
                &&& req.manifest.copied(&after.captures@.last().manifest)
                &&& answer matches Ok(resp)
                &&& resp.head_n == req.n
                &&& resp.head_capture_id == req.capture_id
            }
        }
    }

    fn plan_get(&self, req: &PlanGetRequest) -> (r: Result<PlanGetResponse, RegistrarError>)
        ensures
            ({
                let scoped = req.worktree_id is Some && req.worktree_id->0@ != self.worktree@;
                if req.epoch != 0 && req.epoch != self.live_epoch {
                    r matches Err(e) && is_fence(e, req.epoch, self.live_epoch)
                } else if scoped {
                    r matches Err(RegistrarError::Protocol(why)) && why@
                        == "token is scoped to another worktree"@
                } else {
                    &&& r matches Ok(plan)
                    &&& plan.worktree_id == self.worktree
                    &&& plan.epoch == self.live_epoch
                    &&& plan.get_urls.wf()
                    &&& match plan.head {
                        None => self.captures@.len() == 0 && plan.get_urls.keys@.len() == 0,
                        Some(h) => {
                            &&& self.captures@.len() > 0
                            &&& is_planned_head(self.captures@.last(), req.platform, h)
                            &&& h.manifest.wf()
                            &&& forall|k: Seq<char>| #[trigger]
                                plan.get_urls@.dom().contains(k) <==> self.url_base is Some && (
                                section_packs(h.manifest.sections).contains(k) || k
                                    == h.manifest_key@)
                            &&& forall|k: Seq<char>| #[trigger]
                                plan.get_urls@.dom().contains(k) ==> plan.get_urls@[k]@
                                    == url_text(self.url_base, k)
                        },
                    }
                }
            }),
    {
        if req.epoch != 0 {
            match self.check_epoch(req.epoch) {
                Ok(()) => {},
                Err(e) => {
                    return Err(e);
                },
            }
        }
        if let Some(w) = &req.worktree_id {
            if !text::str_eq(w.as_str(), self.worktree.as_str()) {
                return Err(
                    RegistrarError::Protocol("token is scoped to another worktree".to_owned()),
                );
            }
        }
        let head: Option<HeadInfo> = match self.head() {
            None => None,
            Some(h) => {
                let mut planned: HeadInfo = h.copy();
                if let Some(platform) = &req.platform {
                    let elsewhere: bool = match h.manifest.sections.bulk.section() {
                        Some(b) => !text::str_eq(b.platform.as_str(), platform.as_str()),
                        None => false,
                    };
                    if elsewhere {
                        planned.manifest.sections.bulk = BulkState::pending();
                    }
                }
                Some(planned)
            },
        };
        let mut get_urls: SortedMap<String, String> = SortedMap::new();
        if let Some(h) = &head {
            if self.url_base.is_some() {
                let s: &Sections = &h.manifest.sections;
                let mut keys: Vec<String> = index_all(&s.git.packs);
                let ghost k0 = order::views(keys@);
                let mut packs: Vec<String> = text::copy_all(&s.workspace.packs);
                keys.append(&mut packs);
                let ghost k1 = k0 + order::views(s.workspace.packs@);
                assert(order::views(keys@) =~= k1);
                match &s.bulk {
                    BulkState::Ready(b) => {
                        let mut more: Vec<String> = text::copy_all(&b.packs);
                        keys.append(&mut more);
                        assert(order::views(keys@) =~= k1 + order::views(b.packs@));
                    },
                    BulkState::Pending(_) => {
                        assert(order::views(keys@) =~= k1 + Seq::<Seq<char>>::empty());
                    },
                }
                let ghost packs_named = order::views(keys@);
                keys.push(h.manifest_key.clone());
                let ghost all = order::views(keys@);
                assert(all =~= packs_named.push(h.manifest_key@));
                let mut i: usize = 0;
                while i < keys.len()
                    invariant
                        0 <= i <= keys@.len(),
                        all == order::views(keys@),
                        get_urls.wf(),
                        forall|k: Seq<char>| #[trigger]
                            get_urls@.dom().contains(k) <==> all.take(i as int).contains(k),
                        forall|k: Seq<char>| #[trigger]
                            get_urls@.dom().contains(k) ==> get_urls@[k]@ == url_text(
                                self.url_base,
                                k,
                            ),
                    decreases keys@.len() - i,
                {
                    let k: String = keys[i].clone();
                    let ghost before = get_urls@;
                    let url: String = self.url(k.as_str());
                    let earlier: Option<String> = get_urls.insert(k, url);
                    proof {
                        let t = all.take(i + 1);
                        let u = all.take(i as int);
                        assert(t =~= u.push(k@));
                        assert forall|x: Seq<char>| #[trigger]
                            get_urls@.dom().contains(x) <==> t.contains(x) by {
                            assert(t[i as int] == k@);
                            if u.contains(x) {
                                let j = u.index_of(x);
                                assert(t[j] == x);
                            }
                            if t.contains(x) && x != k@ {
                                let j = t.index_of(x);
                                assert(u[j] == x);
                            }
                        }
                    }
                    i = i + 1;
                }
                proof {
                    assert(all.take(all.len() as int) =~= all);
                    assert forall|k: Seq<char>| #[trigger]
                        get_urls@.dom().contains(k) <==> section_packs(
                            h.manifest.sections,
                        ).contains(k) || k == h.manifest_key@ by {
                        assert(packs_named =~= section_packs(h.manifest.sections));
                        if packs_named.contains(k) {
                            assert(all[packs_named.index_of(k)] == k);
                        }
                        if k == h.manifest_key@ {
                            assert(all[all.len() - 1] == k);
                        }
                        if all.contains(k) && k != h.manifest_key@ {
                            assert(packs_named[all.index_of(k)] == k);
                        }
                    }
                }
            }
        }
        Ok(
            PlanGetResponse {
                worktree_id: self.worktree.clone(),
                epoch: self.live_epoch,
                head,
                get_urls,
            },
        )
    }

    fn upload_urls(&mut self, req: &UploadUrlsRequest) -> (r: Result<
        UploadUrlsResponse,
        RegistrarError,
    >) {
        match self.check_epoch(req.epoch) {
            Ok(()) => {},
            Err(e) => {
                return Err(e);
            },
        }
        if !self.lease_alive {
            return Err(RegistrarError::LeaseLost);
        }
        self.url_calls = self.url_calls.saturating_add(1);
        self.declared.extend(order::copy_sizes(&req.sizes));
        let mut prefix: String = "captures/".to_owned();
        prefix.append(req.worktree_id.as_str());
        prefix.append("/");
        prefix.append(text::dec(req.epoch).as_str());
        prefix.append("/");
        assert(prefix@ == own_prefix(req.worktree_id@, req.epoch as nat));
        let list: Vec<(String, u64)> = find_sized(&req.keys, prefix.as_str(), &req.sizes);
        match self.price(&list) {
            Ok(()) => {},
            Err(e) => {
                return Err(e);
            },
        }
        let mut urls: SortedMap<String, String> = SortedMap::new();
        let mut multipart: SortedMap<String, MultipartUrls> = SortedMap::new();
        let ghost start = Minting {
            created: self.created,
            uploads: pending_views(self.uploads@),
            urls: Map::empty(),
            multipart: Map::empty(),
        };
        let ghost policy = self.multipart;
        let ghost base = self.url_base;
        let ghost here = *self;
        let mut i: usize = 0;
        proof {
            assert(text::texts(urls@) =~= Map::empty());
            assert(multipart_views(multipart@) =~= Map::empty());
            assert(req.keys@.take(0) =~= Seq::empty());
        }
        while i < req.keys.len()
            invariant
                0 <= i <= req.keys@.len(),
                req.wf(),
                self.wf(),
                urls.wf(),
                multipart.wf(),
                policy == self.multipart,
                base == self.url_base,
                *self == (InMemoryRegistrar { created: self.created, uploads: self.uploads, ..here }),
                self.minting(urls, multipart) == start.with_keys(
                    policy,
                    base,
                    req.keys@.take(i as int),
                    prefix@,
                    req.sizes@,
                ),
            decreases req.keys@.len() - i,
        {
            let k: &String = &req.keys[i];
            proof {
                let t = req.keys@.take(i + 1);
                assert(t.drop_last() =~= req.keys@.take(i as int));
                assert(t.last() == *k);
            }
            if text::starts_with(k.as_str(), prefix.as_str()) {
                let size: Option<u64> = match req.sizes.get(k) {
                    Some(b) => Some(*b),
                    None => None,
                };
                self.mint_key(k, size, &mut urls, &mut multipart);
            }
            i = i + 1;
        }
        assert(req.keys@.take(req.keys@.len() as int) =~= req.keys@);
        Ok(UploadUrlsResponse { urls, multipart })
    }

    fn upload_complete(&mut self, req: &UploadCompleteRequest) -> (r: Result<
        UploadCompleteResponse,
        RegistrarError,
    >) {
        self.complete_answered(req, Ok(None))
    }

    fn capture_register(&mut self, req: &RegisterRequest) -> (r: Result<
        RegisterResponse,
        RegistrarError,
    >) {
        match self.check_epoch(req.epoch) {
            Ok(()) => {},
            Err(e) => {
                return Err(e);
            },
        }
        let list: Vec<(String, u64)> = self.find_unpriced(req);
        match self.price(&list) {
            Ok(()) => {},
            Err(e) => {
                return Err(e);
            },
        }
        let ghost before = self.captures@;
        let len: usize = self.captures.len();
        if len > 0 {
            let h: &HeadInfo = &self.captures[len - 1];
            if h.n == req.n && text::str_eq(h.capture_id.as_str(), req.capture_id.as_str()) {
                return Ok(RegisterResponse { head_n: h.n, head_capture_id: h.capture_id.clone() });
            }
            let follows: bool = match &req.parent {
                Some(p) => text::str_eq(p.as_str(), h.capture_id.as_str()),
                None => false,
            };
            if !follows || req.n != len as u64 {
                return Err(
                    RegistrarError::WrongParent {
                        head_n: h.n,
                        head_capture_id: h.capture_id.clone(),
                    },
                );
            }
        } else if req.parent.is_some() || req.n != 0 {
            return Err(RegistrarError::WrongParent { head_n: 0, head_capture_id: String::new() });
        }
        self.captures.push(
            HeadInfo {
                n: req.n,
                capture_id: req.capture_id.clone(),
                manifest_key: req.manifest_key.clone(),
                manifest: req.manifest.copy(),
            },
        );
        assert(self.captures@.drop_last() =~= before);
        Ok(RegisterResponse { head_n: req.n, head_capture_id: req.capture_id.clone() })
    }

    fn lease_heartbeat(&self, req: &HeartbeatRequest) -> (r: Result<
        HeartbeatResponse,
        RegistrarError,
    >)
        ensures
            match r {
                Ok(resp) => req.epoch == self.live_epoch && self.lease_alive && resp.expires_in_secs
                    == 30,
                Err(RegistrarError::LeaseLost) => req.epoch == self.live_epoch
                    && !self.lease_alive,
                Err(e) => req.epoch != self.live_epoch && is_fence(e, req.epoch, self.live_epoch),
            },
    {
        match self.check_epoch(req.epoch) {
            Ok(()) => {},
            Err(e) => {
                return Err(e);
            },
        }
        if !self.lease_alive {
            return Err(RegistrarError::LeaseLost);
        }
        Ok(HeartbeatResponse { expires_in_secs: 30 })
    }

    fn change_summary(&mut self, req: &ChangeSummaryRequest) -> (r: Result<(), RegistrarError>)
        ensures
            *final(self) == (InMemoryRegistrar { accepted: final(self).accepted, ..*old(self) }),
            ({
                let on_head = old(self).captures@.len() > 0
                    && old(self).captures@.last().capture_id@ == req.capture_id@;
                if req.epoch != old(self).live_epoch {
                    &&& r matches Err(e)
                    &&& is_fence(e, req.epoch, old(self).live_epoch)
                    &&& final(self).accepted == old(self).accepted
                } else if !on_head {
                    &&& r matches Err(RegistrarError::SummaryRefused(why))
                    &&& why@ == "capture is not the chain head"@
                    &&& final(self).accepted == old(self).accepted
                } else {
                    r is Ok && final(self).accepted@ == old(self).accepted@.push(*req)
                }
            }),
    {
        match self.check_epoch(req.epoch) {
            Ok(()) => {},
            Err(e) => {
                return Err(e);
            },
        }
        let on_head: bool = match self.head() {
            Some(h) => text::str_eq(h.capture_id.as_str(), req.capture_id.as_str()),
            None => false,
        };
        if on_head {
            self.accepted.push(req.copy());
            Ok(())
        } else {
            Err(RegistrarError::SummaryRefused("capture is not the chain head".to_owned()))
        }
    }
}

/// The keys under `prefix` that come with a size, in order.
fn find_sized(keys: &Vec<String>, prefix: &str, sizes: &SortedMap<String, u64>) -> (r: Vec<
    (String, u64),
>)
    requires
        sizes.wf(),
    ensures
        sized_views(r@) == sized_keys(keys@, prefix@, sizes@),
{
    let mut out: Vec<(String, u64)> = Vec::new();
    let mut i: usize = 0;
    proof {
        assert(keys@.take(0) =~= Seq::empty());
        assert(sized_views(out@) =~= sized_keys(keys@.take(0), prefix@, sizes@));
    }
    while i < keys.len()
        invariant
            0 <= i <= keys@.len(),
            sizes.wf(),
            sized_views(out@) == sized_keys(keys@.take(i as int), prefix@, sizes@),
        decreases keys@.len() - i,
    {
        let k: &String = &keys[i];
        let ghost before = sized_views(out@);
        proof {
            let t = keys@.take(i + 1);
            assert(t.drop_last() =~= keys@.take(i as int));
            assert(t.last() == *k);
        }
        if text::starts_with(k.as_str(), prefix) {
            if let Some(bytes) = sizes.get(k) {
                out.push((k.clone(), *bytes));
                assert(sized_views(out@) =~= before.push((k@, *bytes)));
            }
        }
        i = i + 1;
    }
    assert(keys@.take(keys@.len() as int) =~= keys@);
    out
}

/// The chain only grows: what was registered stays, at its position, and at most one capture is
/// added.
pub proof fn law_the_chain_only_grows(
    before: InMemoryRegistrar,
    req: RegisterRequest,
    answer: Result<RegisterResponse, RegistrarError>,
    after: InMemoryRegistrar,
    i: int,
)
    requires
        InMemoryRegistrar::registers(before, req, answer, after),
        0 <= i < before.captures@.len(),
    ensures
        before.captures@.len() <= after.captures@.len() <= before.captures@.len() + 1,
        after.captures@[i] == before.captures@[i],
        answer is Err ==> after.captures == before.captures,
{
    if after.captures@.len() == before.captures@.len() + 1 {
        assert(after.captures@.drop_last()[i] == after.captures@[i]);
    }
}

/// A capture becomes the head only as the child of the head, one position further on.
pub proof fn law_a_new_head_follows_the_old_one(
    before: InMemoryRegistrar,
    req: RegisterRequest,
    answer: Result<RegisterResponse, RegistrarError>,
    after: InMemoryRegistrar,
)
    requires
        InMemoryRegistrar::registers(before, req, answer, after),
        after.captures@.len() > before.captures@.len(),
    ensures
        answer is Ok,
        req.epoch == before.live_epoch,
        after.captures@.last().n == before.captures@.len(),
        text::opt_view(req.parent) == if before.captures@.len() > 0 {
            Some(before.captures@.last().capture_id@)
        } else {
            None
        },
{
}

/// A call under an epoch that is not live changes nothing.
pub proof fn law_a_stale_epoch_changes_nothing(
    before: InMemoryRegistrar,
    register: RegisterRequest,
    registered: Result<RegisterResponse, RegistrarError>,
    urls: UploadUrlsRequest,
    minted: Result<UploadUrlsResponse, RegistrarError>,
    complete: UploadCompleteRequest,
    completed: Result<UploadCompleteResponse, RegistrarError>,
    after: InMemoryRegistrar,
)
    ensures
        InMemoryRegistrar::registers(before, register, registered, after) && register.epoch
            != before.live_epoch ==> after == before && registered is Err,
        InMemoryRegistrar::mints(before, urls, minted, after) && urls.epoch != before.live_epoch
            ==> after == before && minted is Err,
        InMemoryRegistrar::completes_with(before, complete, completed, after) && complete.epoch
            != before.live_epoch ==> after == before && completed is Err,
{
}

proof fn lemma_fresh_of_unsized(
    keys: Seq<Seq<char>>,
    priced: Map<Seq<char>, u64>,
    stored: Map<Seq<char>, u64>,
)
    ensures
        fresh(unsized_keys(keys, priced, stored), priced) == unsized_keys(keys, priced, stored),
    decreases keys.len(),
{
    if keys.len() > 0 {
        lemma_fresh_of_unsized(keys.drop_last(), priced, stored);
        let front = unsized_keys(keys.drop_last(), priced, stored);
        let all = unsized_keys(keys, priced, stored);
        if all.len() > front.len() {
            assert(all.drop_last() =~= front);
        }
    } else {
        assert(unsized_keys(keys, priced, stored) =~= Seq::empty());
    }
}

proof fn lemma_with_all_keeps(m: Map<Seq<char>, u64>, list: Seq<(Seq<char>, u64)>, k: Seq<char>)
    requires
        m.dom().contains(k) || exists|i: int| 0 <= i < list.len() && (#[trigger] list[i]).0 == k,
    ensures
        with_all(m, list).dom().contains(k),
    decreases list.len(),
{
    if list.len() > 0 && list.last().0 != k {
        if !m.dom().contains(k) {
            let i = choose|i: int| 0 <= i < list.len() && (#[trigger] list[i]).0 == k;
            assert(list.drop_last()[i].0 == k);
        }
        lemma_with_all_keeps(m, list.drop_last(), k);
    }
}

proof fn lemma_unsized_holds(
    keys: Seq<Seq<char>>,
    priced: Map<Seq<char>, u64>,
    stored: Map<Seq<char>, u64>,
    j: int,
)
    requires
        0 <= j < keys.len(),
        !priced.dom().contains(keys[j]),
        stored.dom().contains(keys[j]),
    ensures
        exists|i: int|
            0 <= i < unsized_keys(keys, priced, stored).len() && (#[trigger] unsized_keys(
                keys,
                priced,
                stored,
            )[i]).0 == keys[j],
    decreases keys.len(),
{
    let all = unsized_keys(keys, priced, stored);
    let front = unsized_keys(keys.drop_last(), priced, stored);
    if j == keys.len() - 1 {
        assert(all[all.len() - 1].0 == keys[j]);
    } else {
        lemma_unsized_holds(keys.drop_last(), priced, stored, j);
        let i = choose|i: int| 0 <= i < front.len() && (#[trigger] front[i]).0 == keys[j];
        assert(all[i] == front[i]);
    }
}

proof fn lemma_nothing_unsized(
    keys: Seq<Seq<char>>,
    priced: Map<Seq<char>, u64>,
    stored: Map<Seq<char>, u64>,
)
    requires
        forall|j: int|
            0 <= j < keys.len() ==> priced.dom().contains(#[trigger] keys[j])
                || !stored.dom().contains(keys[j]),
    ensures
        unsized_keys(keys, priced, stored).len() == 0,
    decreases keys.len(),
{
    if keys.len() > 0 {
        assert forall|j: int| 0 <= j < keys.drop_last().len() implies priced.dom().contains(
            #[trigger] keys.drop_last()[j],
        ) || !stored.dom().contains(keys.drop_last()[j]) by {
            assert(keys[j] == keys.drop_last()[j]);
        }
        lemma_nothing_unsized(keys.drop_last(), priced, stored);
        assert(keys[keys.len() - 1] == keys.last());
    }
}

/// A register that was carried out and is sent again, because its answer was lost, is acknowledged
/// and adds nothing.
pub proof fn law_a_lost_ack_is_not_a_conflict(
    first: InMemoryRegistrar,
    req: RegisterRequest,
    answer: Result<RegisterResponse, RegistrarError>,
    second: InMemoryRegistrar,
    again: Result<RegisterResponse, RegistrarError>,
    third: InMemoryRegistrar,
)
    requires
        first.wf(),
        InMemoryRegistrar::registers(first, req, answer, second),
        answer is Ok,
        InMemoryRegistrar::registers(second, req, again, third),
    ensures
        again matches Ok(resp) && resp.head_n == req.n && resp.head_capture_id@ == req.capture_id@,
        third.captures == second.captures,
        third.priced@ == second.priced@,
{
    let named = named_keys(req.manifest.sections, req.manifest_key@);
    let stored = first.bucket();
    let list = first.unpriced(req);
    let new = fresh(list, first.priced@);
    lemma_fresh_of_unsized(named, first.priced@, stored);
    assert forall|j: int| 0 <= j < named.len() implies second.priced@.dom().contains(
        #[trigger] named[j],
    ) || !stored.dom().contains(named[j]) by {
        if stored.dom().contains(named[j]) {
            if !first.priced@.dom().contains(named[j]) {
                lemma_unsized_holds(named, first.priced@, stored, j);
            }
            lemma_with_all_keeps(first.priced@, list, named[j]);
        }
    }
    assert(second.bucket() == stored);
    lemma_nothing_unsized(named, second.priced@, stored);
    let list2 = second.unpriced(req);
    assert(list2 =~= Seq::empty());
    assert(fresh(list2, second.priced@) =~= Seq::empty());
    assert(amounts(fresh(list2, second.priced@)) =~= Seq::empty());
    assert(!second.over_budget(list2));
    assert(second.is_lost_ack(req));
}

/// What is accepted stays within the budget: after a batch or a capture was taken, the bytes
/// priced are within the limit.
pub proof fn law_accepted_bytes_stay_within_the_budget(
    before: InMemoryRegistrar,
    urls: UploadUrlsRequest,
    minted: Result<UploadUrlsResponse, RegistrarError>,
    register: RegisterRequest,
    registered: Result<RegisterResponse, RegistrarError>,
    after: InMemoryRegistrar,
)
    requires
        before.quota is Some,
        before.quota->0.limit < u64::MAX,
        (InMemoryRegistrar::mints(before, urls, minted, after) && minted is Ok) || (
        InMemoryRegistrar::registers(before, register, registered, after) && registered is Ok),
    ensures
        count::total(after.priced.values@) <= before.quota->0.limit,
{
}

/// A batch that is refused for the budget leaves no upload, no URL and no price behind.
pub proof fn law_a_refused_batch_mints_nothing(
    before: InMemoryRegistrar,
    req: UploadUrlsRequest,
    answer: Result<UploadUrlsResponse, RegistrarError>,
    after: InMemoryRegistrar,
)
    requires
        InMemoryRegistrar::mints(before, req, answer, after),
        answer is Err,
    ensures
        after.uploads == before.uploads,
        after.created == before.created,
        after.priced == before.priced,
        after.captures == before.captures,
{
}

/// The body of a refusal.
pub struct ConflictBody {
    /// Reason code.
    pub reason: String,
    /// The live epoch.
    pub live_epoch: Option<u64>,
    /// Head position.
    pub head_n: Option<u64>,
    /// Head capture id.
    pub head_capture_id: Option<String>,
    /// Key.
    pub key: Option<String>,
    /// Byte budget.
    pub limit: Option<u64>,
    /// Bytes used.
    pub used: Option<u64>,
    /// Bytes requested.
    pub requested: Option<u64>,
}

impl ConflictBody {
    /// What stands for a body that cannot be read.
    pub fn empty() -> (r: Self)
        ensures
            r.reason@.len() == 0,
            r.live_epoch is None,
            r.head_n is None,
            r.head_capture_id is None,
            r.key is None,
            r.limit is None,
            r.used is None,
            r.requested is None,
    {
        ConflictBody {
            reason: String::new(),
            live_epoch: None,
            head_n: None,
            head_capture_id: None,
            key: None,
            limit: None,
            used: None,
            requested: None,
        }
    }

    /// Whether `e` is the quota refusal that this body tells of.
    pub open spec fn is_refusal(&self, e: RegistrarError) -> bool {
        e matches RegistrarError::QuotaRefused { reason, limit, used, requested } && limit
            == self.limit && used == self.used && requested == self.requested && reason@
            == if self.reason@.len() == 0 {
            "byte-quota"@
        } else {
            self.reason@
        }
    }

    /// The quota refusal that this body tells of.
    pub fn quota_refused(self) -> (r: RegistrarError)
        ensures
            self.is_refusal(r),
    {
        let reason: String = if self.reason.as_str().unicode_len() == 0 {
            "byte-quota".to_owned()
        } else {
            self.reason
        };
        RegistrarError::QuotaRefused {
            reason,
            limit: self.limit,
            used: self.used,
            requested: self.requested,
        }
    }
}

/// What an HTTP answer means: whether `e` is the error that `status` and `body` lead to for the
/// call `name` under `epoch`.
pub open spec fn http_error(
    name: Seq<char>,
    epoch: u64,
    status: u16,
    body: ConflictBody,
    e: RegistrarError,
) -> bool {
    if status == 409 {
        if body.live_epoch is Some && body.live_epoch->0 != epoch {
            is_fence(e, epoch, body.live_epoch->0)
        } else if body.reason@ == "stale-epoch"@ {
            is_fence(e, epoch, 0)
        } else if body.reason@ == "byte-quota"@ {
            body.is_refusal(e)
        } else if name == "change.summary"@ {
            e == RegistrarError::SummaryRefused(body.reason)
        } else if name == "upload.complete"@ {
            if body.reason@ == "exists"@ {
                e matches RegistrarError::KeyExists { key } && key@ == match body.key {
                    Some(k) => k@,
                    None => Seq::empty(),
                }
            } else {
                e matches RegistrarError::Protocol(why) && why@ == "upload.complete refused: "@
                    + body.reason@
            }
        } else {
            e matches RegistrarError::WrongParent { head_n, head_capture_id } && head_n
                == match body.head_n {
                Some(n) => n,
                None => 0,
            } && head_capture_id@ == match body.head_capture_id {
                Some(id) => id@,
                None => Seq::empty(),
            }
        }
    } else if status == 413 {
        body.is_refusal(e)
    } else if status == 404 && name == "lease.heartbeat"@ {
        e is LeaseLost
    } else if sink::is_passing_status(status) {
        e matches RegistrarError::Transport(why) && why@ == name + ": http "@ + text::decimal(
            status as nat,
        )
    } else {
        e matches RegistrarError::Protocol(why) && why@ == name + ": http "@ + text::decimal(
            status as nat,
        )
    }
}

/// Judge the answer to the call `name` under `epoch`: whether there is a response to read. `body`
/// is the body of a refusal, or an empty one where it cannot be read.
pub fn judge_answer(name: &str, epoch: u64, status: u16, body: ConflictBody) -> (r: Result<
    (),
    RegistrarError,
>)
    ensures
        match r {
            Ok(()) => 200 <= status <= 299,
            Err(e) => !(200 <= status <= 299) && http_error(name@, epoch, status, body, e),
        },
{
    if 200 <= status && status <= 299 {
        return Ok(());
    }
    if status == 409 {
        if let Some(live) = body.live_epoch {
            if live != epoch {
                return Err(RegistrarError::Fenced { epoch, live });
            }
        }
        if text::str_eq(body.reason.as_str(), "stale-epoch") {
            return Err(RegistrarError::Fenced { epoch, live: 0 });
        }
        if text::str_eq(body.reason.as_str(), "byte-quota") {
            return Err(body.quota_refused());
        }
        if text::str_eq(name, "change.summary") {
            return Err(RegistrarError::SummaryRefused(body.reason));
        }
        if text::str_eq(name, "upload.complete") {
            if text::str_eq(body.reason.as_str(), "exists") {
                let key: String = match body.key {
                    Some(k) => k,
                    None => String::new(),
                };
                return Err(RegistrarError::KeyExists { key });
            }
            return Err(
                RegistrarError::Protocol(
                    text::concat("upload.complete refused: ", body.reason.as_str()),
                ),
            );
        }
        let head_n: u64 = match body.head_n {
            Some(n) => n,
            None => 0,
        };
        let head_capture_id: String = match body.head_capture_id {
            Some(id) => id,
            None => String::new(),
        };
        return Err(RegistrarError::WrongParent { head_n, head_capture_id });
    }
    if status == 413 {
        return Err(body.quota_refused());
    }
    if status == 404 && text::str_eq(name, "lease.heartbeat") {
        return Err(RegistrarError::LeaseLost);
    }
    let mut why: String = name.to_owned();
    why.append(": http ");
    why.append(text::dec(status as u64).as_str());
    if status >= 500 || status == 429 || status == 408 {
        Err(RegistrarError::Transport(why))
    } else {
        Err(RegistrarError::Protocol(why))
    }
}

/// A [`UrlMinter`] over a registrar: PUT and part URLs come from `upload.urls` (a batch at a time,
/// one key on a cache miss), multipart completes go to `upload.complete`, GET URLs come from the
/// plan. A re-plan moves it to the new identity and the new plan's GET URLs.
pub struct RegistrarMinter<R> {
    /// The registrar asked.
    pub registrar: R,
    /// The worktree minted for.
    pub worktree: String,
    /// The epoch minted for.
    pub epoch: u64,
    /// PUT URLs minted and not used yet.
    pub put_cache: SortedMap<String, String>,
    /// GET URLs of the plan.
    pub get_urls: SortedMap<String, String>,
}

/// The sizes of a list of keys; the last one counts where a key comes twice.
pub open spec fn sizes_of(list: Seq<(Seq<char>, u64)>) -> Map<Seq<char>, u64> {
    with_all(Map::empty(), list)
}

/// The label of a batch of keys.
pub open spec fn label_text(list: Seq<(String, u64)>) -> Seq<char> {
    if list.len() == 0 {
        "no keys"@
    } else {
        text::decimal(list.len()) + " keys from "@ + list[0].0@
    }
}

/// The label of a batch of keys.
fn keys_label(list: &Vec<(String, u64)>) -> (r: String)
    ensures
        r@ == label_text(list@),
{
    if list.len() == 0 {
        return "no keys".to_owned();
    }
    let mut out: String = text::dec(list.len() as u64);
    out.append(" keys from ");
    out.append(list[0].0.as_str());
    out
}

/// What a registrar's error means to whom asked for the URL of `key`.
pub open spec fn is_mint_error(key: Seq<char>, error: RegistrarError, r: SinkError) -> bool {
    match error {
        RegistrarError::QuotaRefused { reason, limit, used, requested } => r
            == (SinkError::QuotaRefused { reason, limit, used, requested }),
        other => r matches SinkError::NoUrl { key: k, reason } && k@ == key && reason@
            == other.says(),
    }
}

/// A quota refusal stays itself on the way to the sink (terminal, with its numbers); anything else
/// is "no url for this key".
pub fn mint_error(key: &str, error: RegistrarError) -> (r: SinkError)
    ensures
        is_mint_error(key@, error, r),
{
    match error {
        RegistrarError::QuotaRefused { reason, limit, used, requested } => SinkError::QuotaRefused {
            reason,
            limit,
            used,
            requested,
        },
        other => SinkError::NoUrl { key: key.to_owned(), reason: other.message() },
    }
}

/// Whether `r` is what a complete call's answer means to the sink.
pub open spec fn is_completion(
    key: Seq<char>,
    answer: Result<UploadCompleteResponse, RegistrarError>,
    r: Result<Completed, SinkError>,
) -> bool {
    match answer {
        Ok(resp) => r == Ok::<Completed, SinkError>(
            Completed { outcome: PutOutcome::Stored, size: resp.size },
        ),
        Err(RegistrarError::KeyExists { .. }) => r == Ok::<Completed, SinkError>(
            Completed { outcome: PutOutcome::AlreadyPresent, size: None },
        ),
        Err(RegistrarError::Transport(why)) => r matches Err(
            SinkError::Transport { method, key: k, reason },
        ) && method@ == "COMPLETE"@ && k@ == key && reason == why,
        Err(e) => r matches Err(SinkError::Multipart { key: k, reason }) && k@ == key && reason@
            == e.says(),
    }
}

/// What a complete call's answer means to the sink.
pub fn completion(key: &str, answer: Result<UploadCompleteResponse, RegistrarError>) -> (r: Result<
    Completed,
    SinkError,
>)
    ensures
        is_completion(key@, answer, r),
{
    match answer {
        Ok(resp) => Ok(Completed { outcome: PutOutcome::Stored, size: resp.size }),
        Err(RegistrarError::KeyExists { .. }) => Ok(
            Completed { outcome: PutOutcome::AlreadyPresent, size: None },
        ),
        Err(RegistrarError::Transport(reason)) => Err(
            SinkError::Transport { method: "COMPLETE", key: key.to_owned(), reason },
        ),
        Err(e) => Err(SinkError::Multipart { key: key.to_owned(), reason: e.message() }),
    }
}

impl<R: Registrar> RegistrarMinter<R> {
    /// Whether the registrar is sound and the URLs are in order.
    pub open spec fn wf(&self) -> bool {
        &&& self.registrar.inv()
        &&& self.put_cache.wf()
        &&& self.get_urls.wf()
    }

    /// Mint for `worktree_id` at `epoch`, seeded with the plan's GET URLs.
    #[must_use]
    pub fn new(
        registrar: R,
        worktree_id: &str,
        epoch: u64,
        get_urls: SortedMap<String, String>,
    ) -> (r: Self)
        requires
            registrar.inv(),
            get_urls.wf(),
        ensures
            r.wf(),
            r.registrar == registrar,
            r.worktree@ == worktree_id@,
            r.epoch == epoch,
            r.put_cache@ == Map::<Seq<char>, String>::empty(),
            r.get_urls == get_urls,
    {
        RegistrarMinter {
            registrar,
            worktree: worktree_id.to_owned(),
            epoch,
            put_cache: SortedMap::new(),
            get_urls,
        }
    }

    /// The worktree and epoch URLs are minted for.
    #[must_use]
    pub fn identity(&self) -> (r: (String, u64))
        ensures
            r.0 == self.worktree,
            r.1 == self.epoch,
    {
        (self.worktree.clone(), self.epoch)
    }

    /// Mint for `worktree_id` at `epoch` from now on, with `get_urls` from the new plan; PUT URLs
    /// minted under the previous identity are forgotten.
    pub fn reset(&mut self, worktree_id: &str, epoch: u64, get_urls: SortedMap<String, String>)
        requires
            old(self).wf(),
            get_urls.wf(),
        ensures
            final(self).wf(),
            final(self).registrar == old(self).registrar,
            final(self).worktree@ == worktree_id@,
            final(self).epoch == epoch,
            final(self).put_cache@ == Map::<Seq<char>, String>::empty(),
            final(self).get_urls == get_urls,
    {
        self.worktree = worktree_id.to_owned();
        self.epoch = epoch;
        self.put_cache = SortedMap::new();
        self.get_urls = get_urls;
    }

    /// Whether `req` asks for the keys of `list`, each with its size, as this minter's identity.
    pub open spec fn asks_for(&self, list: Seq<(Seq<char>, u64)>, req: UploadUrlsRequest) -> bool {
        &&& req.wf()
        &&& req.worktree_id == self.worktree
        &&& req.epoch == self.epoch
        &&& order::views(req.keys@) == Seq::new(list.len(), |i: int| list[i].0)
        &&& req.sizes@ == sizes_of(list)
    }

    /// The request that mints URLs for a batch of keys, each with its size.
    pub fn put_request(&self, list: &Vec<(String, u64)>) -> (r: UploadUrlsRequest)
        ensures
            self.asks_for(sized_views(list@), r),
    {
        let ghost lv = sized_views(list@);
        let mut keys: Vec<String> = Vec::new();
        let mut sizes: SortedMap<String, u64> = SortedMap::new();
        let mut i: usize = 0;
        assert(lv.take(0) =~= Seq::empty());
        while i < list.len()
            invariant
                0 <= i <= list@.len(),
                lv == sized_views(list@),
                sizes.wf(),
                sizes@ == sizes_of(lv.take(i as int)),
                keys@.len() == i,
                forall|j: int| 0 <= j < i ==> (#[trigger] keys@[j])@ == lv[j].0,
            decreases list@.len() - i,
        {
            keys.push(list[i].0.clone());
            let earlier: Option<u64> = sizes.insert(list[i].0.clone(), list[i].1);
            proof {
                let t = lv.take(i + 1);
                assert(t.drop_last() =~= lv.take(i as int));
                assert(t.last() == lv[i as int]);
            }
            i = i + 1;
        }
        assert(lv.take(lv.len() as int) =~= lv);
        assert(order::views(keys@) =~= Seq::new(lv.len(), |i: int| lv[i].0));
        UploadUrlsRequest { worktree_id: self.worktree.clone(), epoch: self.epoch, keys, sizes }
    }

    /// Whether asking for `list` leads from `before` to `after` with the answer `r`: the registrar
    /// was asked once, for those keys, and the plain URLs it answered with are kept.
    pub open spec fn minted(
        before: Self,
        list: Seq<(Seq<char>, u64)>,
        answer: Result<UploadUrlsResponse, RegistrarError>,
        after: Self,
    ) -> bool {
        &&& after.worktree == before.worktree
        &&& after.epoch == before.epoch
        &&& after.get_urls == before.get_urls
        &&& exists|req: UploadUrlsRequest|
            before.asks_for(list, req) && #[trigger] R::mints(
                before.registrar,
                req,
                answer,
                after.registrar,
            )
        &&& after.put_cache@ == match answer {
            Ok(resp) => before.put_cache@.union_prefer_right(resp.urls@),
            Err(_) => before.put_cache@,
        }
    }

    /// Ask for `list` and keep the plain URLs; what is left of the answer are the multipart
    /// uploads.
    fn ask(&mut self, list: &Vec<(String, u64)>) -> (r: Result<
        SortedMap<String, MultipartUrls>,
        RegistrarError,
    >)
        requires
            old(self).wf(),
        ensures
            final(self).wf(),
            match r {
                Ok(multipart) => multipart.wf() && exists|resp: UploadUrlsResponse|
                    resp.multipart == multipart && #[trigger] Self::minted(
                        *old(self),
                        sized_views(list@),
                        Ok(resp),
                        *final(self),
                    ),
                Err(e) => Self::minted(*old(self), sized_views(list@), Err(e), *final(self)),
            },
    {
        let req: UploadUrlsRequest = self.put_request(list);
        let answer: Result<UploadUrlsResponse, RegistrarError> = self.registrar.upload_urls(&req);
        match answer {
            Ok(resp) => {
                let ghost whole = resp;
                let UploadUrlsResponse { urls, multipart } = resp;
                self.put_cache.extend(urls);
                proof {
                    let all: Result<UploadUrlsResponse, RegistrarError> = Ok(whole);
                    assert(R::mints(old(self).registrar, req, all, self.registrar));
                    assert(old(self).asks_for(sized_views(list@), req));
                    assert(Self::minted(*old(self), sized_views(list@), all, *self));
                }
                Ok(multipart)
            },
            Err(e) => Err(e),
        }
    }
}

impl<R: Registrar> UrlMinter for RegistrarMinter<R> {
    open spec fn inv(&self) -> bool {
        self.wf()
    }

    fn prefetch_put(&mut self, keys: &Vec<(String, u64)>) -> (r: Result<(), SinkError>)
        ensures
            exists|answer: Result<UploadUrlsResponse, RegistrarError>|
                {
                    &&& #[trigger] Self::minted(
                        *old(self),
                        sized_views(keys@),
                        answer,
                        *final(self),
                    )
                    &&& match (answer, r) {
                        (Ok(_), Ok(())) => true,
                        (Err(e), Err(s)) => is_mint_error(label_text(keys@), e, s),
                        _ => false,
                    }
                },
    {
        match self.ask(keys) {
            Ok(_) => Ok(()),
            Err(e) => Err(mint_error(keys_label(keys).as_str(), e)),
        }
    }

    fn put_url(&mut self, key: &str, size: u64) -> (r: Result<String, SinkError>)
        ensures
            if old(self).put_cache@.dom().contains(key@) {
                &&& r == Ok::<String, SinkError>(old(self).put_cache@[key@])
                &&& final(self).put_cache@ == old(self).put_cache@.remove(key@)
                &&& *final(self) == (RegistrarMinter {
                    put_cache: final(self).put_cache,
                    ..*old(self)
                })
            } else {
                exists|answer: Result<UploadUrlsResponse, RegistrarError>, asked: Self|
                    {
                        &&& #[trigger] Self::minted(
                            *old(self),
                            seq![(key@, size)],
                            answer,
                            asked,
                        )
                        &&& *final(self) == (RegistrarMinter {
                            put_cache: final(self).put_cache,
                            ..asked
                        })
                        &&& final(self).put_cache@ == asked.put_cache@.remove(key@)
                        &&& match (answer, r) {
                            (Ok(resp), Ok(url)) => resp.urls@.dom().contains(key@)
                                && resp.urls@[key@] == url,
                            (Ok(resp), Err(e)) => !resp.urls@.dom().contains(key@) && (
                            e matches SinkError::NoUrl { key: k, reason } && k@ == key@ && reason@
                                == "no PUT url minted"@),
                            (Err(e), Err(s)) => is_mint_error(key@, e, s),
                            (Err(_), Ok(_)) => false,
                        }
                    }
            },
    {
        let k: String = key.to_owned();
        if let Some(u) = self.put_cache.remove(&k) {
            return Ok(u);
        }
        let ghost here = *self;
        proof {
            assert(self.put_cache@ =~= old(self).put_cache@);
            assert(!old(self).put_cache@.dom().contains(key@));
        }
        let mut list: Vec<(String, u64)> = Vec::new();
        list.push((k.clone(), size));
        assert(sized_views(list@) =~= seq![(key@, size)]);
        let answer: Result<SortedMap<String, MultipartUrls>, RegistrarError> = self.ask(&list);
        let ghost asked = *self;
        match answer {
            Err(e) => {
                proof {
                    let all: Result<UploadUrlsResponse, RegistrarError> = Err(e);
                    assert(Self::minted(*old(self), seq![(key@, size)], all, asked));
                    assert(self.put_cache@.remove(key@) =~= self.put_cache@);
                }
                Err(mint_error(key, e))
            },
            Ok(_) => {
                let ghost resp = choose|resp: UploadUrlsResponse|
                    answer == Ok::<SortedMap<String, MultipartUrls>, RegistrarError>(
                        resp.multipart,
                    ) && #[trigger] Self::minted(here, sized_views(list@), Ok(resp), asked);
                proof {
                    let all: Result<UploadUrlsResponse, RegistrarError> = Ok(resp);
                    assert(Self::minted(*old(self), seq![(key@, size)], all, asked));
                }
                match self.put_cache.remove(&k) {
                    Some(url) => Ok(url),
                    None => Err(
                        SinkError::NoUrl {
                            key: key.to_owned(),
                            reason: "no PUT url minted".to_owned(),
                        },
                    ),
                }
            },
        }
    }

    fn get_url(&self, key: &str) -> (r: Result<String, SinkError>)
        ensures
            match r {
                Ok(url) => self.get_urls@.dom().contains(key@) && url == self.get_urls@[key@],
                Err(e) => !self.get_urls@.dom().contains(key@) && (e matches SinkError::NoUrl {
                    key: k,
                    reason,
                } && k@ == key@ && reason@ == "no GET url in plan"@),
            },
    {
        let k: String = key.to_owned();
        match self.get_urls.get(&k) {
            Some(url) => Ok(url.clone()),
            None => Err(SinkError::NoUrl { key: k, reason: "no GET url in plan".to_owned() }),
        }
    }

    fn multipart_urls(&mut self, key: &str, size: u64) -> (r: Result<
        Option<MultipartUrls>,
        SinkError,
    >)
        ensures
            exists|answer: Result<UploadUrlsResponse, RegistrarError>|
                {
                    &&& #[trigger] Self::minted(
                        *old(self),
                        seq![(key@, size)],
                        answer,
                        *final(self),
                    )
                    &&& match (answer, r) {
                        (Ok(resp), Ok(Some(m))) => resp.multipart@.dom().contains(key@)
                            && resp.multipart@[key@] == m,
                        (Ok(resp), Ok(None)) => !resp.multipart@.dom().contains(key@),
                        (Err(e), Err(s)) => is_mint_error(key@, e, s),
                        _ => false,
                    }
                },
    {
        let k: String = key.to_owned();
        let mut list: Vec<(String, u64)> = Vec::new();
        list.push((k.clone(), size));
        assert(sized_views(list@) =~= seq![(key@, size)]);
        match self.ask(&list) {
            Ok(multipart) => {
                let mut multipart: SortedMap<String, MultipartUrls> = multipart;
                Ok(multipart.remove(&k))
            },
            Err(e) => Err(mint_error(key, e)),
        }
    }

    fn complete_multipart(
        &mut self,
        key: &str,
        upload_id: &str,
        parts: &Vec<CompletedPart>,
    ) -> (r: Result<Completed, SinkError>)
        ensures
            *final(self) == (RegistrarMinter { registrar: final(self).registrar, ..*old(self) }),
            exists|
                req: UploadCompleteRequest,
                answer: Result<UploadCompleteResponse, RegistrarError>,
            |
                {
                    &&& req.worktree_id == old(self).worktree
                    &&& req.epoch == old(self).epoch
                    &&& req.key@ == key@
                    &&& req.upload_id@ == upload_id@
                    &&& req.parts@ == parts@
                    &&& #[trigger] R::completes_with(
                        old(self).registrar,
                        req,
                        answer,
                        final(self).registrar,
                    )
                    &&& is_completion(key@, answer, r)
                },
    {
        let req: UploadCompleteRequest = UploadCompleteRequest {
            worktree_id: self.worktree.clone(),
            epoch: self.epoch,
            key: key.to_owned(),
            upload_id: upload_id.to_owned(),
            parts: copy_parts(parts),
        };
        let answer: Result<UploadCompleteResponse, RegistrarError> =
            self.registrar.upload_complete(&req);
        completion(key, answer)
    }
}

/// A capture that follows the head is registered, and becomes the head with all that was sent of it;
/// one that does not is told where the chain stands, and changes nothing.
pub proof fn law_just_the_next_capture_is_registered(
    before: InMemoryRegistrar,
    req: RegisterRequest,
    answer: Result<RegisterResponse, RegistrarError>,
    after: InMemoryRegistrar,
)
    requires
        before.wf(),
        before.quota is None,
        req.epoch == before.live_epoch,
        InMemoryRegistrar::registers(before, req, answer, after),
    ensures
        before.captures@.len() == 0 && req.n == 0 && req.parent is None ==> answer is Ok
            && after.captures@.len() == 1,
        before.captures@.len() > 0 && req.n == before.captures@.last().n + 1 && req.parent is Some
            && req.parent->0@ == before.captures@.last().capture_id@ ==> answer is Ok
            && after.captures@.len() == before.captures@.len() + 1,
        after.captures@.len() > before.captures@.len() ==> {
            let head = after.captures@.last();
            &&& head.n == req.n && head.capture_id == req.capture_id && head.manifest_key
                == req.manifest_key
            &&& head.manifest.n == req.manifest.n && head.manifest.parent == req.manifest.parent
            &&& head.manifest.sections.workspace.root == req.manifest.sections.workspace.root
            &&& head.manifest.sections.git.head == req.manifest.sections.git.head
            &&& head.manifest.sections.git.packs@ == req.manifest.sections.git.packs@
            &&& answer matches Ok(resp) && resp.head_n == req.n && resp.head_capture_id
                == req.capture_id
        },
        answer is Err ==> after.captures == before.captures && answer->Err_0 is WrongParent,
        answer is Err && before.captures@.len() > 0 ==> answer->Err_0->head_n
            == before.captures@.last().n && answer->Err_0->head_capture_id
            == before.captures@.last().capture_id,
        answer is Ok && after.captures@.len() == before.captures@.len() ==> before.captures@.len()
            > 0 && before.captures@.last().n == req.n && before.captures@.last().capture_id@
            == req.capture_id@,
{
    if before.captures@.len() > 0 {
        assert(before.captures@[before.captures@.len() - 1].n == before.captures@.len() - 1);
    }
}

/// A capture names every object that it needs: each git pack with its index, the roots and packs of
/// the workspace and of a bulk class that was captured, and its manifest.
pub proof fn law_a_capture_names_every_object_it_needs(req: RegisterRequest, r: Vec<String>, i: int)
    requires
        call_ensures(manifest_keys, (&req,), r),
    ensures
        order::views(r@).contains(req.manifest_key@),
        order::views(r@).contains(req.manifest.sections.workspace.root@),
        0 <= i < req.manifest.sections.git.packs@.len() ==> order::views(r@).contains(
            req.manifest.sections.git.packs@[i]@,
        ) && order::views(r@).contains(req.manifest.sections.git.packs@[i]@ + ".idx"@),
        0 <= i < req.manifest.sections.workspace.packs@.len() ==> order::views(r@).contains(
            req.manifest.sections.workspace.packs@[i]@,
        ),
        req.manifest.sections.bulk matches BulkState::Ready(b) ==> order::views(r@).contains(
            b.root@,
        ) && (0 <= i < b.packs@.len() ==> order::views(r@).contains(b.packs@[i]@)),
{
    let s = req.manifest.sections;
    let rv = order::views(r@);
    let g = with_indexes(s.git.packs@);
    let w = order::views(s.workspace.packs@);
    let front = g.push(s.workspace.root@) + w;
    assert(rv[rv.len() - 1] == req.manifest_key@);
    assert(rv[g.len() as int] == s.workspace.root@);
    if 0 <= i < s.git.packs@.len() {
        lemma_with_indexes(s.git.packs@, i);
        assert(rv[2 * i] == g[2 * i]);
        assert(rv[2 * i + 1] == g[2 * i + 1]);
    }
    if 0 <= i < s.workspace.packs@.len() {
        assert(w.len() == s.workspace.packs@.len());
        assert(w[i] == s.workspace.packs@[i]@);
        assert(front[g.len() + 1 + i] == w[i]);
        assert(rv[g.len() + 1 + i] == w[i]);
    }
    if let BulkState::Ready(b) = s.bulk {
        let p = order::views(b.packs@);
        assert(p.len() == b.packs@.len());
        assert(rv[front.len() as int] == b.root@);
        if 0 <= i < b.packs@.len() {
            assert(p[i] == b.packs@[i]@);
            assert(rv[front.len() + 1 + i] == p[i]);
        }
    }
}

proof fn lemma_with_indexes(packs: Seq<String>, i: int)
    requires
        0 <= i < packs.len(),
    ensures
        with_indexes(packs).len() == 2 * packs.len(),
        with_indexes(packs)[2 * i] == packs[i]@,
        with_indexes(packs)[2 * i + 1] == packs[i]@ + ".idx"@,
    decreases packs.len(),
{
    let all = with_indexes(packs);
    let front = with_indexes(packs.drop_last());
    if packs.len() > 1 {
        lemma_with_indexes(packs.drop_last(), if i < packs.len() - 1 {
            i
        } else {
            0
        });
    } else {
        assert(packs.drop_last().len() == 0);
    }
    if i < packs.len() - 1 {
        assert(all[2 * i] == front[2 * i]);
        assert(all[2 * i + 1] == front[2 * i + 1]);
    }
}

/// Whether a request of keys names one.
spec fn is_asked(keys: Seq<String>, k: Seq<char>) -> bool {
    exists|i: int| 0 <= i < keys.len() && (#[trigger] keys[i])@ == k
}

spec fn is_multi(
    policy: Option<MultipartPolicy>,
    base: Option<String>,
    sizes: Map<Seq<char>, u64>,
    k: Seq<char>,
) -> bool {
    takes_multipart(policy, base, size_of_key(sizes, k))
}

proof fn lemma_with_keys(
    start: Minting,
    policy: Option<MultipartPolicy>,
    base: Option<String>,
    keys: Seq<String>,
    prefix: Seq<char>,
    sizes: Map<Seq<char>, u64>,
)
    requires
        start.urls == Map::<Seq<char>, Seq<char>>::empty(),
        start.multipart == Map::<Seq<char>, MultipartModel>::empty(),
        start.created + keys.len() < u64::MAX,
    ensures
        ({
            let m = start.with_keys(policy, base, keys, prefix, sizes);
            &&& start.created <= m.created <= start.created + keys.len()
            &&& forall|k: Seq<char>| #[trigger]
                m.urls.dom().contains(k) <==> is_asked(keys, k) && text::has_prefix(k, prefix)
                    && !is_multi(policy, base, sizes, k)
            &&& forall|k: Seq<char>| #[trigger]
                m.urls.dom().contains(k) ==> m.urls[k] == url_text(base, k)
            &&& forall|k: Seq<char>| #[trigger]
                m.multipart.dom().contains(k) <==> is_asked(keys, k) && text::has_prefix(k, prefix)
                    && is_multi(policy, base, sizes, k)
            &&& forall|k: Seq<char>| #[trigger]
                m.multipart.dom().contains(k) ==> {
                    let parts = sink::parts_of(sizes[k] as nat, policy->0.part_size as nat);
                    let id = m.multipart[k].upload_id;
                    &&& m.multipart[k].part_size == policy->0.part_size
                    &&& m.multipart[k].part_urls.len() == parts
                    &&& forall|i: int|
                        0 <= i < parts ==> #[trigger] m.multipart[k].part_urls[i] == part_url_text(
                            url_text(base, k),
                            (i + 1) as nat,
                            id,
                        )
                    &&& m.uploads.dom().contains(id)
                    &&& m.uploads[id].key == k
                    &&& parts <= u32::MAX ==> m.uploads[id].parts == parts
                    &&& exists|j: nat| start.created < j <= m.created && id == #[trigger] upload_id_text(
                        j,
                    )
                }
        }),
    decreases keys.len(),
{
    let m = start.with_keys(policy, base, keys, prefix, sizes);
    if keys.len() > 0 {
        let head = keys.drop_last();
        lemma_with_keys(start, policy, base, head, prefix, sizes);
        let front = start.with_keys(policy, base, head, prefix, sizes);
        let x = keys.last()@;
        assert forall|k: Seq<char>| is_asked(keys, k) <==> is_asked(head, k) || k == x by {
            if is_asked(head, k) {
                let i = choose|i: int| 0 <= i < head.len() && (#[trigger] head[i])@ == k;
                assert(keys[i]@ == k);
            }
            if k == x {
                assert(keys[keys.len() - 1]@ == k);
            }
            if is_asked(keys, k) && k != x {
                let i = choose|i: int| 0 <= i < keys.len() && (#[trigger] keys[i])@ == k;
                assert(head[i]@ == k);
            }
        }
        if text::has_prefix(x, prefix) && is_multi(policy, base, sizes, x) {
            let id = upload_id_text((front.created + 1) as nat);
            assert(m.created == front.created + 1);
            assert forall|k: Seq<char>| #[trigger] m.multipart.dom().contains(k) implies {
                let parts = sink::parts_of(sizes[k] as nat, policy->0.part_size as nat);
                let one = m.multipart[k].upload_id;
                &&& m.multipart[k].part_size == policy->0.part_size
                &&& m.multipart[k].part_urls.len() == parts
                &&& forall|i: int|
                    0 <= i < parts ==> #[trigger] m.multipart[k].part_urls[i] == part_url_text(
                        url_text(base, k),
                        (i + 1) as nat,
                        one,
                    )
                &&& m.uploads.dom().contains(one)
                &&& m.uploads[one].key == k
                &&& parts <= u32::MAX ==> m.uploads[one].parts == parts
                &&& exists|j: nat| start.created < j <= m.created && one == #[trigger] upload_id_text(
                    j,
                )
            } by {
                if k == x {
                    assert(m.multipart[k].upload_id == upload_id_text((front.created + 1) as nat));
                } else {
                    assert(front.multipart.dom().contains(k));
                    let one = front.multipart[k].upload_id;
                    let j = choose|j: nat|
                        start.created < j <= front.created && one == #[trigger] upload_id_text(j);
                    lemma_upload_ids_differ(j, (front.created + 1) as nat);
                    assert(one != id);
                    assert(one == upload_id_text(j));
                }
            }
        } else if text::has_prefix(x, prefix) {
            assert(m == (Minting { urls: front.urls.insert(x, url_text(base, x)), ..front }));
        } else {
            assert(m == front);
        }
    }
}

proof fn lemma_upload_ids_differ(a: nat, b: nat)
    requires
        a != b,
    ensures
        upload_id_text(a) != upload_id_text(b),
{
    let (x, y) = (upload_id_text(a), upload_id_text(b));
    if x == y {
        let n = "mpu-"@.len() as int;
        assert(x.skip(n) =~= text::decimal(a));
        assert(y.skip(n) =~= text::decimal(b));
        text::lemma_decimal_injective(a, b);
    }
}

/// Under a live lease and without a budget a URL is minted for each key asked for that lies under
/// the caller's own prefix, and for no other: one to put it in whole, or, where the policy splits an
/// object of its size, one for each of its parts, of an upload opened for just that key.
pub proof fn law_urls_are_minted_for_every_own_key(
    before: InMemoryRegistrar,
    req: UploadUrlsRequest,
    answer: Result<UploadUrlsResponse, RegistrarError>,
    after: InMemoryRegistrar,
    i: int,
    k: Seq<char>,
)
    requires
        InMemoryRegistrar::mints(before, req, answer, after),
        req.epoch == before.live_epoch,
        before.lease_alive,
        before.quota is None,
        before.created + req.keys@.len() < u64::MAX,
        0 <= i < req.keys@.len(),
        k == req.keys@[i]@,
    ensures
        answer is Ok,
        ({
            let resp = answer->Ok_0;
            let own = text::has_prefix(
                k,
                "captures/"@ + req.worktree_id@ + "/"@ + text::decimal(req.epoch as nat) + "/"@,
            );
            let split = before.multipart is Some && before.url_base is Some
                && req.sizes@.dom().contains(k) && req.sizes@[k] >= before.multipart->0.threshold
                && before.multipart->0.part_size > 0;
            &&& !own ==> !resp.urls@.dom().contains(k) && !resp.multipart@.dom().contains(k)
            &&& own && !split ==> resp.urls@.dom().contains(k) && !resp.multipart@.dom().contains(k)
            &&& own && !split && before.url_base is Some ==> resp.urls@[k]@ == text::without_end(
                before.url_base->0@,
                '/',
            ) + "/"@ + k
            &&& own && split ==> resp.multipart@.dom().contains(k) && !resp.urls@.dom().contains(k)
            &&& own && split ==> {
                let mp = resp.multipart@[k];
                &&& mp.part_size == before.multipart->0.part_size
                &&& mp.part_urls@.len() == sink::parts_of(
                    req.sizes@[k] as nat,
                    mp.part_size as nat,
                )
                &&& after.uploads@.dom().contains(mp.upload_id@)
                &&& after.uploads@[mp.upload_id@].key@ == k
                &&& mp.part_urls@.len() <= u32::MAX ==> after.uploads@[mp.upload_id@].parts
                    == mp.part_urls@.len()
            }
        }),
        forall|other: Seq<char>| #[trigger]
            answer->Ok_0.urls@.dom().contains(other) ==> exists|j: int|
                0 <= j < req.keys@.len() && (#[trigger] req.keys@[j])@ == other,
        forall|other: Seq<char>| #[trigger]
            answer->Ok_0.multipart@.dom().contains(other) ==> exists|j: int|
                0 <= j < req.keys@.len() && (#[trigger] req.keys@[j])@ == other,
        after.captures == before.captures,
{
    let prefix = own_prefix(req.worktree_id@, req.epoch as nat);
    let start = Minting {
        created: before.created,
        uploads: pending_views(before.uploads@),
        urls: Map::empty(),
        multipart: Map::empty(),
    };
    lemma_with_keys(start, before.multipart, before.url_base, req.keys@, prefix, req.sizes@);
    let m = start.with_keys(before.multipart, before.url_base, req.keys@, prefix, req.sizes@);
    let resp = answer->Ok_0;
    assert(is_asked(req.keys@, k));
    assert(text::texts(resp.urls@).dom().contains(k) <==> resp.urls@.dom().contains(k));
    assert(multipart_views(resp.multipart@).dom().contains(k) <==> resp.multipart@.dom().contains(
        k,
    ));
    if resp.urls@.dom().contains(k) {
        assert(text::texts(resp.urls@)[k] == resp.urls@[k]@);
    }
    if resp.multipart@.dom().contains(k) {
        let mp = resp.multipart@[k];
        assert(multipart_views(resp.multipart@)[k] == mp@);
        assert(mp@.part_urls.len() == mp.part_urls@.len());
        let id = mp.upload_id@;
        assert(m.uploads.dom().contains(id));
        assert(pending_views(after.uploads@).dom().contains(id));
        assert(pending_views(after.uploads@)[id] == after.uploads@[id]@);
    }
    assert forall|other: Seq<char>| #[trigger] resp.urls@.dom().contains(other) implies exists|
        j: int,
    |
        0 <= j < req.keys@.len() && (#[trigger] req.keys@[j])@ == other by {
        assert(text::texts(resp.urls@).dom().contains(other));
        assert(is_asked(req.keys@, other));
    }
    assert forall|other: Seq<char>| #[trigger]
        resp.multipart@.dom().contains(other) implies exists|j: int|
        0 <= j < req.keys@.len() && (#[trigger] req.keys@[j])@ == other by {
        assert(multipart_views(resp.multipart@).dom().contains(other));
        assert(is_asked(req.keys@, other));
    }
}

/// A budget is never overdrawn and never charges twice: of a batch those keys that were not priced
/// before are charged; where they fit the batch is taken and each of them is priced from then on,
/// and where they do not nothing changes and the answer says by how much. Without a budget every
/// batch is taken.
pub proof fn law_a_budget_charges_each_key_once(
    registrar: &mut InMemoryRegistrar,
    list: Vec<(String, u64)>,
    r: Result<(), RegistrarError>,
    again: &mut InMemoryRegistrar,
    second: Result<(), RegistrarError>,
    i: int,
)
    requires
        old(registrar).wf(),
        call_ensures(InMemoryRegistrar::price, (registrar, &list), r),
        *old(again) == *final(registrar),
        call_ensures(InMemoryRegistrar::price, (again, &list), second),
    ensures
        old(registrar).quota is None ==> r is Ok,
        r is Err ==> final(registrar).priced == old(registrar).priced && r->Err_0 is QuotaRefused,
        r is Ok && 0 <= i < list@.len() ==> final(registrar).priced@.dom().contains(list@[i].0@),
        r is Ok && old(registrar).quota is None ==> second is Ok,
        r is Ok && second is Ok ==> final(again).priced@ == final(registrar).priced@,
        forall|k: Seq<char>| #[trigger]
            old(registrar).priced@.dom().contains(k) ==> final(registrar).priced@.dom().contains(k)
                && final(registrar).priced@[k] == old(registrar).priced@[k],
        final(registrar).captures == old(registrar).captures,
{
    let keys = sized_views(list@);
    let new = fresh(keys, old(registrar).priced@);
    lemma_fresh_is_new(keys, old(registrar).priced@);
    lemma_with_all_is_either(old(registrar).priced@, new);
    if r is Ok {
        let then = final(registrar).priced@;
        assert forall|j: int| 0 <= j < keys.len() implies then.dom().contains(
            (#[trigger] keys[j]).0,
        ) by {
            let k = keys[j].0;
            if !old(registrar).priced@.dom().contains(k) {
                lemma_fresh_holds(keys, old(registrar).priced@, j);
            }
            lemma_with_all_keeps(old(registrar).priced@, new, k);
        }
        if 0 <= i < list@.len() {
            assert(keys[i].0 == list@[i].0@);
        }
        lemma_nothing_fresh(keys, then);
        assert(with_all(then, fresh(keys, then)) =~= then);
    }
}

proof fn lemma_fresh_is_new(list: Seq<(Seq<char>, u64)>, priced: Map<Seq<char>, u64>)
    ensures
        forall|j: int|
            0 <= j < fresh(list, priced).len() ==> !priced.dom().contains(
                (#[trigger] fresh(list, priced)[j]).0,
            ),
    decreases list.len(),
{
    if list.len() > 0 {
        lemma_fresh_is_new(list.drop_last(), priced);
        let (all, front) = (fresh(list, priced), fresh(list.drop_last(), priced));
        assert forall|j: int| 0 <= j < all.len() implies !priced.dom().contains(
            (#[trigger] all[j]).0,
        ) by {
            assert(j < front.len() ==> all[j] == front[j]);
        }
    }
}

proof fn lemma_fresh_holds(list: Seq<(Seq<char>, u64)>, priced: Map<Seq<char>, u64>, i: int)
    requires
        0 <= i < list.len(),
        !priced.dom().contains(list[i].0),
    ensures
        exists|j: int|
            0 <= j < fresh(list, priced).len() && (#[trigger] fresh(list, priced)[j]).0
                == list[i].0,
    decreases list.len(),
{
    let (all, front) = (fresh(list, priced), fresh(list.drop_last(), priced));
    if i < list.len() - 1 {
        lemma_fresh_holds(list.drop_last(), priced, i);
        let j = choose|j: int| 0 <= j < front.len() && (#[trigger] front[j]).0 == list[i].0;
        assert(all[j] == front[j]);
    } else {
        assert(all[front.len() as int].0 == list[i].0);
    }
}

proof fn lemma_nothing_fresh(list: Seq<(Seq<char>, u64)>, priced: Map<Seq<char>, u64>)
    requires
        forall|j: int| 0 <= j < list.len() ==> priced.dom().contains((#[trigger] list[j]).0),
    ensures
        fresh(list, priced).len() == 0,
    decreases list.len(),
{
    if list.len() > 0 {
        assert forall|j: int| 0 <= j < list.drop_last().len() implies priced.dom().contains(
            (#[trigger] list.drop_last()[j]).0,
        ) by {
            assert(list.drop_last()[j] == list[j]);
        }
        lemma_nothing_fresh(list.drop_last(), priced);
        assert(priced.dom().contains(list[list.len() - 1].0));
    }
}

proof fn lemma_with_all_is_either(m: Map<Seq<char>, u64>, list: Seq<(Seq<char>, u64)>)
    requires
        forall|j: int| 0 <= j < list.len() ==> !m.dom().contains((#[trigger] list[j]).0),
    ensures
        forall|k: Seq<char>| #[trigger]
            m.dom().contains(k) ==> with_all(m, list).dom().contains(k) && with_all(m, list)[k]
                == m[k],
    decreases list.len(),
{
    if list.len() > 0 {
        assert forall|j: int| 0 <= j < list.drop_last().len() implies !m.dom().contains(
            (#[trigger] list.drop_last()[j]).0,
        ) by {
            assert(list.drop_last()[j] == list[j]);
        }
        lemma_with_all_is_either(m, list.drop_last());
        assert(!m.dom().contains(list[list.len() - 1].0));
    }
}

/// One new key is taken just if the budget has room for it.
pub proof fn law_a_key_is_taken_where_it_fits(
    registrar: &mut InMemoryRegistrar,
    key: String,
    size: u64,
    list: Vec<(String, u64)>,
    r: Result<(), RegistrarError>,
    used: u64,
)
    requires
        old(registrar).wf(),
        old(registrar).quota is Some,
        !old(registrar).priced@.dom().contains(key@),
        list@ == seq![(key, size)],
        call_ensures(InMemoryRegistrar::used_bytes, (&*old(registrar),), used),
        call_ensures(InMemoryRegistrar::price, (registrar, &list), r),
        used + size < u64::MAX,
    ensures
        r is Ok <==> used + size <= old(registrar).quota->0.limit,
        r is Ok ==> final(registrar).priced@ == old(registrar).priced@.insert(key@, size),
        r matches Err(e) ==> e is QuotaRefused && e->QuotaRefused_limit == Some(
            old(registrar).quota->0.limit,
        ) && e->QuotaRefused_used == Some(used) && e->QuotaRefused_requested == Some(size),
{
    let keys = sized_views(list@);
    let m = old(registrar).priced@;
    assert(keys =~= seq![(key@, size)]);
    assert(keys.drop_last() =~= Seq::empty());
    assert(fresh(Seq::empty(), m) =~= Seq::empty());
    assert(fresh(keys, m) =~= seq![(key@, size)]);
    let new = fresh(keys, m);
    assert(amounts(new) =~= seq![size]);
    assert(amounts(new).drop_last() =~= Seq::empty());
    assert(count::total(amounts(new)) == size) by {
        reveal_with_fuel(count::total, 2);
    }
    assert(new.drop_last() =~= Seq::empty());
    assert(with_all(m, new) =~= m.insert(key@, size)) by {
        reveal_with_fuel(with_all, 2);
    }
}

/// An upload is completed just by its own parts: under the live epoch and lease, of an upload that
/// is open, for its own key, with every part from 1 on in order and an ETag for each.
pub proof fn law_an_upload_is_completed_by_its_own_parts(
    registrar: InMemoryRegistrar,
    req: UploadCompleteRequest,
    r: Result<(), RegistrarError>,
    asks: bool,
)
    requires
        registrar.wf(),
        call_ensures(InMemoryRegistrar::check_complete, (&registrar, &req), r),
        call_ensures(InMemoryRegistrar::asks_store, (&registrar, &req), asks),
    ensures
        r is Ok <==> {
            &&& req.epoch == registrar.live_epoch
            &&& registrar.lease_alive
            &&& registrar.uploads@.dom().contains(req.upload_id@)
            &&& registrar.uploads@[req.upload_id@].key@ == req.key@
            &&& req.parts@.len() == registrar.uploads@[req.upload_id@].parts
            &&& forall|i: int|
                0 <= i < req.parts@.len() ==> (#[trigger] req.parts@[i]).part_number == i + 1
                    && req.parts@[i].etag@.len() > 0
        },
        req.epoch != registrar.live_epoch ==> r is Err && r->Err_0 is Fenced,
        req.epoch == registrar.live_epoch && !registrar.lease_alive ==> r is Err
            && r->Err_0 is LeaseLost,
        asks <==> r is Ok && !registrar.completed.has(req.key@),
{
}

/// A completed upload is closed and its object is there: completing it once more finds no upload,
/// and an upload of an object that is there answers so. Bad parts leave it open.
pub proof fn law_a_completed_upload_is_closed(
    registrar: &mut InMemoryRegistrar,
    req: UploadCompleteRequest,
    stored: Result<Option<u64>, CompleteRefusal>,
    r: Result<UploadCompleteResponse, RegistrarError>,
    again: &mut InMemoryRegistrar,
    stored_again: Result<Option<u64>, CompleteRefusal>,
    second: Result<UploadCompleteResponse, RegistrarError>,
)
    requires
        old(registrar).wf(),
        call_ensures(InMemoryRegistrar::complete_answered, (registrar, &req, stored), r),
        *old(again) == *final(registrar),
        call_ensures(InMemoryRegistrar::complete_answered, (again, &req, stored_again), second),
    ensures
        r is Ok ==> stored is Ok && r->Ok_0.size == stored->Ok_0,
        r is Ok ==> final(registrar).completed.has(req.key@),
        r is Ok ==> !final(registrar).uploads@.dom().contains(req.upload_id@),
        r is Ok ==> second is Err && *final(again) == *old(again),
        r is Ok ==> !old(registrar).completed.has(req.key@),
        r matches Err(RegistrarError::KeyExists { key }) ==> key@ == req.key@ && final(registrar).completed.has(req.key@),
        stored matches Err(CompleteRefusal::BadParts(_)) ==> r is Err,
        stored matches Err(CompleteRefusal::BadParts(_)) ==> (old(registrar).completed.has(req.key@)
            || final(registrar).uploads == old(registrar).uploads),
        final(registrar).captures == old(registrar).captures && final(registrar).priced == old(registrar).priced,
{
}

/// The answers of a registrar over HTTP: any 2xx is a success and nothing else is; a conflict with
/// another live epoch, or a stale one, is a fence; a byte quota, however it is told, is a refusal;
/// what may pass by itself is a transport error, which alone is tried again.
pub proof fn law_answers_are_told_apart(
    name: &str,
    epoch: u64,
    status: u16,
    body: ConflictBody,
    r: Result<(), RegistrarError>,
    retry: bool,
)
    requires
        call_ensures(judge_answer, (name, epoch, status, body), r),
        r is Err ==> call_ensures(RegistrarError::is_retryable, (&r->Err_0,), retry),
    ensures
        r is Ok <==> 200 <= status < 300,
        status == 409 && body.live_epoch is Some && body.live_epoch->0 != epoch ==> r
            == Err::<(), RegistrarError>(
            RegistrarError::Fenced { epoch, live: body.live_epoch->0 },
        ),
        status == 409 && body.reason@ == "stale-epoch"@ ==> r is Err && r->Err_0 is Fenced,
        status == 413 ==> r is Err && r->Err_0 is QuotaRefused,
        status == 409 && body.reason@ == "byte-quota"@ && body.live_epoch is None ==> r is Err
            && r->Err_0 is QuotaRefused,
        r matches Err(e) ==> (e is QuotaRefused ==> e->QuotaRefused_limit == body.limit
            && e->QuotaRefused_used == body.used && e->QuotaRefused_requested == body.requested),
        status >= 500 || status == 429 || status == 408 ==> r is Err && (retry || r->Err_0 is LeaseLost),
        r is Err && retry ==> status >= 500 || status == 429 || status == 408,
        status == 404 && name@ == "lease.heartbeat"@ ==> r is Err && r->Err_0 is LeaseLost,
        status == 409 && body.live_epoch is None && name@ == "capture.register"@ && body.reason@
            == "wrong-parent"@ ==> r is Err && r->Err_0 is WrongParent && (body.head_n is Some
            ==> r->Err_0->head_n == body.head_n->0) && (body.head_capture_id is Some
            ==> r->Err_0->head_capture_id@ == body.head_capture_id->0@),
        status == 409 && body.live_epoch is None && name@ == "upload.complete"@ && body.reason@
            == "exists"@ ==> r is Err && r->Err_0 is KeyExists,
{
    reveal_strlit("stale-epoch");
    reveal_strlit("byte-quota");
    reveal_strlit("wrong-parent");
    reveal_strlit("exists");
    reveal_strlit("capture.register");
    reveal_strlit("change.summary");
    reveal_strlit("upload.complete");
    assert("exists"@.len() == 6 && "stale-epoch"@.len() == 11 && "byte-quota"@.len() == 10);
    assert("wrong-parent"@.len() == 12);
    assert("capture.register"@.len() == 16 && "change.summary"@.len() == 14
        && "upload.complete"@.len() == 15);
}

/// What the store is told of a mint that failed and of a completion: a refusal for the byte quota
/// stays one, any other mint error means that there is no URL; an object that is there already is
/// present, and only a transport error is one.
pub proof fn law_registrar_errors_reach_the_sink(
    key: &str,
    error: RegistrarError,
    minted: SinkError,
    answer: Result<UploadCompleteResponse, RegistrarError>,
    done: Result<Completed, SinkError>,
)
    requires
        call_ensures(mint_error, (key, error), minted),
        call_ensures(completion, (key, answer), done),
    ensures
        error is QuotaRefused <==> minted is QuotaRefused,
        !(error is QuotaRefused) ==> minted is NoUrl,
        error is QuotaRefused ==> minted->QuotaRefused_reason == error->QuotaRefused_reason
            && minted->QuotaRefused_limit == error->QuotaRefused_limit && minted->QuotaRefused_used
            == error->QuotaRefused_used && minted->QuotaRefused_requested
            == error->QuotaRefused_requested,
        answer matches Ok(resp) ==> done == Ok::<Completed, SinkError>(
            Completed { outcome: PutOutcome::Stored, size: resp.size },
        ),
        answer is Err && answer->Err_0 is KeyExists ==> done is Ok && done->Ok_0.outcome
            == PutOutcome::AlreadyPresent,
        answer is Err && answer->Err_0 is Transport <==> done is Err && done->Err_0 is Transport,
        answer is Err && !(answer->Err_0 is KeyExists) ==> done is Err,
{
}

/// A minter asks for just the keys that it is told to, with their sizes, as the worktree and epoch
/// that it was last given; given others, it forgets every URL of before.
pub proof fn law_a_minter_asks_as_itself<R: Registrar>(
    minter: &mut RegistrarMinter<R>,
    worktree: &str,
    epoch: u64,
    get_urls: SortedMap<String, String>,
    list: Vec<(String, u64)>,
    req: UploadUrlsRequest,
    identity: (String, u64),
    i: int,
)
    requires
        old(minter).wf(),
        get_urls.wf(),
        call_ensures(RegistrarMinter::<R>::reset, (minter, worktree, epoch, get_urls), ()),
        call_ensures(RegistrarMinter::<R>::put_request, (&*final(minter), &list), req),
        call_ensures(RegistrarMinter::<R>::identity, (&*final(minter),), identity),
    ensures
        identity.0@ == worktree@ && identity.1 == epoch,
        req.worktree_id@ == worktree@ && req.epoch == epoch,
        req.keys@.len() == list@.len(),
        0 <= i < list@.len() ==> req.keys@[i]@ == list@[i].0@ && req.sizes@.dom().contains(
            list@[i].0@,
        ),
        i == list@.len() - 1 && 0 <= i ==> req.sizes@[list@[i].0@] == list@[i].1,
        final(minter).put_cache@.dom() == Set::<Seq<char>>::empty(),
        final(minter).get_urls == get_urls,
        final(minter).registrar == old(minter).registrar,
{
    let lv = sized_views(list@);
    let kv = order::views(req.keys@);
    assert(kv.len() == req.keys@.len());
    if 0 <= i < list@.len() {
        assert(kv[i] == req.keys@[i]@);
        assert(lv[i] == (list@[i].0@, list@[i].1));
        lemma_with_all_keeps(Map::empty(), lv, lv[i].0);
    }
}

/// A plan is for the live epoch, or for a caller that boots, and for this worktree only; it has the
/// head as it was registered, with a URL for every pack and for the manifest.
pub proof fn law_a_plan_is_of_the_head(
    registrar: InMemoryRegistrar,
    req: PlanGetRequest,
    r: Result<PlanGetResponse, RegistrarError>,
    i: int,
)
    requires
        registrar.wf(),
        call_ensures(<InMemoryRegistrar as Registrar>::plan_get, (&registrar, &req), r),
    ensures
        r is Ok <==> (req.epoch == 0 || req.epoch == registrar.live_epoch) && (
        req.worktree_id is Some ==> req.worktree_id->0@ == registrar.worktree@),
        r matches Ok(plan) ==> {
            &&& plan.epoch == registrar.live_epoch
            &&& plan.head is Some <==> registrar.captures@.len() > 0
            &&& plan.head is Some ==> {
                let (head, last) = (plan.head->0, registrar.captures@.last());
                &&& head.n == last.n && head.capture_id == last.capture_id
                &&& head.manifest_key == last.manifest_key
                &&& head.manifest.sections.git.packs@ == last.manifest.sections.git.packs@
                &&& head.manifest.sections.workspace.root == last.manifest.sections.workspace.root
                &&& req.platform is None ==> (head.manifest.sections.bulk is Ready
                    <==> last.manifest.sections.bulk is Ready)
                &&& head.manifest.sections.bulk is Ready ==> last.manifest.sections.bulk is Ready
                    && head.manifest.sections.bulk->Ready_0.root
                    == last.manifest.sections.bulk->Ready_0.root
                &&& req.platform is Some && last.manifest.sections.bulk is Ready
                    && last.manifest.sections.bulk->Ready_0.platform@ == req.platform->0@
                    ==> head.manifest.sections.bulk is Ready
                &&& registrar.url_base is Some ==> plan.get_urls@.dom().contains(
                    head.manifest_key@,
                )
                &&& registrar.url_base is Some && 0 <= i
                    < head.manifest.sections.workspace.packs@.len()
                    ==> plan.get_urls@.dom().contains(
                    head.manifest.sections.workspace.packs@[i]@,
                )
                &&& registrar.url_base is Some && 0 <= i < head.manifest.sections.git.packs@.len()
                    ==> plan.get_urls@.dom().contains(head.manifest.sections.git.packs@[i]@)
                    && plan.get_urls@.dom().contains(
                    head.manifest.sections.git.packs@[i]@ + ".idx"@,
                )
                &&& registrar.url_base is Some && head.manifest.sections.bulk is Ready && 0 <= i
                    < head.manifest.sections.bulk->Ready_0.packs@.len()
                    ==> plan.get_urls@.dom().contains(
                    head.manifest.sections.bulk->Ready_0.packs@[i]@,
                )
            }
        },
{
    if r is Ok && r->Ok_0.head is Some {
        let head = r->Ok_0.head->0;
        let s = head.manifest.sections;
        let all = section_packs(s);
        let g = with_indexes(s.git.packs@);
        let w = order::views(s.workspace.packs@);
        if 0 <= i < s.git.packs@.len() {
            lemma_with_indexes(s.git.packs@, i);
            assert(all[2 * i] == g[2 * i] && all[2 * i + 1] == g[2 * i + 1]);
        }
        if 0 <= i < s.workspace.packs@.len() {
            assert(w.len() == s.workspace.packs@.len() && w[i] == s.workspace.packs@[i]@);
            assert(all[g.len() + i] == w[i]);
        }
        if s.bulk is Ready && 0 <= i < s.bulk->Ready_0.packs@.len() {
            let p = order::views(s.bulk->Ready_0.packs@);
            assert(p.len() == s.bulk->Ready_0.packs@.len() && p[i] == s.bulk->Ready_0.packs@[i]@);
            assert(all[g.len() + w.len() + i] == p[i]);
        }
    }
}

/// A heartbeat holds a live lease, under its own epoch; a summary is taken of the head alone.
pub proof fn law_heartbeats_and_summaries_are_for_the_live_head(
    registrar: InMemoryRegistrar,
    beat: HeartbeatRequest,
    r: Result<HeartbeatResponse, RegistrarError>,
    taking: &mut InMemoryRegistrar,
    summary: ChangeSummaryRequest,
    taken: Result<(), RegistrarError>,
)
    requires
        call_ensures(<InMemoryRegistrar as Registrar>::lease_heartbeat, (&registrar, &beat), r),
        call_ensures(<InMemoryRegistrar as Registrar>::change_summary, (taking, &summary), taken),
    ensures
        r is Ok <==> beat.epoch == registrar.live_epoch && registrar.lease_alive,
        beat.epoch != registrar.live_epoch ==> r is Err && r->Err_0 is Fenced,
        beat.epoch == registrar.live_epoch && !registrar.lease_alive ==> r is Err
            && r->Err_0 is LeaseLost,
        taken is Ok <==> summary.epoch == old(taking).live_epoch && old(taking).captures@.len() > 0
            && old(taking).captures@.last().capture_id@ == summary.capture_id@,
        taken is Ok ==> final(taking).accepted@ == old(taking).accepted@.push(summary),
        taken is Err ==> final(taking).accepted == old(taking).accepted,
        final(taking).captures == old(taking).captures,
{
}

/// A URL that was asked for ahead is used once, without asking again; what a plan has no URL for
/// cannot be fetched.
pub proof fn law_a_prefetched_url_is_used_once<R: Registrar>(
    minter: &mut RegistrarMinter<R>,
    key: &str,
    size: u64,
    r: Result<String, SinkError>,
    got: Result<String, SinkError>,
)
    requires
        old(minter).wf(),
        old(minter).put_cache@.dom().contains(key@),
        call_ensures(<RegistrarMinter<R> as UrlMinter>::put_url, (minter, key, size), r),
        call_ensures(<RegistrarMinter<R> as UrlMinter>::get_url, (&*old(minter), key), got),
    ensures
        r == Ok::<String, SinkError>(old(minter).put_cache@[key@]),
        !final(minter).put_cache@.dom().contains(key@),
        final(minter).registrar == old(minter).registrar,
        forall|k: Seq<char>| #[trigger]
            old(minter).put_cache@.dom().contains(k) && k != key@ ==> final(minter).put_cache@.dom().contains(k) && final(minter).put_cache@[k] == old(minter).put_cache@[k],
        got is Ok <==> old(minter).get_urls@.dom().contains(key@),
        got is Ok ==> got->Ok_0 == old(minter).get_urls@[key@],
        final(minter).get_urls == old(minter).get_urls,
{
}

/// Whatever is accepted under a budget is charged: after a batch every own key that came with a size
/// is priced, and after a register every object that the capture names and the bucket holds.
pub proof fn law_what_is_accepted_is_charged(
    before: InMemoryRegistrar,
    urls: UploadUrlsRequest,
    minted: Result<UploadUrlsResponse, RegistrarError>,
    after_mint: InMemoryRegistrar,
    i: int,
    register: RegisterRequest,
    registered: Result<RegisterResponse, RegistrarError>,
    after_register: InMemoryRegistrar,
    named: Vec<String>,
    j: int,
)
    requires
        InMemoryRegistrar::mints(before, urls, minted, after_mint),
        minted is Ok,
        InMemoryRegistrar::registers(before, register, registered, after_register),
        registered is Ok,
        call_ensures(manifest_keys, (&register,), named),
    ensures
        0 <= i < urls.keys@.len() && text::has_prefix(
            urls.keys@[i]@,
            "captures/"@ + urls.worktree_id@ + "/"@ + text::decimal(urls.epoch as nat) + "/"@,
        ) && urls.sizes@.dom().contains(urls.keys@[i]@) ==> after_mint.priced@.dom().contains(
            urls.keys@[i]@,
        ) && (!before.priced@.dom().contains(urls.keys@[i]@) ==> after_mint.priced@[
            urls.keys@[i]@
        ] == urls.sizes@[urls.keys@[i]@]),
        0 <= j < named@.len() && before.quota is Some && before.quota->0.stored@.dom().contains(
            named@[j]@,
        ) ==> after_register.priced@.dom().contains(named@[j]@) && (!before.priced@.dom().contains(
            named@[j]@,
        ) ==> after_register.priced@[named@[j]@] == before.quota->0.stored@[named@[j]@]),
{
    let prefix = own_prefix(urls.worktree_id@, urls.epoch as nat);
    let list = sized_keys(urls.keys@, prefix, urls.sizes@);
    let new = fresh(list, before.priced@);
    if 0 <= i < urls.keys@.len() && text::has_prefix(urls.keys@[i]@, prefix)
        && urls.sizes@.dom().contains(urls.keys@[i]@) {
        let k = urls.keys@[i]@;
        lemma_sized_holds(urls.keys@, prefix, urls.sizes@, i);
        lemma_sized_values(urls.keys@, prefix, urls.sizes@);
        let at = choose|at: int| 0 <= at < list.len() && (#[trigger] list[at]).0 == k;
        if !before.priced@.dom().contains(k) {
            lemma_fresh_holds(list, before.priced@, at);
        }
        lemma_with_all_keeps(before.priced@, new, k);
        lemma_fresh_is_among(list, before.priced@);
        lemma_with_all_values(before.priced@, new, k, urls.sizes@[k]);
    }
    let nv = order::views(named@);
    assert(nv.len() == named@.len());
    if 0 <= j < named@.len() && before.quota is Some && before.quota->0.stored@.dom().contains(
        named@[j]@,
    ) {
        assert(nv[j] == named@[j]@);
        let k = nv[j];
        let all = before.unpriced(register);
        lemma_fresh_of_unsized(nv, before.priced@, before.bucket());
        lemma_unsized_values(nv, before.priced@, before.bucket());
        if !before.priced@.dom().contains(k) {
            lemma_unsized_holds(nv, before.priced@, before.bucket(), j);
        }
        lemma_with_all_keeps(before.priced@, all, k);
        lemma_with_all_values(before.priced@, all, k, before.bucket()[k]);
    }
}

proof fn lemma_sized_holds(
    keys: Seq<String>,
    prefix: Seq<char>,
    sizes: Map<Seq<char>, u64>,
    i: int,
)
    requires
        0 <= i < keys.len(),
        text::has_prefix(keys[i]@, prefix),
        sizes.dom().contains(keys[i]@),
    ensures
        exists|j: int|
            0 <= j < sized_keys(keys, prefix, sizes).len() && (#[trigger] sized_keys(
                keys,
                prefix,
                sizes,
            )[j]).0 == keys[i]@,
    decreases keys.len(),
{
    let all = sized_keys(keys, prefix, sizes);
    let front = sized_keys(keys.drop_last(), prefix, sizes);
    if i < keys.len() - 1 {
        lemma_sized_holds(keys.drop_last(), prefix, sizes, i);
        let j = choose|j: int| 0 <= j < front.len() && (#[trigger] front[j]).0 == keys[i]@;
        assert(all[j] == front[j]);
    } else {
        assert(all[front.len() as int].0 == keys[i]@);
    }
}

proof fn lemma_sized_values(keys: Seq<String>, prefix: Seq<char>, sizes: Map<Seq<char>, u64>)
    ensures
        forall|j: int|
            0 <= j < sized_keys(keys, prefix, sizes).len() ==> (#[trigger] sized_keys(
                keys,
                prefix,
                sizes,
            )[j]).1 == sizes[sized_keys(keys, prefix, sizes)[j].0],
    decreases keys.len(),
{
    if keys.len() > 0 {
        lemma_sized_values(keys.drop_last(), prefix, sizes);
        let all = sized_keys(keys, prefix, sizes);
        let front = sized_keys(keys.drop_last(), prefix, sizes);
        assert forall|j: int| 0 <= j < all.len() implies (#[trigger] all[j]).1
            == sizes[all[j].0] by {
            assert(j < front.len() ==> all[j] == front[j]);
        }
    }
}

proof fn lemma_unsized_values(
    keys: Seq<Seq<char>>,
    priced: Map<Seq<char>, u64>,
    stored: Map<Seq<char>, u64>,
)
    ensures
        forall|j: int|
            0 <= j < unsized_keys(keys, priced, stored).len() ==> (#[trigger] unsized_keys(
                keys,
                priced,
                stored,
            )[j]).1 == stored[unsized_keys(keys, priced, stored)[j].0] && !priced.dom().contains(
                unsized_keys(keys, priced, stored)[j].0,
            ),
    decreases keys.len(),
{
    if keys.len() > 0 {
        lemma_unsized_values(keys.drop_last(), priced, stored);
        let all = unsized_keys(keys, priced, stored);
        let front = unsized_keys(keys.drop_last(), priced, stored);
        assert forall|j: int| 0 <= j < all.len() implies (#[trigger] all[j]).1
            == stored[all[j].0] && !priced.dom().contains(all[j].0) by {
            assert(j < front.len() ==> all[j] == front[j]);
        }
    }
}

proof fn lemma_fresh_is_among(list: Seq<(Seq<char>, u64)>, priced: Map<Seq<char>, u64>)
    ensures
        forall|j: int|
            0 <= j < fresh(list, priced).len() ==> list.contains(
                #[trigger] fresh(list, priced)[j],
            ),
    decreases list.len(),
{
    if list.len() > 0 {
        lemma_fresh_is_among(list.drop_last(), priced);
        let (all, front) = (fresh(list, priced), fresh(list.drop_last(), priced));
        assert forall|j: int| 0 <= j < all.len() implies list.contains(#[trigger] all[j]) by {
            if j < front.len() {
                assert(all[j] == front[j]);
                let head = list.drop_last();
                let k = choose|k: int| 0 <= k < head.len() && head[k] == front[j];
                assert(list[k] == all[j]);
            } else {
                assert(list[list.len() - 1] == all[j]);
            }
        }
    }
}

proof fn lemma_with_all_values(
    m: Map<Seq<char>, u64>,
    list: Seq<(Seq<char>, u64)>,
    k: Seq<char>,
    n: u64,
)
    requires
        forall|j: int| 0 <= j < list.len() && (#[trigger] list[j]).0 == k ==> list[j].1 == n,
    ensures
        !m.dom().contains(k) && with_all(m, list).dom().contains(k) ==> with_all(m, list)[k] == n,
    decreases list.len(),
{
    if list.len() > 0 {
        let head = list.drop_last();
        assert forall|j: int| 0 <= j < head.len() && (
        #[trigger] head[j]).0 == k implies head[j].1 == n by {
            assert(head[j] == list[j]);
        }
        lemma_with_all_values(m, head, k, n);
        assert(list[list.len() - 1] == list.last());
    }
}

/// The store decides on a completion that is otherwise in order: where it takes the parts the answer
/// has its size and the object is there, and where it refuses them the answer says so and the upload
/// stays open. It is asked for just this key, upload and parts.
pub proof fn law_the_store_decides_on_a_completion<C: MultipartCompleter>(
    registrar: &mut InMemoryRegistrar,
    req: UploadCompleteRequest,
    completer: C,
    r: Result<UploadCompleteResponse, RegistrarError>,
    checked: Result<(), RegistrarError>,
    size: Option<u64>,
)
    requires
        old(registrar).wf(),
        call_ensures(InMemoryRegistrar::check_complete, (&*old(registrar), &req), checked),
        call_ensures(InMemoryRegistrar::complete_with::<C>, (registrar, &req, &completer), r),
    ensures
        checked is Err ==> r is Err && *final(registrar) == *old(registrar),
        checked is Ok && old(registrar).completed.has(req.key@) ==> r is Err
            && r->Err_0 is KeyExists,
        checked is Ok && !old(registrar).completed.has(req.key@) && (forall|answer: Result<
            Option<u64>,
            CompleteRefusal,
        >| #[trigger]
            completer.completes(req.key@, req.upload_id@, req.parts, answer) ==> answer == Ok::<
                Option<u64>,
                CompleteRefusal,
            >(size)) ==> (r matches Ok(resp) && resp.size == size && final(registrar).completed.has(
            req.key@,
        )),
        checked is Ok && !old(registrar).completed.has(req.key@) && (forall|answer: Result<
            Option<u64>,
            CompleteRefusal,
        >| #[trigger]
            completer.completes(req.key@, req.upload_id@, req.parts, answer) ==> answer is Err
                && answer->Err_0 is BadParts) ==> r is Err && final(registrar).uploads == old(registrar).uploads,
        final(registrar).captures == old(registrar).captures,
{
}

/// A head told for another platform is the same head otherwise.
pub proof fn law_another_platform_changes_nothing_else(
    registrar: &mut InMemoryRegistrar,
    platform: &str,
    i: int,
)
    requires
        old(registrar).wf(),
        call_ensures(InMemoryRegistrar::set_bulk_platform, (registrar, platform), ()),
    ensures
        final(registrar).captures@.len() == old(registrar).captures@.len(),
        0 <= i < old(registrar).captures@.len() ==> {
            let (a, b) = (old(registrar).captures@[i], final(registrar).captures@[i]);
            &&& b.n == a.n && b.capture_id == a.capture_id && b.manifest_key == a.manifest_key
            &&& b.manifest.sections.git == a.manifest.sections.git
            &&& b.manifest.sections.workspace == a.manifest.sections.workspace
            &&& b.manifest.worktree_id == a.manifest.worktree_id && b.manifest.n == a.manifest.n
            &&& b.manifest.sections.bulk is Ready <==> a.manifest.sections.bulk is Ready
            &&& i < old(registrar).captures@.len() - 1 ==> b == a
            &&& i == old(registrar).captures@.len() - 1 && a.manifest.sections.bulk is Ready
                ==> b.manifest.sections.bulk->Ready_0.platform@ == platform@
                && b.manifest.sections.bulk->Ready_0.root == a.manifest.sections.bulk->Ready_0.root
        },
        final(registrar).priced == old(registrar).priced && final(registrar).live_epoch == old(registrar).live_epoch,
{
    let (before, after) = (old(registrar).captures@, final(registrar).captures@);
    if 0 <= i < before.len() - 1 && before.last().manifest.sections.bulk is Ready {
        assert(after.drop_last()[i] == before.drop_last()[i]);
    }
}

/// A fresh registrar has no capture, no budget and a live lease, and a chain that is read is the one
/// that was registered.
pub proof fn law_a_fresh_registrar_is_empty(
    worktree: &str,
    epoch: u64,
    base: Option<String>,
    fresh: InMemoryRegistrar,
    head: Option<&HeadInfo>,
    other: InMemoryRegistrar,
    chain: &Vec<HeadInfo>,
    last: Option<&HeadInfo>,
)
    requires
        call_ensures(InMemoryRegistrar::new, (worktree, epoch, base), fresh),
        call_ensures(InMemoryRegistrar::head, (&fresh,), head),
        call_ensures(InMemoryRegistrar::chain, (&other,), chain),
        call_ensures(InMemoryRegistrar::head, (&other,), last),
    ensures
        head is None && fresh.quota is None && fresh.lease_alive && fresh.live_epoch == epoch
            && fresh.worktree@ == worktree@ && fresh.url_base == base,
        chain@ == other.captures@,
        last is Some <==> chain@.len() > 0,
        last matches Some(h) ==> *h == chain@.last(),
{
}

} // verus!
