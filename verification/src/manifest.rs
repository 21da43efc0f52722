//! The capture manifest: compact JSON, written last, one PUT. The capture id is the sha256 of the
//! manifest bytes; the manifest does not carry its own id.
//!
//! The bytes depend on the manifest alone: the order of the fields is fixed, `refs` is kept in
//! the order of its names, and nothing is written between the tokens, so a capture that is
//! registered again after a lost answer has the same id.
//!
//! - `sections.git.refs` carries two pseudo-refs beside the repository's refs:
//!   [`WORKTREE_TREE_REF`] (a tree object of the working tree at snap time: tracked files with
//!   their uncommitted edits plus untracked, non-ignored files) and [`INDEX_TREE_REF`] (the tree
//!   written from the index). Both are pack closure tips; the materializer never writes them to
//!   `packed-refs`.
//! - The workspace dir object's root has three children: `.git/` (the repository's bookkeeping
//!   minus objects, refs, `HEAD` and `packed-refs`), `tree/` (git-ignored files and nested
//!   repositories under the worktree that are not bulk) and `harness/` (the harness home).
//! - The bulk dir object's root is the worktree root restricted to bulk directories.

use vstd::prelude::*;
use vstd::string::*;
use crate::calendar;
use crate::chunk;
use crate::json;
use crate::order;
use crate::order::SortedMap;
use crate::text;

pub use crate::calendar::rfc3339_from_unix;

verus! {

/// Pseudo-ref naming the working-tree tree object in `sections.git.refs`.
pub const WORKTREE_TREE_REF: &'static str = "refs/sealant/capture/worktree";

/// Pseudo-ref naming the index tree object in `sections.git.refs`.
pub const INDEX_TREE_REF: &'static str = "refs/sealant/capture/index";

/// Prefix of every pseudo-ref the materializer must not write to `packed-refs`.
pub const PSEUDO_REF_PREFIX: &'static str = "refs/sealant/capture/";

/// Why a capture was taken.
#[derive(Debug, Clone, Copy, PartialEq, Eq, Structural)]
pub enum CaptureKind {
    /// Cadence-driven.
    Auto,
    /// Agent turn boundary.
    Turn,
    /// Explicit checkpoint.
    Checkpoint,
    /// Suspend hook.
    Suspend,
    /// Session end.
    Final,
}

impl CaptureKind {
    /// The `kind` string.
    pub open spec fn name(self) -> Seq<char> {
        match self {
            CaptureKind::Auto => "auto"@,
            CaptureKind::Turn => "turn"@,
            CaptureKind::Checkpoint => "checkpoint"@,
            CaptureKind::Suspend => "suspend"@,
            CaptureKind::Final => "final"@,
        }
    }

    /// The `kind` string.
    pub fn as_str(self) -> (r: &'static str)
        ensures
            r@ == self.name(),
    {
        match self {
            CaptureKind::Auto => "auto",
            CaptureKind::Turn => "turn",
            CaptureKind::Checkpoint => "checkpoint",
            CaptureKind::Suspend => "suspend",
            CaptureKind::Final => "final",
        }
    }

    /// Parse a `kind` string.
    pub fn parse(s: &str) -> (r: Option<Self>)
        ensures
            match r {
                Some(k) => s@ == k.name(),
                None => forall|other: CaptureKind| s@ != #[trigger] other.name(),
            },
    {
        if text::str_eq(s, "auto") {
            Some(CaptureKind::Auto)
        } else if text::str_eq(s, "turn") {
            Some(CaptureKind::Turn)
        } else if text::str_eq(s, "checkpoint") {
            Some(CaptureKind::Checkpoint)
        } else if text::str_eq(s, "suspend") {
            Some(CaptureKind::Suspend)
        } else if text::str_eq(s, "final") {
            Some(CaptureKind::Final)
        } else {
            None
        }
    }
}

/// No two kinds share a string, so a kind's string parses back to that kind.
pub proof fn law_kind_strings_are_distinct(a: CaptureKind, b: CaptureKind)
    requires
        a.name() == b.name(),
    ensures
        a == b,
{
    reveal_strlit("auto");
    reveal_strlit("turn");
    reveal_strlit("checkpoint");
    reveal_strlit("suspend");
    reveal_strlit("final");
    assert("auto"@.len() == 4 && "turn"@.len() == 4 && "checkpoint"@.len() == 10);
    assert("suspend"@.len() == 7 && "final"@.len() == 5);
    assert("auto"@[0] == 'a' && "turn"@[0] == 't');
}

/// `git fsck --connectivity-only` outcome for the git section.
#[derive(Debug, Clone, Copy, PartialEq, Eq, Structural)]
pub enum FsckStatus {
    /// The packed closure verified.
    Verified,
    /// fsck reported a problem.
    Failed,
    /// Retries were exhausted; shipped without verification.
    Unverified,
}

impl FsckStatus {
    /// The status as it is written.
    pub open spec fn name(self) -> Seq<char> {
        match self {
            FsckStatus::Verified => "verified"@,
            FsckStatus::Failed => "failed"@,
            FsckStatus::Unverified => "unverified"@,
        }
    }

    /// The status as it is written.
    pub fn as_str(self) -> (r: &'static str)
        ensures
            r@ == self.name(),
    {
        match self {
            FsckStatus::Verified => "verified",
            FsckStatus::Failed => "failed",
            FsckStatus::Unverified => "unverified",
        }
    }
}

/// The git section: self-contained packs plus refs and `HEAD`.
pub struct GitSection {
    /// Every git pack key the section needs, across epochs.
    pub packs: Vec<String>,
    /// Ref name → sha, including the pseudo-refs.
    pub refs: SortedMap<String, String>,
    /// `HEAD`: a ref name or a sha.
    pub head: String,
    /// fsck outcome.
    pub fsck: FsckStatus,
}

impl GitSection {
    /// Whether the refs are in order.
    pub open spec fn wf(&self) -> bool {
        self.refs.wf()
    }

    /// The section as a JSON object.
    pub open spec fn written(&self) -> Seq<char> {
        json::json_object(
            seq![
                json::json_member("packs"@, json::json_array(json::json_strings(self.packs@))),
                json::json_member(
                    "refs"@,
                    json::json_object(written_refs(self.refs.keys@, self.refs.values@)),
                ),
                json::json_member("head"@, json::json_string(self.head@)),
                json::json_member("fsck"@, json::json_string(self.fsck.name())),
            ],
        )
    }

    /// A copy of the section.
    pub fn copy(&self) -> (r: Self)
        requires
            self.wf(),
        ensures
            r.wf(),
            r.packs@ == self.packs@,
            r.refs.keys@ == self.refs.keys@,
            r.refs.values@ == self.refs.values@,
            r.head == self.head,
            r.fsck == self.fsck,
    {
        GitSection {
            packs: text::copy_all(&self.packs),
            refs: SortedMap {
                keys: text::copy_all(&self.refs.keys),
                values: text::copy_all(&self.refs.values),
            },
            head: self.head.clone(),
            fsck: self.fsck,
        }
    }
}

/// The members of the object that holds the refs: any name and its sha.
pub open spec fn written_refs(names: Seq<String>, shas: Seq<String>) -> Seq<Seq<char>> {
    Seq::new(
        names.len(),
        |i: int| json::json_string(names[i]@) + ":"@ + json::json_string(shas[i]@),
    )
}

/// The workspace section.
pub struct WorkspaceSection {
    /// Root dir object key.
    pub root: String,
    /// Every CDC pack key the section needs, across epochs.
    pub packs: Vec<String>,
}

impl WorkspaceSection {
    /// The section as a JSON object.
    pub open spec fn written(&self) -> Seq<char> {
        json::json_object(
            seq![
                json::json_member("root"@, json::json_string(self.root@)),
                json::json_member("packs"@, json::json_array(json::json_strings(self.packs@))),
            ],
        )
    }

    /// A copy of the section.
    pub fn copy(&self) -> (r: Self)
        ensures
            r.root == self.root,
            r.packs@ == self.packs@,
    {
        WorkspaceSection { root: self.root.clone(), packs: text::copy_all(&self.packs) }
    }
}

/// The bulk section.
pub struct BulkSection {
    /// Root dir object key.
    pub root: String,
    /// Every CDC pack key the section needs, across epochs.
    pub packs: Vec<String>,
    /// `<os>-<arch>-<libc>`.
    pub platform: String,
}

impl BulkSection {
    /// The section as a JSON object.
    pub open spec fn written(&self) -> Seq<char> {
        json::json_object(
            seq![
                json::json_member("root"@, json::json_string(self.root@)),
                json::json_member("packs"@, json::json_array(json::json_strings(self.packs@))),
                json::json_member("platform"@, json::json_string(self.platform@)),
            ],
        )
    }

    /// A copy of the section.
    pub fn copy(&self) -> (r: Self)
        ensures
            r.root == self.root,
            r.packs@ == self.packs@,
            r.platform == self.platform,
    {
        BulkSection {
            root: self.root.clone(),
            packs: text::copy_all(&self.packs),
            platform: self.platform.clone(),
        }
    }
}

/// The literal `"pending"`.
#[derive(Debug, Clone, Copy, PartialEq, Eq, Structural)]
pub enum PendingTag {
    /// Not captured yet.
    Pending,
}

/// The bulk section or the literal `"pending"`.
pub enum BulkState {
    /// Captured.
    Ready(BulkSection),
    /// Not captured yet.
    Pending(PendingTag),
}

impl BulkState {
    /// The state as it is written.
    pub open spec fn written(&self) -> Seq<char> {
        match self {
            BulkState::Ready(s) => s.written(),
            BulkState::Pending(_) => json::json_string("pending"@),
        }
    }

    /// The `"pending"` value.
    pub fn pending() -> (r: Self)
        ensures
            r == BulkState::Pending(PendingTag::Pending),
    {
        BulkState::Pending(PendingTag::Pending)
    }

    /// The section, if captured.
    pub fn section(&self) -> (r: Option<&BulkSection>)
        ensures
            match (r, self) {
                (Some(s), BulkState::Ready(t)) => *s == *t,
                (None, BulkState::Pending(_)) => true,
                _ => false,
            },
    {
        match self {
            BulkState::Ready(s) => Some(s),
            BulkState::Pending(_) => None,
        }
    }

    /// Whether `other` is a copy of this state.
    pub open spec fn copied(&self, other: &Self) -> bool {
        match (self, other) {
            (BulkState::Ready(a), BulkState::Ready(b)) => a.root == b.root && a.packs@ == b.packs@
                && a.platform == b.platform,
            (BulkState::Pending(a), BulkState::Pending(b)) => a == b,
            _ => false,
        }
    }

    /// A copy of the state.
    pub fn copy(&self) -> (r: Self)
        ensures
            self.copied(&r),
    {
        match self {
            BulkState::Ready(s) => BulkState::Ready(s.copy()),
            BulkState::Pending(t) => BulkState::Pending(*t),
        }
    }
}

/// Sections.
pub struct Sections {
    /// Git objects.
    pub git: GitSection,
    /// `.git` bookkeeping, ignored work files, harness home.
    pub workspace: WorkspaceSection,
    /// Dependencies and build outputs.
    pub bulk: BulkState,
}

impl Sections {
    /// Whether the refs are in order.
    pub open spec fn wf(&self) -> bool {
        self.git.wf()
    }

    /// The sections as a JSON object.
    pub open spec fn written(&self) -> Seq<char> {
        json::json_object(
            seq![
                json::json_member("git"@, self.git.written()),
                json::json_member("workspace"@, self.workspace.written()),
                json::json_member("bulk"@, self.bulk.written()),
            ],
        )
    }

    /// Whether `other` is a copy of these sections.
    pub open spec fn copied(&self, other: &Self) -> bool {
        &&& self.git.packs@ == other.git.packs@
        &&& self.git.refs.keys@ == other.git.refs.keys@
        &&& self.git.refs.values@ == other.git.refs.values@
        &&& self.git.head == other.git.head
        &&& self.git.fsck == other.git.fsck
        &&& self.workspace.root == other.workspace.root
        &&& self.workspace.packs@ == other.workspace.packs@
        &&& self.bulk.copied(&other.bulk)
    }

    /// A copy of the sections.
    pub fn copy(&self) -> (r: Self)
        requires
            self.wf(),
        ensures
            r.wf(),
            self.copied(&r),
    {
        Sections {
            git: self.git.copy(),
            workspace: self.workspace.copy(),
            bulk: self.bulk.copy(),
        }
    }
}

/// Whether two lists of texts are the same.
pub open spec fn same_texts(a: Seq<String>, b: Seq<String>) -> bool {
    order::views(a) == order::views(b)
}

impl BulkState {
    /// Whether both are the same state.
    pub open spec fn alike(&self, other: &Self) -> bool {
        match (self, other) {
            (BulkState::Ready(a), BulkState::Ready(b)) => a.root@ == b.root@ && same_texts(
                a.packs@,
                b.packs@,
            ) && a.platform@ == b.platform@,
            (BulkState::Pending(_), BulkState::Pending(_)) => true,
            _ => false,
        }
    }
}

impl Sections {
    /// Whether both hold the same.
    pub open spec fn alike(&self, other: &Self) -> bool {
        &&& same_texts(self.git.packs@, other.git.packs@)
        &&& same_texts(self.git.refs.keys@, other.git.refs.keys@)
        &&& same_texts(self.git.refs.values@, other.git.refs.values@)
        &&& self.git.head@ == other.git.head@
        &&& self.git.fsck == other.git.fsck
        &&& self.workspace.root@ == other.workspace.root@
        &&& same_texts(self.workspace.packs@, other.workspace.packs@)
        &&& self.bulk.alike(&other.bulk)
    }

    /// Whether both hold the same.
    pub fn same(&self, other: &Self) -> (r: bool)
        ensures
            r == self.alike(other),
    {
        let bulk: bool = match (&self.bulk, &other.bulk) {
            (BulkState::Ready(a), BulkState::Ready(b)) => text::str_eq(
                a.root.as_str(),
                b.root.as_str(),
            ) && text::same_all(&a.packs, &b.packs) && text::str_eq(
                a.platform.as_str(),
                b.platform.as_str(),
            ),
            (BulkState::Pending(_), BulkState::Pending(_)) => true,
            _ => false,
        };
        bulk && text::same_all(&self.git.packs, &other.git.packs) && text::same_all(
            &self.git.refs.keys,
            &other.git.refs.keys,
        ) && text::same_all(&self.git.refs.values, &other.git.refs.values) && text::str_eq(
            self.git.head.as_str(),
            other.git.head.as_str(),
        ) && self.git.fsck == other.git.fsck && text::str_eq(
            self.workspace.root.as_str(),
            other.workspace.root.as_str(),
        ) && text::same_all(&self.workspace.packs, &other.workspace.packs)
    }
}

/// Checkpoint stamp.
pub struct Checkpoint {
    /// Checkpoint ordinal within the session.
    pub ordinal: u64,
    /// Commit sha.
    pub sha: String,
    /// Hidden ref name.
    pub ref_name: String,
}

impl Checkpoint {
    /// The stamp as a JSON object.
    pub open spec fn written(&self) -> Seq<char> {
        json::json_object(
            seq![
                json::json_member("ordinal"@, text::decimal(self.ordinal as nat)),
                json::json_member("sha"@, json::json_string(self.sha@)),
                json::json_member("ref"@, json::json_string(self.ref_name@)),
            ],
        )
    }

    /// A copy of the stamp.
    pub fn copy(&self) -> (r: Self)
        ensures
            r == *self,
    {
        Checkpoint {
            ordinal: self.ordinal,
            sha: self.sha.clone(),
            ref_name: self.ref_name.clone(),
        }
    }
}

/// The manifest.
pub struct Manifest {
    /// Worktree id.
    pub worktree_id: String,
    /// Position on the chain.
    pub n: u64,
    /// Parent capture id.
    pub parent: Option<String>,
    /// Lease epoch.
    pub epoch: u64,
    /// Execution sequence at snap start.
    pub seq: u64,
    /// Kind.
    pub kind: CaptureKind,
    /// RFC 3339, executor clock.
    pub created_at: String,
    /// Sections.
    pub sections: Sections,
    /// Checkpoint stamp, when the kind is a checkpoint.
    pub checkpoint: Option<Checkpoint>,
}

/// A manifest with its canonical bytes and capture id.
pub struct EncodedManifest {
    /// Parsed form.
    pub manifest: Manifest,
    /// Canonical bytes (what is PUT and registered).
    pub bytes: Vec<u8>,
    /// sha256 of `bytes`.
    pub capture_id: String,
}

impl EncodedManifest {
    /// Whether the id is the one that the bytes have.
    pub open spec fn wf(&self) -> bool {
        self.capture_id@ == chunk::content_name(self.bytes@)
    }
}

impl EncodedManifest {
    /// A copy.
    pub fn copy(&self) -> (r: Self)
        requires
            self.manifest.wf(),
        ensures
            r.manifest.wf(),
            self.manifest.copied(&r.manifest),
            r.bytes@ == self.bytes@,
            r.capture_id == self.capture_id,
    {
        EncodedManifest {
            manifest: self.manifest.copy(),
            bytes: self.bytes.clone(),
            capture_id: self.capture_id.clone(),
        }
    }
}

/// An optional string: `null` when there is none.
pub open spec fn written_opt(s: Option<String>) -> Seq<char> {
    match s {
        Some(x) => json::json_string(x@),
        None => "null"@,
    }
}

fn write_opt(s: &Option<String>) -> (r: String)
    ensures
        r@ == written_opt(*s),
{
    match s {
        Some(x) => json::quote(x.as_str()),
        None => "null".to_owned(),
    }
}

impl Manifest {
    /// Whether the refs are in order.
    pub open spec fn wf(&self) -> bool {
        self.sections.wf()
    }

    /// The members that every manifest has.
    pub open spec fn written_members(&self) -> Seq<Seq<char>> {
        seq![
            json::json_member("worktree_id"@, json::json_string(self.worktree_id@)),
            json::json_member("n"@, text::decimal(self.n as nat)),
            json::json_member("parent"@, written_opt(self.parent)),
            json::json_member("epoch"@, text::decimal(self.epoch as nat)),
            json::json_member("seq"@, text::decimal(self.seq as nat)),
            json::json_member("kind"@, json::json_string(self.kind.name())),
            json::json_member("created_at"@, json::json_string(self.created_at@)),
            json::json_member("sections"@, self.sections.written()),
        ]
    }

    /// The manifest as a JSON object.
    pub open spec fn written(&self) -> Seq<char> {
        json::json_object(
            match self.checkpoint {
                Some(c) => self.written_members().push(
                    json::json_member("checkpoint"@, c.written()),
                ),
                None => self.written_members(),
            },
        )
    }

    /// Whether `other` is a copy of this manifest.
    pub open spec fn copied(&self, other: &Self) -> bool {
        &&& self.worktree_id == other.worktree_id
        &&& self.n == other.n
        &&& self.parent == other.parent
        &&& self.epoch == other.epoch
        &&& self.seq == other.seq
        &&& self.kind == other.kind
        &&& self.created_at == other.created_at
        &&& self.sections.copied(&other.sections)
        &&& self.checkpoint == other.checkpoint
    }

    /// A copy of the manifest.
    pub fn copy(&self) -> (r: Self)
        requires
            self.wf(),
        ensures
            r.wf(),
            self.copied(&r),
    {
        let checkpoint: Option<Checkpoint> = match &self.checkpoint {
            Some(c) => Some(c.copy()),
            None => None,
        };
        Manifest {
            worktree_id: self.worktree_id.clone(),
            n: self.n,
            parent: text::copy_opt(&self.parent),
            epoch: self.epoch,
            seq: self.seq,
            kind: self.kind,
            created_at: self.created_at.clone(),
            sections: self.sections.copy(),
            checkpoint,
        }
    }

    /// Canonical bytes and capture id.
    pub fn encode(self) -> (r: EncodedManifest)
        requires
            self.wf(),
        ensures
            r.wf(),
            r.manifest == self,
            r.bytes@ == json::document_bytes(self.written()),
    {
        let written: String = write_manifest(&self);
        let bytes: Vec<u8> = json::bytes_of(written.as_str());
        let capture_id: String = chunk::sha256_hex(bytes.as_slice());
        EncodedManifest { manifest: self, bytes, capture_id }
    }

    /// A manifest read back from its bytes, which stay its identity.
    pub fn decoded(self, bytes: &[u8]) -> (r: EncodedManifest)
        ensures
            r.wf(),
            r.manifest == self,
            r.bytes@ == bytes@,
    {
        EncodedManifest {
            manifest: self,
            bytes: vstd::slice::slice_to_vec(bytes),
            capture_id: chunk::sha256_hex(bytes),
        }
    }

    /// Whether `s` is a tip of this capture's pack closure: a ref value, or `head` when it is a
    /// sha.
    pub open spec fn is_tip(&self, s: Seq<char>) -> bool {
        ||| text::among(self.sections.git.refs.values@, s)
        ||| !text::has_prefix(self.sections.git.head@, "refs/"@) && s == self.sections.git.head@
    }

    /// Every ref value plus `head` when it is a sha: the pack closure tips of this capture.
    pub fn git_tips(&self) -> (r: Vec<String>)
        ensures
            order::ascending(r@),
            forall|s: Seq<char>| text::among(r@, s) <==> #[trigger] self.is_tip(s),
    {
        let mut tips: Vec<String> = text::copy_all(&self.sections.git.refs.values);
        if !text::starts_with(self.sections.git.head.as_str(), "refs/") {
            tips.push(self.sections.git.head.clone());
        }
        let r: Vec<String> = text::sorted_unique(&tips);
        assert forall|s: Seq<char>| text::among(r@, s) <==> #[trigger] self.is_tip(s) by {
            text::lemma_among_push(
                self.sections.git.refs.values@,
                self.sections.git.head,
                s,
            );
            assert(text::among(r@, s) <==> text::among(tips@, s));
        }
        r
    }
}

fn write_git(s: &GitSection) -> (r: String)
    requires
        s.wf(),
    ensures
        r@ == s.written(),
{
    let mut refs: Vec<String> = Vec::new();
    let mut i: usize = 0;
    while i < s.refs.keys.len()
        invariant
            0 <= i <= s.refs.keys@.len(),
            s.refs.keys@.len() == s.refs.values@.len(),
            refs@.len() == i,
            forall|j: int|
                0 <= j < i ==> (#[trigger] refs@[j])@ == json::json_string(s.refs.keys@[j]@)
                    + ":"@ + json::json_string(s.refs.values@[j]@),
        decreases s.refs.keys@.len() - i,
    {
        let mut one: String = json::quote(s.refs.keys[i].as_str());
        one.append(":");
        one.append(json::quote(s.refs.values[i].as_str()).as_str());
        refs.push(one);
        i = i + 1;
    }
    assert(order::views(refs@) =~= written_refs(s.refs.keys@, s.refs.values@));
    let mut members: Vec<String> = Vec::new();
    members.push(json::member("packs", json::strings(&s.packs).as_str()));
    members.push(json::member("refs", json::object(&refs).as_str()));
    members.push(json::member("head", json::quote(s.head.as_str()).as_str()));
    members.push(json::member("fsck", json::quote(s.fsck.as_str()).as_str()));
    assert(order::views(members@) =~= seq![
        json::json_member("packs"@, json::json_array(json::json_strings(s.packs@))),
        json::json_member(
            "refs"@,
            json::json_object(written_refs(s.refs.keys@, s.refs.values@)),
        ),
        json::json_member("head"@, json::json_string(s.head@)),
        json::json_member("fsck"@, json::json_string(s.fsck.name())),
    ]);
    json::object(&members)
}

fn write_workspace(s: &WorkspaceSection) -> (r: String)
    ensures
        r@ == s.written(),
{
    let mut members: Vec<String> = Vec::new();
    members.push(json::member("root", json::quote(s.root.as_str()).as_str()));
    members.push(json::member("packs", json::strings(&s.packs).as_str()));
    assert(order::views(members@) =~= seq![
        json::json_member("root"@, json::json_string(s.root@)),
        json::json_member("packs"@, json::json_array(json::json_strings(s.packs@))),
    ]);
    json::object(&members)
}

fn write_bulk(s: &BulkState) -> (r: String)
    ensures
        r@ == s.written(),
{
    match s {
        BulkState::Pending(_) => json::quote("pending"),
        BulkState::Ready(b) => {
            let mut members: Vec<String> = Vec::new();
            members.push(json::member("root", json::quote(b.root.as_str()).as_str()));
            members.push(json::member("packs", json::strings(&b.packs).as_str()));
            members.push(json::member("platform", json::quote(b.platform.as_str()).as_str()));
            assert(order::views(members@) =~= seq![
                json::json_member("root"@, json::json_string(b.root@)),
                json::json_member("packs"@, json::json_array(json::json_strings(b.packs@))),
                json::json_member("platform"@, json::json_string(b.platform@)),
            ]);
            json::object(&members)
        },
    }
}

fn write_sections(s: &Sections) -> (r: String)
    requires
        s.wf(),
    ensures
        r@ == s.written(),
{
    let mut members: Vec<String> = Vec::new();
    members.push(json::member("git", write_git(&s.git).as_str()));
    members.push(json::member("workspace", write_workspace(&s.workspace).as_str()));
    members.push(json::member("bulk", write_bulk(&s.bulk).as_str()));
    assert(order::views(members@) =~= seq![
        json::json_member("git"@, s.git.written()),
        json::json_member("workspace"@, s.workspace.written()),
        json::json_member("bulk"@, s.bulk.written()),
    ]);
    json::object(&members)
}

fn write_checkpoint(c: &Checkpoint) -> (r: String)
    ensures
        r@ == c.written(),
{
    let mut members: Vec<String> = Vec::new();
    members.push(json::member("ordinal", text::dec(c.ordinal).as_str()));
    members.push(json::member("sha", json::quote(c.sha.as_str()).as_str()));
    members.push(json::member("ref", json::quote(c.ref_name.as_str()).as_str()));
    assert(order::views(members@) =~= seq![
        json::json_member("ordinal"@, text::decimal(c.ordinal as nat)),
        json::json_member("sha"@, json::json_string(c.sha@)),
        json::json_member("ref"@, json::json_string(c.ref_name@)),
    ]);
    json::object(&members)
}

fn write_manifest(m: &Manifest) -> (r: String)
    requires
        m.wf(),
    ensures
        r@ == m.written(),
{
    let mut members: Vec<String> = Vec::new();
    members.push(json::member("worktree_id", json::quote(m.worktree_id.as_str()).as_str()));
    members.push(json::member("n", text::dec(m.n).as_str()));
    members.push(json::member("parent", write_opt(&m.parent).as_str()));
    members.push(json::member("epoch", text::dec(m.epoch).as_str()));
    members.push(json::member("seq", text::dec(m.seq).as_str()));
    members.push(json::member("kind", json::quote(m.kind.as_str()).as_str()));
    members.push(json::member("created_at", json::quote(m.created_at.as_str()).as_str()));
    members.push(json::member("sections", write_sections(&m.sections).as_str()));
    assert(order::views(members@) =~= m.written_members());
    match &m.checkpoint {
        Some(c) => {
            members.push(json::member("checkpoint", write_checkpoint(c).as_str()));
            assert(order::views(members@) =~= m.written_members().push(
                json::json_member("checkpoint"@, c.written()),
            ));
        },
        None => {},
    }
    json::object(&members)
}

/// Two manifests that agree on every field have the same bytes, and so the same capture id.
pub proof fn law_same_fields_same_bytes(a: Manifest, b: Manifest)
    requires
        a.worktree_id@ == b.worktree_id@,
        a.n == b.n,
        text::opt_view(a.parent) == text::opt_view(b.parent),
        a.epoch == b.epoch,
        a.seq == b.seq,
        a.kind == b.kind,
        a.created_at@ == b.created_at@,
        a.sections.copied(&b.sections),
        match (a.checkpoint, b.checkpoint) {
            (Some(x), Some(y)) => x.ordinal == y.ordinal && x.sha@ == y.sha@ && x.ref_name@
                == y.ref_name@,
            (None, None) => true,
            _ => false,
        },
    ensures
        a.written() == b.written(),
{
    assert(json::json_strings(a.sections.git.packs@) =~= json::json_strings(
        b.sections.git.packs@,
    ));
    assert(a.written_members() =~= b.written_members());
}

/// Sections count as the same only where every part of them is: git packs, refs, head and fsck,
/// workspace root and packs, and the bulk section whole; and then they are written alike.
pub proof fn law_same_sections_agree_in_every_part(a: Sections, b: Sections, same: bool)
    requires
        call_ensures(Sections::same, (&a, &b), same),
    ensures
        same ==> order::views(a.git.packs@) == order::views(b.git.packs@),
        same ==> order::views(a.git.refs.keys@) == order::views(b.git.refs.keys@),
        same ==> order::views(a.git.refs.values@) == order::views(b.git.refs.values@),
        same ==> a.git.head@ == b.git.head@,
        same ==> a.git.fsck == b.git.fsck,
        same ==> a.workspace.root@ == b.workspace.root@,
        same ==> order::views(a.workspace.packs@) == order::views(b.workspace.packs@),
        same ==> (a.bulk is Ready <==> b.bulk is Ready),
        same && a.bulk is Ready ==> a.bulk->Ready_0.root@ == b.bulk->Ready_0.root@ && order::views(
            a.bulk->Ready_0.packs@,
        ) == order::views(b.bulk->Ready_0.packs@) && a.bulk->Ready_0.platform@
            == b.bulk->Ready_0.platform@,
        same && a.wf() && b.wf() ==> a.written() == b.written(),
        a == b ==> same,
{
    if same {
        lemma_same_strings(a.git.packs@, b.git.packs@);
        lemma_same_strings(a.workspace.packs@, b.workspace.packs@);
        if a.bulk is Ready {
            lemma_same_strings(a.bulk->Ready_0.packs@, b.bulk->Ready_0.packs@);
        }
        let (ka, kb) = (order::views(a.git.refs.keys@), order::views(b.git.refs.keys@));
        let (va, vb) = (order::views(a.git.refs.values@), order::views(b.git.refs.values@));
        assert(ka.len() == kb.len() && va.len() == vb.len());
        assert forall|i: int| 0 <= i < ka.len() implies a.git.refs.keys@[i]@
            == b.git.refs.keys@[i]@ by {
            assert(ka[i] == a.git.refs.keys@[i]@ && kb[i] == b.git.refs.keys@[i]@);
        }
        assert forall|i: int| 0 <= i < va.len() implies a.git.refs.values@[i]@
            == b.git.refs.values@[i]@ by {
            assert(va[i] == a.git.refs.values@[i]@ && vb[i] == b.git.refs.values@[i]@);
        }
        if a.git.refs.keys@.len() == a.git.refs.values@.len() {
            assert(written_refs(a.git.refs.keys@, a.git.refs.values@) =~= written_refs(
                b.git.refs.keys@,
                b.git.refs.values@,
            ));
        }
    }
}

proof fn lemma_same_strings(a: Seq<String>, b: Seq<String>)
    requires
        order::views(a) == order::views(b),
    ensures
        json::json_strings(a) == json::json_strings(b),
{
    assert(order::views(a).len() == a.len() && order::views(b).len() == b.len());
    assert forall|i: int| 0 <= i < a.len() implies a[i]@ == b[i]@ by {
        assert(order::views(a)[i] == a[i]@ && order::views(b)[i] == b[i]@);
    }
    assert(json::json_strings(a) =~= json::json_strings(b));
}

/// Sections that agree in every part count as the same.
pub proof fn law_equal_parts_make_the_same_sections(a: Sections, b: Sections, same: bool)
    requires
        call_ensures(Sections::same, (&a, &b), same),
        order::views(a.git.packs@) == order::views(b.git.packs@),
        order::views(a.git.refs.keys@) == order::views(b.git.refs.keys@),
        order::views(a.git.refs.values@) == order::views(b.git.refs.values@),
        a.git.head@ == b.git.head@,
        a.git.fsck == b.git.fsck,
        a.workspace.root@ == b.workspace.root@,
        order::views(a.workspace.packs@) == order::views(b.workspace.packs@),
        match (a.bulk, b.bulk) {
            (BulkState::Ready(x), BulkState::Ready(y)) => x.root@ == y.root@ && order::views(
                x.packs@,
            ) == order::views(y.packs@) && x.platform@ == y.platform@,
            (BulkState::Pending(_), BulkState::Pending(_)) => true,
            _ => false,
        },
    ensures
        same,
{
}

/// A copy of a manifest is the same manifest: the same sections and the same bytes.
pub proof fn law_a_copy_is_the_same_manifest(m: Manifest, c: Manifest, same: bool, a: EncodedManifest, b: EncodedManifest)
    requires
        m.wf(),
        call_ensures(Manifest::copy, (&m,), c),
        call_ensures(Sections::same, (&m.sections, &c.sections), same),
        call_ensures(Manifest::encode, (m,), a),
        call_ensures(Manifest::encode, (c,), b),
    ensures
        same,
        a.bytes@ == b.bytes@,
        a.capture_id@ == b.capture_id@,
        c.n == m.n && c.epoch == m.epoch && c.seq == m.seq && c.kind == m.kind,
        c.worktree_id@ == m.worktree_id@ && c.created_at@ == m.created_at@,
        text::opt_view(c.parent) == text::opt_view(m.parent),
{
    assert(json::json_strings(m.sections.git.packs@) =~= json::json_strings(
        c.sections.git.packs@,
    ));
    law_same_fields_same_bytes(m, c);
}

/// A manifest keeps its identity: encoding it names it by the digest of its bytes, and reading it
/// back from bytes keeps those bytes and that name.
pub proof fn law_a_manifest_is_named_by_its_bytes(
    m: Manifest,
    e: EncodedManifest,
    bytes: &[u8],
    d: EncodedManifest,
)
    requires
        m.wf(),
        call_ensures(Manifest::encode, (m,), e),
        call_ensures(Manifest::decoded, (m, bytes), d),
    ensures
        e.manifest == m && d.manifest == m,
        e.capture_id@ == chunk::content_name(e.bytes@),
        d.capture_id@ == chunk::content_name(bytes@),
        d.bytes@ == bytes@,
        bytes@ == e.bytes@ ==> d.capture_id@ == e.capture_id@,
{
}

/// The tips of a capture are what its pack closure has to reach: every ref and a detached head.
pub proof fn law_git_tips_are_refs_and_a_detached_head(m: Manifest, r: Vec<String>)
    requires
        call_ensures(Manifest::git_tips, (&m,), r),
    ensures
        forall|i: int|
            0 <= i < m.sections.git.refs.values@.len() ==> order::views(r@).contains(
                (#[trigger] m.sections.git.refs.values@[i])@,
            ),
        !text::has_prefix(m.sections.git.head@, "refs/"@) ==> order::views(r@).contains(
            m.sections.git.head@,
        ),
        forall|k: int|
            0 <= k < r@.len() ==> order::views(m.sections.git.refs.values@).contains(
                (#[trigger] r@[k])@,
            ) || r@[k]@ == m.sections.git.head@ && !text::has_prefix(
                m.sections.git.head@,
                "refs/"@,
            ),
{
    let tips = order::views(r@);
    assert forall|s: Seq<char>| m.is_tip(s) implies tips.contains(s) by {
        assert(text::among(r@, s));
        let k = choose|k: int| 0 <= k < r@.len() && #[trigger] r@[k]@ == s;
        assert(tips[k] == s);
    }
    assert forall|i: int| 0 <= i < m.sections.git.refs.values@.len() implies tips.contains(
        (#[trigger] m.sections.git.refs.values@[i])@,
    ) by {
        assert(text::among(m.sections.git.refs.values@, m.sections.git.refs.values@[i]@));
        assert(m.is_tip(m.sections.git.refs.values@[i]@));
    }
    if !text::has_prefix(m.sections.git.head@, "refs/"@) {
        assert(m.is_tip(m.sections.git.head@));
    }
    assert forall|k: int| 0 <= k < r@.len() implies order::views(
        m.sections.git.refs.values@,
    ).contains((#[trigger] r@[k])@) || r@[k]@ == m.sections.git.head@ && !text::has_prefix(
        m.sections.git.head@,
        "refs/"@,
    ) by {
        let s = r@[k]@;
        assert(text::among(r@, s));
        assert(m.is_tip(s));
        if text::among(m.sections.git.refs.values@, s) {
            let vs = m.sections.git.refs.values@;
            let i = choose|i: int| 0 <= i < vs.len() && #[trigger] vs[i]@ == s;
            assert(order::views(vs)[i] == s);
        }
    }
}

/// A kind reads back from its string, and no other string reads as a kind.
pub proof fn law_kinds_read_back(k: CaptureKind, s: &str, r: Option<CaptureKind>)
    requires
        call_ensures(CaptureKind::parse, (s,), r),
    ensures
        call_ensures(CaptureKind::as_str, (k,), s) ==> r == Some(k),
        r is Some ==> s@ == "auto"@ || s@ == "turn"@ || s@ == "checkpoint"@ || s@ == "suspend"@
            || s@ == "final"@,
        s@ == "auto"@ <==> r == Some(CaptureKind::Auto),
        s@ == "turn"@ <==> r == Some(CaptureKind::Turn),
        s@ == "checkpoint"@ <==> r == Some(CaptureKind::Checkpoint),
        s@ == "suspend"@ <==> r == Some(CaptureKind::Suspend),
        s@ == "final"@ <==> r == Some(CaptureKind::Final),
{
    let kinds = seq![
        CaptureKind::Auto,
        CaptureKind::Turn,
        CaptureKind::Checkpoint,
        CaptureKind::Suspend,
        CaptureKind::Final,
    ];
    assert(CaptureKind::Auto.name() == "auto"@);
    assert(CaptureKind::Turn.name() == "turn"@);
    assert(CaptureKind::Checkpoint.name() == "checkpoint"@);
    assert(CaptureKind::Suspend.name() == "suspend"@);
    assert(CaptureKind::Final.name() == "final"@);
    if let Some(x) = r {
        assert forall|y: CaptureKind| #[trigger] y.name() == s@ implies x == y by {
            law_kind_strings_are_distinct(x, y);
        }
    }
}

/// `std::time::SystemTime::now`, as whole seconds since 1970-01-01 (zero before that). What it
/// returns depends on the machine's clock, so nothing is stated of it.
#[verifier::external_body]
fn unix_now() -> (r: u64) {
    std::time::SystemTime::now()
        .duration_since(std::time::UNIX_EPOCH)
        .map_or(0, |d| d.as_secs())
}

/// Current time as RFC 3339 UTC with second precision (`2026-09-12T10:11:12Z`).
pub fn rfc3339_now() -> (r: String)
    ensures
        exists|secs: i64| calendar::is_rfc3339_of(r@, secs as int),
{
    let now: u64 = unix_now();
    let secs: i64 = if now <= i64::MAX as u64 {
        now as i64
    } else {
        i64::MAX
    };
    rfc3339_from_unix(secs)
}

/// Whatever a manifest has is written in it, under its name.
pub proof fn law_a_manifest_is_written_with_all_that_it_has(
    m: Manifest,
    e: EncodedManifest,
    t: Seq<char>,
)
    requires
        m.wf(),
        call_ensures(Manifest::encode, (m,), e),
        t == m.written(),
    ensures
        e.bytes@ == vstd::utf8::encode_utf8(t),
        json::holds_text(t, "\""@ + "worktree_id"@ + "\":"@ + json::json_string(m.worktree_id@)),
        json::holds_text(t, "\""@ + "n"@ + "\":"@ + text::decimal(m.n as nat)),
        json::holds_text(
            t,
            "\""@ + "parent"@ + "\":"@ + match m.parent {
                Some(p) => json::json_string(p@),
                None => "null"@,
            },
        ),
        json::holds_text(t, "\""@ + "epoch"@ + "\":"@ + text::decimal(m.epoch as nat)),
        json::holds_text(t, "\""@ + "seq"@ + "\":"@ + text::decimal(m.seq as nat)),
        json::holds_text(t, "\""@ + "kind"@ + "\":"@ + json::json_string(m.kind.name())),
        json::holds_text(t, "\""@ + "created_at"@ + "\":"@ + json::json_string(m.created_at@)),
        json::holds_text(
            t,
            "\""@ + "head"@ + "\":"@ + json::json_string(m.sections.git.head@),
        ),
        json::holds_text(
            t,
            "\""@ + "root"@ + "\":"@ + json::json_string(m.sections.workspace.root@),
        ),
        m.sections.bulk matches BulkState::Ready(b) ==> json::holds_text(
            t,
            "\""@ + "root"@ + "\":"@ + json::json_string(b.root@),
        ) && json::holds_text(t, "\""@ + "platform"@ + "\":"@ + json::json_string(b.platform@)),
        m.checkpoint matches Some(c) ==> json::holds_text(
            t,
            "\""@ + "ordinal"@ + "\":"@ + text::decimal(c.ordinal as nat),
        ) && json::holds_text(t, "\""@ + "sha"@ + "\":"@ + json::json_string(c.sha@))
            && json::holds_text(t, "\""@ + "ref"@ + "\":"@ + json::json_string(c.ref_name@)),
{
    let ms = match m.checkpoint {
        Some(c) => m.written_members().push(json::json_member("checkpoint"@, c.written())),
        None => m.written_members(),
    };
    let base = m.written_members();
    assert(forall|i: int| 0 <= i < 8 ==> ms[i] == base[i]);
    json::law_objects_and_arrays_hold_their_items(
        ms,
        0,
        "worktree_id"@,
        json::json_string(m.worktree_id@),
    );
    json::law_objects_and_arrays_hold_their_items(ms, 1, "n"@, text::decimal(m.n as nat));
    json::law_objects_and_arrays_hold_their_items(ms, 2, "parent"@, written_opt(m.parent));
    json::law_objects_and_arrays_hold_their_items(ms, 3, "epoch"@, text::decimal(m.epoch as nat));
    json::law_objects_and_arrays_hold_their_items(ms, 4, "seq"@, text::decimal(m.seq as nat));
    json::law_objects_and_arrays_hold_their_items(ms, 5, "kind"@, json::json_string(m.kind.name()));
    json::law_objects_and_arrays_hold_their_items(
        ms,
        6,
        "created_at"@,
        json::json_string(m.created_at@),
    );
    let s = m.sections;
    let parts = seq![
        json::json_member("git"@, s.git.written()),
        json::json_member("workspace"@, s.workspace.written()),
        json::json_member("bulk"@, s.bulk.written()),
    ];
    let git = seq![
        json::json_member("packs"@, json::json_array(json::json_strings(s.git.packs@))),
        json::json_member(
            "refs"@,
            json::json_object(written_refs(s.git.refs.keys@, s.git.refs.values@)),
        ),
        json::json_member("head"@, json::json_string(s.git.head@)),
        json::json_member("fsck"@, json::json_string(s.git.fsck.name())),
    ];
    assert(s.git.written() == json::json_object(git));
    lemma_deep(ms, 7, "sections"@, parts, 0, "git"@, git, 2, "head"@, json::json_string(s.git.head@));
    let w = seq![
        json::json_member("root"@, json::json_string(s.workspace.root@)),
        json::json_member("packs"@, json::json_array(json::json_strings(s.workspace.packs@))),
    ];
    assert(s.workspace.written() == json::json_object(w));
    lemma_deep(
        ms,
        7,
        "sections"@,
        parts,
        1,
        "workspace"@,
        w,
        0,
        "root"@,
        json::json_string(s.workspace.root@),
    );
    if let BulkState::Ready(b) = s.bulk {
        let bs = seq![
            json::json_member("root"@, json::json_string(b.root@)),
            json::json_member("packs"@, json::json_array(json::json_strings(b.packs@))),
            json::json_member("platform"@, json::json_string(b.platform@)),
        ];
        assert(s.bulk.written() == json::json_object(bs));
        lemma_deep(
            ms,
            7,
            "sections"@,
            parts,
            2,
            "bulk"@,
            bs,
            0,
            "root"@,
            json::json_string(b.root@),
        );
        lemma_deep(
            ms,
            7,
            "sections"@,
            parts,
            2,
            "bulk"@,
            bs,
            2,
            "platform"@,
            json::json_string(b.platform@),
        );
    }
    if let Some(c) = m.checkpoint {
        let cs = seq![
            json::json_member("ordinal"@, text::decimal(c.ordinal as nat)),
            json::json_member("sha"@, json::json_string(c.sha@)),
            json::json_member("ref"@, json::json_string(c.ref_name@)),
        ];
        assert(c.written() == json::json_object(cs));
        assert(ms[8] == json::json_member("checkpoint"@, json::json_object(cs)));
        lemma_nested(ms, 8, "checkpoint"@, cs, 0, "ordinal"@, text::decimal(c.ordinal as nat));
        lemma_nested(ms, 8, "checkpoint"@, cs, 1, "sha"@, json::json_string(c.sha@));
        lemma_nested(ms, 8, "checkpoint"@, cs, 2, "ref"@, json::json_string(c.ref_name@));
    }
}

proof fn lemma_in_member(
    outer: Seq<Seq<char>>,
    i: int,
    name: Seq<char>,
    inner: Seq<char>,
    t: Seq<char>,
)
    requires
        0 <= i < outer.len(),
        outer[i] == json::json_member(name, inner),
        json::holds_text(inner, t),
    ensures
        json::holds_text(json::json_object(outer), t),
{
    let before = seq!['"'] + name + seq!['"', ':'];
    json::lemma_holds_inside(before, inner, Seq::empty(), t);
    assert(before + inner + Seq::<char>::empty() =~= outer[i]);
    json::law_objects_and_arrays_hold_their_items(outer, i, name, inner);
    let all = json::json_object(outer);
    let at = choose|at: int|
        0 <= at && at + outer[i].len() <= all.len() && #[trigger] all.subrange(
            at,
            at + outer[i].len(),
        ) == outer[i];
    let (front, back) = (all.take(at), all.skip(at + outer[i].len()));
    json::lemma_holds_inside(front, outer[i], back, t);
    assert(front + outer[i] + back =~= all);
}

proof fn lemma_nested(
    outer: Seq<Seq<char>>,
    i: int,
    name: Seq<char>,
    inner: Seq<Seq<char>>,
    j: int,
    field: Seq<char>,
    value: Seq<char>,
)
    requires
        0 <= i < outer.len(),
        outer[i] == json::json_member(name, json::json_object(inner)),
        0 <= j < inner.len(),
        inner[j] == json::json_member(field, value),
    ensures
        json::holds_text(json::json_object(outer), "\""@ + field + "\":"@ + value),
{
    json::law_objects_and_arrays_hold_their_items(inner, j, field, value);
    lemma_in_member(
        outer,
        i,
        name,
        json::json_object(inner),
        "\""@ + field + "\":"@ + value,
    );
}

proof fn lemma_deep(
    outer: Seq<Seq<char>>,
    i: int,
    name: Seq<char>,
    middle: Seq<Seq<char>>,
    j: int,
    part: Seq<char>,
    inner: Seq<Seq<char>>,
    k: int,
    field: Seq<char>,
    value: Seq<char>,
)
    requires
        0 <= i < outer.len(),
        outer[i] == json::json_member(name, json::json_object(middle)),
        0 <= j < middle.len(),
        middle[j] == json::json_member(part, json::json_object(inner)),
        0 <= k < inner.len(),
        inner[k] == json::json_member(field, value),
    ensures
        json::holds_text(json::json_object(outer), "\""@ + field + "\":"@ + value),
{
    lemma_nested(middle, j, part, inner, k, field, value);
    lemma_in_member(
        outer,
        i,
        name,
        json::json_object(middle),
        "\""@ + field + "\":"@ + value,
    );
}

/// Every pack and every ref of a manifest is written in it.
pub proof fn law_a_manifest_is_written_with_every_pack_and_ref(m: Manifest, i: int)
    requires
        m.wf(),
    ensures
        0 <= i < m.sections.git.packs@.len() ==> json::holds_text(
            m.written(),
            json::json_string(m.sections.git.packs@[i]@),
        ),
        0 <= i < m.sections.workspace.packs@.len() ==> json::holds_text(
            m.written(),
            json::json_string(m.sections.workspace.packs@[i]@),
        ),
        0 <= i < m.sections.git.refs.keys@.len() ==> json::holds_text(
            m.written(),
            json::json_string(m.sections.git.refs.keys@[i]@) + ":"@ + json::json_string(
                m.sections.git.refs.values@[i]@,
            ),
        ),
        m.sections.bulk matches BulkState::Ready(b) ==> (0 <= i < b.packs@.len()
            ==> json::holds_text(m.written(), json::json_string(b.packs@[i]@))),
        !(m.sections.bulk is Ready) ==> json::holds_text(
            m.written(),
            "\""@ + "bulk"@ + "\":"@ + json::json_string("pending"@),
        ),
{
    let ms = match m.checkpoint {
        Some(c) => m.written_members().push(json::json_member("checkpoint"@, c.written())),
        None => m.written_members(),
    };
    let base = m.written_members();
    assert(ms[7] == base[7]);
    let s = m.sections;
    let parts = seq![
        json::json_member("git"@, s.git.written()),
        json::json_member("workspace"@, s.workspace.written()),
        json::json_member("bulk"@, s.bulk.written()),
    ];
    let git = seq![
        json::json_member("packs"@, json::json_array(json::json_strings(s.git.packs@))),
        json::json_member(
            "refs"@,
            json::json_object(written_refs(s.git.refs.keys@, s.git.refs.values@)),
        ),
        json::json_member("head"@, json::json_string(s.git.head@)),
        json::json_member("fsck"@, json::json_string(s.git.fsck.name())),
    ];
    let w = seq![
        json::json_member("root"@, json::json_string(s.workspace.root@)),
        json::json_member("packs"@, json::json_array(json::json_strings(s.workspace.packs@))),
    ];
    let none = Seq::<char>::empty();
    if 0 <= i < s.git.packs@.len() {
        let list = json::json_strings(s.git.packs@);
        json::law_objects_and_arrays_hold_their_items(list, i, none, none);
        lemma_in_member(git, 0, "packs"@, json::json_array(list), list[i]);
        lemma_in_member(parts, 0, "git"@, json::json_object(git), list[i]);
        lemma_in_member(ms, 7, "sections"@, json::json_object(parts), list[i]);
    }
    if 0 <= i < s.git.refs.keys@.len() {
        let list = written_refs(s.git.refs.keys@, s.git.refs.values@);
        json::law_objects_and_arrays_hold_their_items(list, i, none, none);
        lemma_in_member(git, 1, "refs"@, json::json_object(list), list[i]);
        lemma_in_member(parts, 0, "git"@, json::json_object(git), list[i]);
        lemma_in_member(ms, 7, "sections"@, json::json_object(parts), list[i]);
    }
    if 0 <= i < s.workspace.packs@.len() {
        let list = json::json_strings(s.workspace.packs@);
        json::law_objects_and_arrays_hold_their_items(list, i, none, none);
        lemma_in_member(w, 1, "packs"@, json::json_array(list), list[i]);
        lemma_in_member(parts, 1, "workspace"@, json::json_object(w), list[i]);
        lemma_in_member(ms, 7, "sections"@, json::json_object(parts), list[i]);
    }
    if let BulkState::Ready(b) = s.bulk {
        let bs = seq![
            json::json_member("root"@, json::json_string(b.root@)),
            json::json_member("packs"@, json::json_array(json::json_strings(b.packs@))),
            json::json_member("platform"@, json::json_string(b.platform@)),
        ];
        if 0 <= i < b.packs@.len() {
            let list = json::json_strings(b.packs@);
            json::law_objects_and_arrays_hold_their_items(list, i, none, none);
            lemma_in_member(bs, 1, "packs"@, json::json_array(list), list[i]);
            lemma_in_member(parts, 2, "bulk"@, json::json_object(bs), list[i]);
            lemma_in_member(ms, 7, "sections"@, json::json_object(parts), list[i]);
        }
    } else {
        json::law_objects_and_arrays_hold_their_items(
            parts,
            2,
            "bulk"@,
            json::json_string("pending"@),
        );
        lemma_in_member(
            ms,
            7,
            "sections"@,
            json::json_object(parts),
            "\""@ + "bulk"@ + "\":"@ + json::json_string("pending"@),
        );
    }
}

} // verus!
