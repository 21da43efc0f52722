//! Where capture objects go: a directory, or a store behind presigned URLs, so that no bucket
//! credentials are held here. Large objects go up as multipart uploads: one presigned URL per
//! part, several parts in flight, and one write-once complete.
//!
//! The requests themselves are made elsewhere; this module decides what is asked for, what an
//! answer means and what comes next.

use vstd::prelude::*;
use vstd::string::*;
use crate::keys;
use crate::order;
use crate::pacing;
use crate::paths;
use crate::paths::FsPath;
use crate::registrar::{CompletedPart, MultipartUrls};
use crate::text;

verus! {

/// Bytes to store: in memory or a file on disk (streamed).
#[derive(Clone, Copy)]
pub enum BlobSource<'a> {
    /// In-memory bytes.
    Bytes(&'a [u8]),
    /// A file to stream, and its length.
    File(&'a FsPath, u64),
}

impl<'a> BlobSource<'a> {
    /// Length in bytes.
    pub open spec fn length(&self) -> nat {
        match self {
            BlobSource::Bytes(b) => b@.len(),
            BlobSource::File(_, n) => *n as nat,
        }
    }

    /// Length in bytes.
    pub fn len(&self) -> (r: u64)
        ensures
            r == self.length(),
    {
        match self {
            BlobSource::Bytes(b) => b.len() as u64,
            BlobSource::File(_, n) => *n,
        }
    }

    /// Whether the source is empty.
    pub fn is_empty(&self) -> (r: bool)
        ensures
            r == (self.length() == 0),
    {
        self.len() == 0
    }
}

/// Outcome of a put.
#[derive(Debug, Clone, Copy, PartialEq, Eq, Structural)]
pub enum PutOutcome {
    /// Bytes were written.
    Stored,
    /// The key already held bytes; nothing was written.
    AlreadyPresent,
}

/// Sink errors.
#[derive(Debug)]
pub enum SinkError {
    /// The key holds nothing.
    NotFound(String),
    /// The minter refused a URL (lease lost, quota, network).
    NoUrl {
        /// Key.
        key: String,
        /// Why.
        reason: String,
    },
    /// The store answered with an unexpected status.
    Http {
        /// Method.
        method: &'static str,
        /// Key.
        key: String,
        /// Status code.
        status: u16,
    },
    /// Transport failure.
    Transport {
        /// Method.
        method: &'static str,
        /// Key.
        key: String,
        /// Why.
        reason: String,
    },
    /// The registrar refused the bytes for the session's byte quota. Terminal: no retry, no other
    /// key, no later tick.
    QuotaRefused {
        /// The registrar's reason code (`byte-quota`).
        reason: String,
        /// The session's budget in bytes, when the answer names it.
        limit: Option<u64>,
        /// Bytes priced against the session so far.
        used: Option<u64>,
        /// Bytes the refused call asked for.
        requested: Option<u64>,
    },
    /// A multipart upload could not be assembled: the registrar minted the wrong number of part
    /// URLs, a part answered without an ETag, the complete was refused, or the assembled object
    /// has the wrong size.
    Multipart {
        /// Key.
        key: String,
        /// Why.
        reason: String,
    },
    /// I/O.
    Io(String),
}

/// Whether an HTTP status speaks of a passing condition.
pub open spec fn is_passing_status(status: u16) -> bool {
    status >= 500 || status == 429 || status == 408
}

/// What a refusal for the byte quota says.
pub open spec fn quota_text(
    reason: Seq<char>,
    limit: Option<u64>,
    used: Option<u64>,
    requested: Option<u64>,
) -> Seq<char> {
    "refused ("@ + reason + "): limit "@ + text::known(limit) + ", used "@ + text::known(used)
        + ", requested "@ + text::known(requested)
}

/// What a refusal for the byte quota says.
pub fn quota_message(
    reason: &str,
    limit: &Option<u64>,
    used: &Option<u64>,
    requested: &Option<u64>,
) -> (r: String)
    ensures
        r@ == quota_text(reason@, *limit, *used, *requested),
{
    let mut out: String = "refused (".to_owned();
    out.append(reason);
    out.append("): limit ");
    out.append(text::opt(limit).as_str());
    out.append(", used ");
    out.append(text::opt(used).as_str());
    out.append(", requested ");
    out.append(text::opt(requested).as_str());
    out
}

impl SinkError {
    /// What the error says.
    pub open spec fn says(&self) -> Seq<char> {
        match self {
            SinkError::NotFound(key) => "key not found: "@ + key@,
            SinkError::NoUrl { key, reason } => "no url for "@ + key@ + ": "@ + reason@,
            SinkError::Http { method, key, status } => method@ + " "@ + key@ + ": http "@
                + text::decimal(*status as nat),
            SinkError::Transport { method, key, reason } => method@ + " "@ + key@ + ": "@ + reason@,
            SinkError::QuotaRefused { reason, limit, used, requested } => quota_text(
                reason@,
                *limit,
                *used,
                *requested,
            ),
            SinkError::Multipart { key, reason } => "multipart "@ + key@ + ": "@ + reason@,
            SinkError::Io(reason) => reason@,
        }
    }

    /// What the error says.
    pub fn message(&self) -> (r: String)
        ensures
            r@ == self.says(),
    {
        match self {
            SinkError::NotFound(key) => text::concat("key not found: ", key.as_str()),
            SinkError::NoUrl { key, reason } => {
                let mut out: String = "no url for ".to_owned();
                out.append(key.as_str());
                out.append(": ");
                out.append(reason.as_str());
                out
            },
            SinkError::Http { method, key, status } => {
                let mut out: String = (*method).to_owned();
                out.append(" ");
                out.append(key.as_str());
                out.append(": http ");
                out.append(text::dec(*status as u64).as_str());
                out
            },
            SinkError::Transport { method, key, reason } => {
                let mut out: String = (*method).to_owned();
                out.append(" ");
                out.append(key.as_str());
                out.append(": ");
                out.append(reason.as_str());
                out
            },
            SinkError::QuotaRefused { reason, limit, used, requested } => quota_message(
                reason.as_str(),
                limit,
                used,
                requested,
            ),
            SinkError::Multipart { key, reason } => {
                let mut out: String = "multipart ".to_owned();
                out.append(key.as_str());
                out.append(": ");
                out.append(reason.as_str());
                out
            },
            SinkError::Io(reason) => reason.clone(),
        }
    }

    /// Whether a retry can help: a failure on the way or on this machine, or a status that speaks
    /// of a passing condition.
    pub open spec fn can_pass(&self) -> bool {
        match self {
            SinkError::Transport { .. } => true,
            SinkError::Io(_) => true,
            SinkError::Http { status, .. } => is_passing_status(*status),
            _ => false,
        }
    }

    /// Whether a retry can help.
    #[must_use]
    pub fn is_retryable(&self) -> (r: bool)
        ensures
            r == self.can_pass(),
    {
        match self {
            SinkError::Transport { .. } => true,
            SinkError::Io(_) => true,
            SinkError::Http { status, .. } => *status >= 500 || *status == 429 || *status == 408,
            _ => false,
        }
    }
}

/// Retry policy for one part (and the complete call) of a multipart upload. Exhausting it fails
/// the whole object; the shipper then retries the object with fresh URLs.
#[derive(Debug, Clone, Copy)]
pub struct PartRetry {
    /// Attempts per part.
    pub attempts: u32,
    /// First backoff; doubles per attempt.
    pub backoff: u64,
    /// Backoff cap.
    pub max_backoff: u64,
}

impl Default for PartRetry {
    fn default() -> (r: Self)
        ensures
            r.attempts == 5,
            r.backoff == 200 * pacing::MILLISECOND,
            r.max_backoff == 5 * pacing::SECOND,
    {
        PartRetry {
            attempts: 5,
            backoff: 200 * pacing::MILLISECOND,
            max_backoff: 5 * pacing::SECOND,
        }
    }
}

impl PartRetry {
    /// The wait after failed attempt number `attempt` (from 0).
    pub fn delay(&self, attempt: u32) -> (r: u64)
        ensures
            r == pacing::wait(self.backoff as nat, attempt as nat, self.max_backoff as nat),
    {
        pacing::backoff(self.backoff, attempt, self.max_backoff)
    }

    /// How many attempts are made: one at least.
    pub open spec fn allowed(&self) -> nat {
        if self.attempts == 0 {
            1
        } else {
            self.attempts as nat
        }
    }
}

/// What completing a multipart upload reported.
#[derive(Debug, Clone, Copy, PartialEq, Eq, Structural)]
pub struct Completed {
    /// Stored, or the key already existed (the write-once complete was refused).
    pub outcome: PutOutcome,
    /// Size of the object at the key, when the registrar reports it.
    pub size: Option<u64>,
}

/// A key → bytes store.
pub trait BlobSink: Sized {
    /// What a put may come to, and what it may leave.
    open spec fn puts(
        before: Self,
        key: Seq<char>,
        source: BlobSource<'_>,
        answer: Result<PutOutcome, SinkError>,
        after: Self,
    ) -> bool {
        true
    }

    /// Store `source` at `key` unless the key already holds bytes.
    fn put_if_absent(&mut self, key: &str, source: BlobSource<'_>) -> (r: Result<
        PutOutcome,
        SinkError,
    >)
        ensures
            Self::puts(*old(self), key@, source, r, *final(self)),
    ;

    /// Store `file`, of `size` bytes, at `key` as a multipart upload: `part_size`-byte parts, up
    /// to `parts_in_flight` uploading at once, then one write-once complete. An existing key is
    /// left alone and reported, as by [`BlobSink::put_if_absent`]. The default is a single PUT.
    fn put_multipart(
        &mut self,
        key: &str,
        file: &FsPath,
        size: u64,
        part_size: u64,
        parts_in_flight: usize,
    ) -> (r: Result<PutOutcome, SinkError>)
        default_ensures
            Self::puts(*old(self), key@, BlobSource::File(file, size), r, *final(self)),
    {
        self.put_if_absent(key, BlobSource::File(file, size))
    }

    /// Prepare to store `keys` (each with its size) with single PUTs. Advisory, except for a
    /// [`SinkError::QuotaRefused`], which is terminal. The default does nothing.
    fn prefetch_put(&mut self, keys: &Vec<(String, u64)>) -> (r: Result<(), SinkError>)
        default_ensures
            r is Ok,
            *final(self) == *old(self),
    {
        Ok(())
    }

    /// Read the bytes at `key`.
    fn get(&mut self, key: &str) -> Result<Vec<u8>, SinkError>;

    /// Whether `key` holds bytes.
    fn holds(&mut self, key: &str) -> Result<bool, SinkError>;

    /// CPU time, in nanoseconds, spent so far in helper threads this sink spawned.
    fn helper_cpu(&self) -> (r: u64)
        default_ensures
            r == 0,
    {
        0
    }
}

/// Mints presigned URLs for one key at a time and completes multipart uploads through the
/// registrar. Credentials are never seen here, only URLs.
pub trait UrlMinter: Sized {
    /// Whether the minter is sound.
    open spec fn inv(&self) -> bool {
        true
    }

    /// A PUT URL for `key`, whose object is `size` bytes. The size is not a hint: a registrar may
    /// bind the signature to that exact content length.
    fn put_url(&mut self, key: &str, size: u64) -> (r: Result<String, SinkError>)
        requires
            old(self).inv(),
        ensures
            final(self).inv(),
    ;

    /// Mint PUT URLs for `keys` (each with its size) ahead of their [`UrlMinter::put_url`] calls.
    /// The default mints nothing.
    fn prefetch_put(&mut self, keys: &Vec<(String, u64)>) -> (r: Result<(), SinkError>)
        requires
            old(self).inv(),
        ensures
            final(self).inv(),
        default_ensures
            r is Ok,
            *final(self) == *old(self),
    {
        Ok(())
    }

    /// A GET URL for `key`.
    fn get_url(&self, key: &str) -> (r: Result<String, SinkError>)
        requires
            self.inv(),
    ;

    /// Part URLs for a multipart upload of `key` (`size` bytes), or none when the store takes the
    /// key as a single PUT.
    fn multipart_urls(&mut self, key: &str, size: u64) -> (r: Result<
        Option<MultipartUrls>,
        SinkError,
    >)
        requires
            old(self).inv(),
        ensures
            final(self).inv(),
        default_ensures
            r == Ok::<Option<MultipartUrls>, SinkError>(None),
            *final(self) == *old(self),
    {
        Ok(None)
    }

    /// Complete the multipart upload `upload_id` at `key` write-once; an existing key is reported
    /// as [`PutOutcome::AlreadyPresent`].
    fn complete_multipart(
        &mut self,
        key: &str,
        upload_id: &str,
        parts: &Vec<CompletedPart>,
    ) -> (r: Result<Completed, SinkError>)
        requires
            old(self).inv(),
        ensures
            final(self).inv(),
        default_ensures
            r matches Err(SinkError::Multipart { key: k, reason }) && k@ == key@ && reason@
                == "this minter cannot complete multipart uploads"@,
            *final(self) == *old(self),
    {
        Err(multipart_err(key, "this minter cannot complete multipart uploads"))
    }
}

/// A directory: `key` → `<dir>/<key>`.
pub struct LocalDir {
    /// The directory.
    dir: FsPath,
}

/// Whether a segment of a key becomes a directory or file name.
pub open spec fn is_kept_segment(s: Seq<char>) -> bool {
    s.len() > 0 && s != ".."@ && s != "."@
}

impl LocalDir {
    /// The directory.
    pub closed spec fn place(&self) -> paths::PathModel {
        self.dir@
    }

    /// Use `dir`.
    pub fn new(dir: &FsPath) -> (r: Self)
        ensures
            r.place() == dir@,
    {
        LocalDir { dir: dir.copy() }
    }

    /// The directory.
    #[must_use]
    pub fn dir(&self) -> (r: &FsPath)
        ensures
            r@ == self.place(),
    {
        &self.dir
    }

    /// Where the object at `key` is kept: below the directory, whatever the key. Segments that
    /// lead nowhere, or out, are left out.
    pub fn path_for(&self, key: &str) -> (r: FsPath)
        ensures
            r@.absolute == self.place().absolute,
            r@.parts == self.place().parts + text::pieces(key@, '/').filter(
                |s: Seq<char>| is_kept_segment(s),
            ),
            r@.starts_with(self.place()),
    {
        let segments: Vec<String> = text::split(key, '/');
        let ghost all = order::views(segments@);
        let ghost keep = |s: Seq<char>| is_kept_segment(s);
        let mut p: FsPath = self.dir.copy();
        let mut i: usize = 0;
        proof {
            assert(all.take(0) =~= Seq::empty());
            reveal(Seq::filter);
            assert(p@.parts =~= self.place().parts + all.take(0).filter(keep));
        }
        while i < segments.len()
            invariant
                0 <= i <= segments@.len(),
                all == order::views(segments@),
                keep == (|s: Seq<char>| is_kept_segment(s)),
                p@.absolute == self.place().absolute,
                p@.parts == self.place().parts + all.take(i as int).filter(keep),
            decreases segments@.len() - i,
        {
            let s: &str = segments[i].as_str();
            proof {
                reveal(Seq::filter);
                let t = all.take(i + 1);
                assert(t.drop_last() =~= all.take(i as int));
                assert(t.last() == s@);
                reveal_strlit(".");
                reveal_strlit("..");
            }
            if s.unicode_len() > 0 && !text::str_eq(s, "..") && !text::str_eq(s, ".") {
                p = p.child(s);
            }
            i = i + 1;
            assert(p@.parts =~= self.place().parts + all.take(i as int).filter(keep));
        }
        proof {
            assert(all.take(all.len() as int) =~= all);
            assert(p@.parts.take(self.place().parts.len() as int) =~= self.place().parts);
        }
        p
    }
}

/// The error of a multipart upload that could not be assembled.
pub fn multipart_err(key: &str, reason: &str) -> (r: SinkError)
    ensures
        r matches SinkError::Multipart { key: k, reason: why } && k@ == key@ && why@ == reason@,
{
    SinkError::Multipart { key: key.to_owned(), reason: reason.to_owned() }
}

/// The number of parts of an object of `size` bytes cut at `part_size`.
pub open spec fn parts_of(size: nat, part_size: nat) -> nat
    recommends
        part_size > 0,
{
    if size % part_size == 0 {
        size / part_size
    } else {
        size / part_size + 1
    }
}

/// The number of parts of an object of `size` bytes cut at `part_size`.
pub fn part_count(size: u64, part_size: u64) -> (r: u64)
    requires
        part_size > 0,
    ensures
        r == parts_of(size as nat, part_size as nat),
{
    let whole: u64 = size / part_size;
    if size % part_size == 0 {
        whole
    } else {
        proof {
            let (s, p) = (size as int, part_size as int);
            assert(s / p < u64::MAX) by (nonlinear_arith)
                requires
                    0 <= s <= u64::MAX,
                    p > 0,
                    s % p != 0,
            {
                if p == 1 {
                    assert(s % 1 == 0);
                } else {
                    vstd::arithmetic::div_mod::lemma_fundamental_div_mod(s, p);
                }
            }
        }
        whole + 1
    }
}

/// The length of part `index` (from 0) of an object of `size` bytes cut at `part_size`.
pub open spec fn part_len(index: nat, part_size: nat, size: nat) -> nat {
    let offset = index * part_size;
    let left = if size < offset {
        0
    } else {
        (size - offset) as nat
    };
    if part_size < left {
        part_size
    } else {
        left
    }
}

/// Byte range of part `index` (0-based) in an object of `size` bytes cut at `part_size`: offset
/// and length.
pub fn part_range(index: usize, part_size: u64, size: u64) -> (r: (u64, u64))
    requires
        index * part_size <= u64::MAX,
    ensures
        r.0 == index * part_size,
        r.1 == part_len(index as nat, part_size as nat, size as nat),
{
    let offset: u64 = index as u64 * part_size;
    let left: u64 = if size < offset {
        0
    } else {
        size - offset
    };
    let len: u64 = if part_size < left {
        part_size
    } else {
        left
    };
    (offset, len)
}

proof fn lemma_part_starts_inside(i: nat, part_size: nat, size: nat)
    requires
        part_size > 0,
        i < parts_of(size, part_size),
    ensures
        i * part_size < size,
        0 < part_len(i, part_size, size) <= part_size,
{
    assert(i * part_size < size) by (nonlinear_arith)
        requires
            part_size > 0,
            i < (if size % part_size == 0 {
                size / part_size
            } else {
                size / part_size + 1
            }),
    {
        vstd::arithmetic::div_mod::lemma_fundamental_div_mod(size as int, part_size as int);
    }
}

/// The parts of an object hold every byte of it exactly once: a byte lies in the part that its
/// position picks, and in no other. No part is empty, and none is longer than the part size.
pub proof fn law_parts_tile_the_object(size: nat, part_size: nat, at: nat, i: nat)
    requires
        part_size > 0,
        at < size,
        i < parts_of(size, part_size),
    ensures
        at / part_size < parts_of(size, part_size),
        (i * part_size <= at < i * part_size + part_len(i, part_size, size)) <==> i == at / part_size,
        0 < part_len(i, part_size, size) <= part_size,
{
    lemma_part_starts_inside(i, part_size, size);
    let q = at / part_size;
    vstd::arithmetic::div_mod::lemma_fundamental_div_mod(size as int, part_size as int);
    vstd::arithmetic::div_mod::lemma_fundamental_div_mod(at as int, part_size as int);
    assert(q * part_size <= at < q * part_size + part_size) by (nonlinear_arith)
        requires
            at == part_size * q + at % part_size,
            0 <= at % part_size < part_size,
    ;
    let full = size / part_size;
    assert(size == full * part_size + size % part_size) by (nonlinear_arith)
        requires
            size == part_size * full + size % part_size,
    ;
    assert(q <= full) by (nonlinear_arith)
        requires
            q * part_size <= at,
            at < size,
            size == full * part_size + size % part_size,
            0 <= size % part_size < part_size,
            part_size > 0,
    ;
    assert(size % part_size == 0 ==> q < full) by (nonlinear_arith)
        requires
            q * part_size <= at,
            at < size,
            size == full * part_size + size % part_size,
            part_size > 0,
    ;
    if i < q {
        assert(i * part_size + part_size <= q * part_size) by (nonlinear_arith)
            requires
                i < q,
        ;
    } else if i > q {
        assert(q * part_size + part_size <= i * part_size) by (nonlinear_arith)
            requires
                q < i,
        ;
    }
}

/// Total object size from a ranged GET's answer: the number behind the last slash of
/// `Content-Range` on a 206, `Content-Length` on a 200 the store answered without honouring the
/// range.
pub open spec fn announced_size(
    status: u16,
    content_range: Option<Seq<char>>,
    content_length: Option<Seq<char>>,
) -> Option<nat> {
    if status == 206 && content_range is Some {
        text::numeral(text::stripped(keys::last_segment(content_range->0)))
    } else if status == 200 && content_length is Some {
        text::numeral(text::stripped(content_length->0))
    } else {
        None
    }
}

/// What an optional text stands for.
pub open spec fn header_view(s: Option<&str>) -> Option<Seq<char>> {
    match s {
        Some(x) => Some(x@),
        None => None,
    }
}

/// Total object size from a ranged GET's answer, if its headers give one that can be counted.
pub fn size_from_headers(
    status: u16,
    content_range: Option<&str>,
    content_length: Option<&str>,
) -> (r: Option<u64>)
    ensures
        ({
            let n = announced_size(status, header_view(content_range), header_view(content_length));
            match r {
                Some(x) => n == Some(x as nat),
                None => n is None || n->0 > u64::MAX,
            }
        }),
{
    if status == 206 {
        match content_range {
            Some(range) => {
                let n: usize = range.unicode_len();
                proof {
                    text::lemma_last_index(range@, '/');
                }
                let last: &str = match text::rfind(range, '/') {
                    Some(i) => range.substring_char(i + 1, n),
                    None => range,
                };
                proof {
                    assert(last@ =~= keys::last_segment(range@));
                }
                text::parse_u64(text::trim(last))
            },
            None => None,
        }
    } else if status == 200 {
        match content_length {
            Some(length) => text::parse_u64(text::trim(length)),
            None => None,
        }
    } else {
        None
    }
}

/// Attempts at one request: how many were made, and how the last one failed.
pub struct Attempts {
    /// How often, and with which waits.
    pub retry: PartRetry,
    /// Attempts made so far, all of them failed.
    pub made: u32,
    /// How the last one failed.
    pub last: Option<SinkError>,
}

/// What comes next at a request.
#[derive(Debug, Clone, Copy, PartialEq, Eq, Structural)]
pub enum Attempt {
    /// Wait so many nanoseconds and try.
    Try(u64),
    /// Every attempt was made.
    GiveUp,
}

impl Attempts {
    /// Whether no more attempts were made than are allowed.
    pub open spec fn wf(&self) -> bool {
        &&& self.made <= self.retry.allowed()
        &&& (self.made > 0 <==> self.last is Some)
    }

    /// No attempt made yet.
    pub fn new(retry: PartRetry) -> (r: Self)
        ensures
            r.wf(),
            r.retry == retry,
            r.made == 0,
    {
        Attempts { retry, made: 0, last: None }
    }

    /// What comes next: an attempt, after the wait that follows a failed one, as long as one is
    /// left.
    pub fn next(&self) -> (r: Attempt)
        requires
            self.wf(),
        ensures
            r == if self.made >= self.retry.allowed() {
                Attempt::GiveUp
            } else if self.made == 0 {
                Attempt::Try(0)
            } else {
                Attempt::Try(
                    pacing::wait(
                        self.retry.backoff as nat,
                        (self.made - 1) as nat,
                        self.retry.max_backoff as nat,
                    ) as u64,
                )
            },
    {
        if self.made == 0 {
            Attempt::Try(0)
        } else if self.made >= self.retry.attempts {
            Attempt::GiveUp
        } else {
            Attempt::Try(self.retry.delay(self.made - 1))
        }
    }

    /// An attempt failed in a way that may pass.
    pub fn failed(&mut self, error: SinkError)
        requires
            old(self).wf(),
            old(self).made < old(self).retry.allowed(),
        ensures
            final(self).wf(),
            final(self).retry == old(self).retry,
            final(self).made == old(self).made + 1,
            final(self).last == Some(error),
    {
        self.made = self.made + 1;
        self.last = Some(error);
    }

    /// The error of the last attempt.
    pub fn give_up(self, key: &str) -> (r: SinkError)
        ensures
            match self.last {
                Some(e) => r == e,
                None => r matches SinkError::Multipart { key: k, reason } && k@ == key@ && reason@
                    == "no attempts"@,
            },
    {
        match self.last {
            Some(e) => e,
            None => multipart_err(key, "no attempts"),
        }
    }
}

/// What became of the request for one part.
pub enum PartAnswer {
    /// It did not come through.
    Failed(String),
    /// The store answered: status, and the ETag where there was one.
    Status(u16, Option<String>),
}

/// What an answer means for the attempt.
pub enum PartVerdict {
    /// The part is stored under this ETag.
    Stored(String),
    /// Try again.
    Again(SinkError),
    /// The upload has failed.
    Failed(SinkError),
}

/// Judge the answer to the PUT of part `part_number`: an ETag of a 2xx is the part's, a failure on
/// the way or a passing condition is tried again, anything else fails the upload.
pub fn judge_part(key: &str, part_number: u32, answer: PartAnswer) -> (r: PartVerdict)
    ensures
        match answer {
            PartAnswer::Failed(reason) => r matches PartVerdict::Again(
                SinkError::Transport { method, key: k, reason: why },
            ) && method@ == "PUT"@ && k@ == key@ && why == reason,
            PartAnswer::Status(status, etag) => {
                if 200 <= status <= 299 {
                    match etag {
                        Some(e) => r == PartVerdict::Stored(e),
                        None => r matches PartVerdict::Failed(
                            SinkError::Multipart { key: k, reason },
                        ) && k@ == key@ && reason@ == "part "@ + text::decimal(part_number as nat)
                            + ": no ETag"@,
                    }
                } else if is_passing_status(status) {
                    r matches PartVerdict::Again(SinkError::Http { method, key: k, status: s })
                        && method@ == "PUT"@ && k@ == key@ && s == status
                } else {
                    r matches PartVerdict::Failed(SinkError::Http { method, key: k, status: s })
                        && method@ == "PUT"@ && k@ == key@ && s == status
                }
            },
        },
{
    match answer {
        PartAnswer::Failed(reason) => PartVerdict::Again(
            SinkError::Transport { method: "PUT", key: key.to_owned(), reason },
        ),
        PartAnswer::Status(status, etag) => {
            if 200 <= status && status <= 299 {
                match etag {
                    Some(e) => PartVerdict::Stored(e),
                    None => {
                        let mut why: String = "part ".to_owned();
                        why.append(text::dec(part_number as u64).as_str());
                        why.append(": no ETag");
                        PartVerdict::Failed(multipart_err(key, why.as_str()))
                    },
                }
            } else {
                let error: SinkError = SinkError::Http {
                    method: "PUT",
                    key: key.to_owned(),
                    status,
                };
                if error.is_retryable() {
                    PartVerdict::Again(error)
                } else {
                    PartVerdict::Failed(error)
                }
            }
        },
    }
}

/// Judge the status of a write-once PUT: stored, or refused because the key holds bytes.
pub fn put_verdict(key: &str, status: u16) -> (r: Result<PutOutcome, SinkError>)
    ensures
        match r {
            Ok(PutOutcome::Stored) => 200 <= status <= 299,
            Ok(PutOutcome::AlreadyPresent) => status == 412,
            Err(e) => !(200 <= status <= 299) && status != 412 && (e matches SinkError::Http {
                method,
                key: k,
                status: s,
            } && method@ == "PUT"@ && k@ == key@ && s == status),
        },
{
    if 200 <= status && status <= 299 {
        Ok(PutOutcome::Stored)
    } else if status == 412 {
        Ok(PutOutcome::AlreadyPresent)
    } else {
        Err(SinkError::Http { method: "PUT", key: key.to_owned(), status })
    }
}

/// Judge the status of a GET: whether there is a body to read.
pub fn get_verdict(key: &str, status: u16) -> (r: Result<(), SinkError>)
    ensures
        match r {
            Ok(()) => 200 <= status <= 299,
            Err(SinkError::NotFound(k)) => status == 404 && k@ == key@,
            Err(e) => !(200 <= status <= 299) && status != 404 && (e matches SinkError::Http {
                method,
                key: k,
                status: s,
            } && method@ == "GET"@ && k@ == key@ && s == status),
        },
{
    if 200 <= status && status <= 299 {
        Ok(())
    } else if status == 404 {
        Err(SinkError::NotFound(key.to_owned()))
    } else {
        Err(SinkError::Http { method: "GET", key: key.to_owned(), status })
    }
}

/// Judge the status of the one-byte probe for a key.
pub fn exists_verdict(key: &str, status: u16) -> (r: Result<bool, SinkError>)
    ensures
        match r {
            Ok(true) => 200 <= status <= 299,
            Ok(false) => status == 404,
            Err(e) => !(200 <= status <= 299) && status != 404 && (e matches SinkError::Http {
                method,
                key: k,
                status: s,
            } && method@ == "GET"@ && k@ == key@ && s == status),
        },
{
    match get_verdict(key, status) {
        Ok(()) => Ok(true),
        Err(SinkError::NotFound(_)) => Ok(false),
        Err(e) => Err(e),
    }
}

/// Judge the answer to the one-byte probe for an object's size.
pub fn size_verdict(
    key: &str,
    status: u16,
    content_range: Option<&str>,
    content_length: Option<&str>,
) -> (r: Result<Option<u64>, SinkError>)
    ensures
        match r {
            Ok(n) => (status == 200 || status == 206) && ({
                let a = announced_size(
                    status,
                    header_view(content_range),
                    header_view(content_length),
                );
                match n {
                    Some(x) => a == Some(x as nat),
                    None => a is None || a->0 > u64::MAX,
                }
            }),
            Err(SinkError::NotFound(k)) => status == 404 && k@ == key@,
            Err(e) => status != 200 && status != 206 && status != 404 && (
            e matches SinkError::Http { method, key: k, status: s } && method@ == "GET"@ && k@
                == key@ && s == status),
        },
{
    if status == 200 || status == 206 {
        Ok(size_from_headers(status, content_range, content_length))
    } else if status == 404 {
        Err(SinkError::NotFound(key.to_owned()))
    } else {
        Err(SinkError::Http { method: "GET", key: key.to_owned(), status })
    }
}

/// One part to upload.
#[derive(Debug, Clone, Copy, PartialEq, Eq, Structural)]
pub struct PartJob {
    /// Position, from 0.
    pub index: usize,
    /// Part number, from 1.
    pub number: u32,
    /// First byte.
    pub offset: u64,
    /// Bytes.
    pub len: u64,
}

/// The parts of one multipart upload, handed out to workers one by one.
pub struct PartUploads {
    /// Object size.
    pub size: u64,
    /// Bytes per part.
    pub part_size: u64,
    /// The next part to hand out.
    pub next: usize,
    /// The ETag of each part that is stored.
    pub etags: Vec<Option<String>>,
    /// The first failure.
    pub failed: Option<SinkError>,
}

/// Whether an object is worth asking part URLs for: an empty one is a single PUT.
pub fn wants_multipart(size: u64) -> (r: bool)
    ensures
        r == (size != 0),
{
    size != 0
}

/// What a mint of the wrong number of part URLs says.
pub open spec fn miscount_text(minted: nat, count: nat, part_size: nat) -> Seq<char> {
    "registrar minted "@ + text::decimal(minted) + " part urls for "@ + text::decimal(count)
        + " parts of "@ + text::decimal(part_size) + " bytes"@
}

impl PartUploads {
    /// Whether there is a place for each part, and the parts can be numbered.
    pub open spec fn wf(&self) -> bool {
        &&& self.part_size > 0
        &&& self.etags@.len() == parts_of(self.size as nat, self.part_size as nat)
        &&& self.etags@.len() <= u32::MAX
        &&& self.next <= self.etags@.len()
    }

    /// Begin the upload that `plan` gives URLs for; it has to give one for each part.
    pub fn plan(key: &str, size: u64, plan: &MultipartUrls) -> (r: Result<Self, SinkError>)
        requires
            plan.part_urls@.len() <= u32::MAX,
        ensures
            ({
                let count = parts_of(size as nat, plan.part_size as nat);
                match r {
                    Ok(u) => {
                        &&& u.wf()
                        &&& plan.part_size > 0
                        &&& plan.part_urls@.len() == count
                        &&& u.size == size
                        &&& u.part_size == plan.part_size
                        &&& u.next == 0
                        &&& u.failed is None
                        &&& forall|i: int|
                            0 <= i < u.etags@.len() ==> (#[trigger] u.etags@[i]) is None
                    },
                    Err(SinkError::Multipart { key: k, reason }) => {
                        &&& k@ == key@
                        &&& plan.part_size == 0 || plan.part_urls@.len() != count
                        &&& reason@ == if plan.part_size == 0 {
                            "registrar minted part_size 0"@
                        } else if count > usize::MAX {
                            "too many parts"@
                        } else {
                            miscount_text(
                                plan.part_urls@.len(),
                                count,
                                plan.part_size as nat,
                            )
                        }
                    },
                    Err(_) => false,
                }
            }),
    {
        if plan.part_size == 0 {
            return Err(multipart_err(key, "registrar minted part_size 0"));
        }
        let count: u64 = part_count(size, plan.part_size);
        if count > usize::MAX as u64 {
            return Err(multipart_err(key, "too many parts"));
        }
        if plan.part_urls.len() as u64 != count {
            let mut why: String = "registrar minted ".to_owned();
            why.append(text::dec(plan.part_urls.len() as u64).as_str());
            why.append(" part urls for ");
            why.append(text::dec(count).as_str());
            why.append(" parts of ");
            why.append(text::dec(plan.part_size).as_str());
            why.append(" bytes");
            return Err(multipart_err(key, why.as_str()));
        }
        let mut etags: Vec<Option<String>> = Vec::new();
        while (etags.len() as u64) < count
            invariant
                etags@.len() <= count <= u32::MAX,
                forall|i: int| 0 <= i < etags@.len() ==> (#[trigger] etags@[i]) is None,
            decreases count - etags@.len(),
        {
            etags.push(None);
        }
        Ok(PartUploads { size, part_size: plan.part_size, next: 0, etags, failed: None })
    }

    /// How many workers upload parts: `parts_in_flight`, but one at least and no more than there
    /// are parts.
    pub fn workers(&self, parts_in_flight: usize) -> (r: usize)
        requires
            self.wf(),
            self.size > 0,
        ensures
            r == if parts_in_flight < 1 {
                1
            } else if parts_in_flight > self.etags@.len() {
                self.etags@.len()
            } else {
                parts_in_flight as nat
            },
            1 <= r <= self.etags@.len(),
    {
        proof {
            lemma_some_part(self.size as nat, self.part_size as nat);
        }
        if parts_in_flight < 1 {
            1
        } else if parts_in_flight > self.etags.len() {
            self.etags.len()
        } else {
            parts_in_flight
        }
    }

    /// The next part to upload; none once all are handed out, or one has failed.
    pub fn claim(&mut self) -> (r: Option<PartJob>)
        requires
            old(self).wf(),
        ensures
            final(self).wf(),
            final(self).size == old(self).size,
            final(self).part_size == old(self).part_size,
            final(self).etags == old(self).etags,
            final(self).failed == old(self).failed,
            match r {
                Some(job) => {
                    &&& old(self).failed is None
                    &&& old(self).next < old(self).etags@.len()
                    &&& final(self).next == old(self).next + 1
                    &&& job.index == old(self).next
                    &&& job.number == job.index + 1
                    &&& job.offset == job.index * old(self).part_size
                    &&& job.len == part_len(
                        job.index as nat,
                        old(self).part_size as nat,
                        old(self).size as nat,
                    )
                },
                None => {
                    &&& old(self).failed is Some || old(self).next == old(self).etags@.len()
                    &&& final(self).next == old(self).next
                },
            },
    {
        if self.failed.is_some() || self.next >= self.etags.len() {
            return None;
        }
        let index: usize = self.next;
        proof {
            lemma_part_starts_inside(index as nat, self.part_size as nat, self.size as nat);
        }
        let (offset, len) = part_range(index, self.part_size, self.size);
        self.next = index + 1;
        Some(PartJob { index, number: index as u32 + 1, offset, len })
    }

    /// A part is stored.
    pub fn stored(&mut self, index: usize, etag: String)
        requires
            old(self).wf(),
            index < old(self).etags@.len(),
        ensures
            final(self).wf(),
            final(self).size == old(self).size,
            final(self).part_size == old(self).part_size,
            final(self).next == old(self).next,
            final(self).failed == old(self).failed,
            final(self).etags@ == old(self).etags@.update(index as int, Some(etag)),
    {
        self.etags.set(index, Some(etag));
    }

    /// A part has failed for good; the first failure is the one that counts.
    pub fn fail(&mut self, error: SinkError)
        requires
            old(self).wf(),
        ensures
            final(self).wf(),
            final(self).size == old(self).size,
            final(self).part_size == old(self).part_size,
            final(self).next == old(self).next,
            final(self).etags == old(self).etags,
            final(self).failed == if old(self).failed is Some {
                old(self).failed
            } else {
                Some(error)
            },
    {
        if self.failed.is_none() {
            self.failed = Some(error);
        }
    }

    /// The parts for the complete call: every one, in order, with its ETag; or the first failure,
    /// or the first part that was never uploaded.
    pub fn finish(self, key: &str) -> (r: Result<Vec<CompletedPart>, SinkError>)
        requires
            self.wf(),
        ensures
            match self.failed {
                Some(e) => r == Err::<Vec<CompletedPart>, SinkError>(e),
                None => match r {
                    Ok(parts) => {
                        &&& parts@.len() == self.etags@.len()
                        &&& forall|i: int|
                            0 <= i < parts@.len() ==> (#[trigger] parts@[i]).part_number == i + 1
                                && self.etags@[i] == Some(parts@[i].etag)
                    },
                    Err(SinkError::Multipart { key: k, reason }) => {
                        &&& k@ == key@
                        &&& exists|i: int|
                            {
                                &&& 0 <= i < self.etags@.len()
                                &&& (#[trigger] self.etags@[i]) is None
                                &&& forall|j: int| 0 <= j < i ==> self.etags@[j] is Some
                                &&& reason@ == "part "@ + text::decimal((i + 1) as nat)
                                    + " never uploaded"@
                            }
                    },
                    Err(_) => false,
                },
            },
    {
        let ghost all = self.etags@;
        let ghost failure = self.failed;
        let PartUploads { etags, failed, .. } = self;
        match failed {
            Some(e) => {
                return Err(e);
            },
            None => {},
        }
        let mut parts: Vec<CompletedPart> = Vec::new();
        let mut i: usize = 0;
        while i < etags.len()
            invariant
                0 <= i <= etags@.len() <= u32::MAX,
                all == etags@,
                failure is None,
                failure == self.failed,
                all == self.etags@,
                parts@.len() == i,
                forall|j: int|
                    0 <= j < i ==> (#[trigger] parts@[j]).part_number == j + 1 && all[j] == Some(
                        parts@[j].etag,
                    ),
            decreases etags@.len() - i,
        {
            match &etags[i] {
                Some(etag) => {
                    parts.push(
                        CompletedPart { part_number: i as u32 + 1, etag: etag.clone() },
                    );
                },
                None => {
                    let mut why: String = "part ".to_owned();
                    why.append(text::dec(i as u64 + 1).as_str());
                    why.append(" never uploaded");
                    assert(all[i as int] is None);
                    assert forall|j: int| 0 <= j < i implies all[j] is Some by {
                        assert(parts@[j].part_number == j + 1);
                    }
                    return Err(multipart_err(key, why.as_str()));
                },
            }
            i = i + 1;
        }
        Ok(parts)
    }
}

proof fn lemma_some_part(size: nat, part_size: nat)
    requires
        part_size > 0,
        size > 0,
    ensures
        parts_of(size, part_size) >= 1,
{
    if parts_of(size, part_size) == 0 {
        vstd::arithmetic::div_mod::lemma_fundamental_div_mod(size as int, part_size as int);
        assert(part_size * 0 == 0) by (nonlinear_arith);
    }
}

/// Whether the size of a completed object has to be asked for.
pub fn needs_size(completed: &Completed) -> (r: bool)
    ensures
        r == (completed.outcome == PutOutcome::Stored && completed.size is None),
{
    completed.outcome == PutOutcome::Stored && completed.size.is_none()
}

/// What an upload that assembled to the wrong size says.
pub open spec fn wrong_size_text(found: nat, expected: nat) -> Seq<char> {
    "assembled object is "@ + text::decimal(found) + " bytes, expected "@ + text::decimal(expected)
}

/// The outcome of a completed upload of `size` bytes. Where the complete reported no size,
/// `remote` is the size that was asked for; an object that was stored with another size is
/// refused.
pub fn assembled(key: &str, size: u64, completed: &Completed, remote: Option<u64>) -> (r: Result<
    PutOutcome,
    SinkError,
>)
    ensures
        ({
            let reported = if completed.size is Some {
                completed.size
            } else {
                remote
            };
            let wrong = completed.outcome == PutOutcome::Stored && reported is Some && reported->0
                != size;
            match r {
                Ok(outcome) => !wrong && outcome == completed.outcome,
                Err(SinkError::Multipart { key: k, reason }) => wrong && k@ == key@ && reason@
                    == wrong_size_text(reported->0 as nat, size as nat),
                Err(_) => false,
            }
        }),
{
    let reported: Option<u64> = match completed.size {
        Some(n) => Some(n),
        None => remote,
    };
    if completed.outcome == PutOutcome::Stored {
        if let Some(n) = reported {
            if n != size {
                let mut why: String = "assembled object is ".to_owned();
                why.append(text::dec(n).as_str());
                why.append(" bytes, expected ");
                why.append(text::dec(size).as_str());
                return Err(multipart_err(key, why.as_str()));
            }
        }
    }
    Ok(completed.outcome)
}

/// The parts of an object are as many as it takes, and each but the last is full: together they are
/// the object, and no fewer would do.
pub proof fn law_parts_are_as_many_as_it_takes(size: u64, part_size: u64, count: u64)
    requires
        part_size > 0,
        call_ensures(part_count, (size, part_size), count),
    ensures
        count * part_size >= size,
        count > 0 ==> (count - 1) * part_size < size,
        size == 0 ==> count == 0,
{
    let (s, p) = (size as int, part_size as int);
    vstd::arithmetic::div_mod::lemma_fundamental_div_mod(s, p);
    let q = s / p;
    assert(s == p * q + s % p);
    assert(p * q == q * p) by (nonlinear_arith);
    assert((q + 1) * p == q * p + p) by (nonlinear_arith);
    assert(0 <= s % p < p) by {
        vstd::arithmetic::div_mod::lemma_mod_bound(s, p);
    }
    if count > 0 {
        assert((q - 1) * p == q * p - p) by (nonlinear_arith);
    }
    if size == 0 {
        assert(s % p == 0 && q == 0) by {
            vstd::arithmetic::div_mod::lemma_div_basics_1(p);
            vstd::arithmetic::div_mod::lemma_small_mod(0, p as nat);
        }
    }
}

/// A part covers the bytes from its offset on, as many as fit and are left.
pub proof fn law_a_part_covers_its_own_bytes(
    index: usize,
    part_size: u64,
    size: u64,
    r: (u64, u64),
    next: (u64, u64),
)
    requires
        index < usize::MAX,
        (index + 1) * part_size <= u64::MAX,
        call_ensures(part_range, (index, part_size, size), r),
        call_ensures(part_range, ((index + 1) as usize, part_size, size), next),
    ensures
        r.0 == index * part_size,
        r.1 <= part_size,
        r.0 < size ==> r.0 + r.1 <= size,
        r.0 + part_size <= size ==> r.1 == part_size,
        r.0 <= size && r.0 + part_size > size ==> r.0 + r.1 == size,
        next.0 == r.0 + part_size,
        next.1 > 0 ==> r.0 + r.1 == next.0,
{
    assert((index + 1) * part_size == index * part_size + part_size) by (nonlinear_arith);
}

/// Workers take the parts one after the other, each once, in order, with the bytes that are theirs,
/// until there are no more or one has failed.
pub proof fn law_parts_are_claimed_in_order(
    uploads: &mut PartUploads,
    job: Option<PartJob>,
    again: &mut PartUploads,
    second: Option<PartJob>,
)
    requires
        old(uploads).wf(),
        call_ensures(PartUploads::claim, (uploads,), job),
        *old(again) == *final(uploads),
        call_ensures(PartUploads::claim, (again,), second),
    ensures
        job is Some <==> old(uploads).failed is None && old(uploads).next < old(uploads).etags@.len(),
        job matches Some(a) ==> a.index == old(uploads).next && a.number == a.index + 1
            && a.offset == a.index * old(uploads).part_size,
        job is Some && second is Some ==> second->0.index == job->0.index + 1,
        job is None ==> second is None && *final(again) == *old(uploads),
        final(again).etags == old(uploads).etags,
{
}

/// An upload is finished only when every part was stored: the list has each part's number and ETag,
/// in order; a failure, or a part that was never stored, is an error.
pub proof fn law_a_finished_upload_lists_every_part(
    uploads: PartUploads,
    key: &str,
    r: Result<Vec<CompletedPart>, SinkError>,
    i: int,
)
    requires
        uploads.wf(),
        call_ensures(PartUploads::finish, (uploads, key), r),
    ensures
        r is Ok <==> uploads.failed is None && forall|k: int|
            0 <= k < uploads.etags@.len() ==> (#[trigger] uploads.etags@[k]) is Some,
        r matches Ok(parts) ==> parts@.len() == uploads.etags@.len() && (0 <= i < parts@.len()
            ==> parts@[i].part_number == i + 1 && uploads.etags@[i] == Some(parts@[i].etag)),
        uploads.failed matches Some(e) ==> r == Err::<Vec<CompletedPart>, SinkError>(e),
{
    if let Ok(parts) = r {
        if uploads.failed is None {
            assert forall|k: int| 0 <= k < uploads.etags@.len() implies (
            #[trigger] uploads.etags@[k]) is Some by {
                assert(parts@[k].part_number == k + 1);
            }
            if 0 <= i < parts@.len() {
                assert(parts@[i].part_number == i + 1);
            }
        }
    }
}

/// A stored part stays stored, and the first failure is the one that counts.
pub proof fn law_the_first_failure_counts(
    uploads: &mut PartUploads,
    index: usize,
    etag: String,
    fails: &mut PartUploads,
    first: SinkError,
    again: &mut PartUploads,
    second: SinkError,
    i: int,
)
    requires
        old(uploads).wf(),
        index < old(uploads).etags@.len(),
        call_ensures(PartUploads::stored, (uploads, index, etag), ()),
        *old(fails) == *final(uploads),
        call_ensures(PartUploads::fail, (fails, first), ()),
        *old(again) == *final(fails),
        call_ensures(PartUploads::fail, (again, second), ()),
    ensures
        final(uploads).etags@[index as int] == Some(etag),
        0 <= i < old(uploads).etags@.len() && i != index ==> final(uploads).etags@[i] == old(uploads).etags@[i],
        final(uploads).etags@.len() == old(uploads).etags@.len(),
        old(uploads).failed is None ==> final(again).failed == Some(first),
        old(uploads).failed is Some ==> final(again).failed == old(uploads).failed,
        final(again).etags == final(uploads).etags,
{
}

/// A part is stored only by a success with an ETag; what may pass is tried again, and anything else
/// fails the upload.
pub proof fn law_a_part_is_stored_only_with_an_etag(
    key: &str,
    number: u32,
    answer: PartAnswer,
    r: PartVerdict,
)
    requires
        call_ensures(judge_part, (key, number, answer), r),
    ensures
        answer is Failed ==> r is Again,
        answer matches PartAnswer::Status(status, etag) ==> {
            &&& r is Stored <==> 200 <= status < 300 && etag is Some
            &&& r is Stored ==> r->Stored_0 == etag->0
            &&& r is Again <==> status >= 500 || status == 429 || status == 408
            &&& 200 <= status < 300 && etag is None ==> r is Failed
        },
{
}

/// What a store answers: a put is stored by a success, present where the key is taken, and an error
/// otherwise; an object is there, is not, or cannot be told.
pub proof fn law_store_answers_are_told_apart(
    key: &str,
    status: u16,
    put: Result<PutOutcome, SinkError>,
    get: Result<(), SinkError>,
    there: Result<bool, SinkError>,
)
    requires
        call_ensures(put_verdict, (key, status), put),
        call_ensures(get_verdict, (key, status), get),
        call_ensures(exists_verdict, (key, status), there),
    ensures
        put == Ok::<PutOutcome, SinkError>(PutOutcome::Stored) <==> 200 <= status < 300,
        put == Ok::<PutOutcome, SinkError>(PutOutcome::AlreadyPresent) <==> status == 412,
        put is Err <==> !(200 <= status < 300) && status != 412,
        get is Ok <==> 200 <= status < 300,
        status == 404 ==> get is Err && get->Err_0 is NotFound,
        there == Ok::<bool, SinkError>(true) <==> 200 <= status < 300,
        there == Ok::<bool, SinkError>(false) <==> status == 404,
        put is Err ==> put->Err_0 is Http && put->Err_0->Http_status == status,
        there is Err ==> there->Err_0 is Http && there->Err_0->Http_status == status,
{
}

/// A key never leads out of the store: whatever it holds, its path lies below the store's directory,
/// with none of its steps going up.
pub proof fn law_a_key_stays_in_its_store(store: LocalDir, key: &str, r: FsPath, i: int, j: int)
    requires
        call_ensures(LocalDir::path_for, (&store, key), r),
    ensures
        r@.starts_with(store.place()),
        store.place().parts.len() <= i < r@.parts.len() ==> r@.parts[i] != ".."@ && r@.parts[i]
            != "."@ && r@.parts[i].len() > 0,
        0 <= j < text::pieces(key@, '/').len() && text::pieces(key@, '/')[j].len() > 0
            && text::pieces(key@, '/')[j] != ".."@ && text::pieces(key@, '/')[j] != "."@
            ==> r@.parts.skip(store.place().parts.len() as int).contains(
            text::pieces(key@, '/')[j],
        ),
{
    let f = |s: Seq<char>| is_kept_segment(s);
    let kept = text::pieces(key@, '/').filter(f);
    assert(r@.parts == store.place().parts + kept);
    assert(r@.parts.skip(store.place().parts.len() as int) =~= kept);
    if 0 <= j < text::pieces(key@, '/').len() && is_kept_segment(text::pieces(key@, '/')[j]) {
        text::pieces(key@, '/').lemma_filter_contains(f, j);
    }
    if store.place().parts.len() <= i < r@.parts.len() {
        assert(r@.parts[i] == kept[i - store.place().parts.len()]);
        text::pieces(key@, '/').lemma_filter_pred(f, i - store.place().parts.len());
    }
}

/// An upload in parts begins only with one URL for each of its parts.
pub proof fn law_every_part_needs_a_url(
    key: &str,
    size: u64,
    plan: MultipartUrls,
    r: Result<PartUploads, SinkError>,
    count: u64,
    workers: usize,
    parts_in_flight: usize,
)
    requires
        plan.part_urls@.len() <= u32::MAX,
        plan.part_size > 0,
        call_ensures(part_count, (size, plan.part_size), count),
        call_ensures(PartUploads::plan, (key, size, &plan), r),
        r is Ok && size > 0 ==> call_ensures(
            PartUploads::workers,
            (&r->Ok_0, parts_in_flight),
            workers,
        ),
    ensures
        r is Ok <==> plan.part_urls@.len() == count,
        r matches Ok(u) ==> u.size == size && u.part_size == plan.part_size && u.etags@.len()
            == count && u.next == 0 && u.failed is None && forall|i: int|
            0 <= i < u.etags@.len() ==> (#[trigger] u.etags@[i]) is None,
        r is Err ==> r->Err_0 is Multipart,
        r is Ok && size > 0 ==> 1 <= workers <= count && (parts_in_flight >= 1 ==> workers
            <= parts_in_flight),
        r is Ok && size > 0 && 1 <= parts_in_flight <= count ==> workers == parts_in_flight,
{
}

/// An object that was put together is taken only with the size that it was sent with, as far as the
/// store tells one; an object that was there before is what it is.
pub proof fn law_an_assembled_object_has_its_size(
    key: &str,
    size: u64,
    completed: Completed,
    remote: Option<u64>,
    r: Result<PutOutcome, SinkError>,
    asks: bool,
)
    requires
        call_ensures(assembled, (key, size, &completed, remote), r),
        call_ensures(needs_size, (&completed,), asks),
    ensures
        completed.outcome == PutOutcome::AlreadyPresent ==> r == Ok::<PutOutcome, SinkError>(
            PutOutcome::AlreadyPresent,
        ),
        completed.outcome == PutOutcome::Stored && completed.size is Some ==> (r is Ok
            <==> completed.size->0 == size),
        completed.outcome == PutOutcome::Stored && completed.size is None && remote is Some ==> (
        r is Ok <==> remote->0 == size),
        r is Ok ==> r->Ok_0 == completed.outcome,
        asks <==> completed.outcome == PutOutcome::Stored && completed.size is None,
{
}

/// Attempts at a part are made as often as the policy allows, and at least once, with waits that
/// start after the first.
pub proof fn law_parts_are_tried_as_often_as_allowed(
    retry: PartRetry,
    fresh: Attempts,
    first: Attempt,
    attempts: &mut Attempts,
    now: Attempt,
    error: SinkError,
    then: Attempt,
    key: &str,
    why: SinkError,
)
    requires
        call_ensures(Attempts::new, (retry,), fresh),
        call_ensures(Attempts::next, (&fresh,), first),
        old(attempts).wf(),
        call_ensures(Attempts::next, (&*old(attempts),), now),
        now is Try,
        call_ensures(Attempts::failed, (attempts, error), ()),
        call_ensures(Attempts::next, (&*final(attempts),), then),
        call_ensures(Attempts::give_up, (*final(attempts), key), why),
    ensures
        first == Attempt::Try(0),
        old(attempts).made < old(attempts).retry.attempts || old(attempts).made == 0,
        final(attempts).made == old(attempts).made + 1,
        then is GiveUp <==> final(attempts).made >= old(attempts).retry.attempts,
        then matches Attempt::Try(wait) ==> wait <= old(attempts).retry.max_backoff,
        why == error,
{
}

/// The size of an object is told by what stands behind the last slash of a partial answer's range,
/// or by the length of a whole one, and by no other answer.
pub proof fn law_sizes_are_told_by_the_headers(
    status: u16,
    range: Option<&str>,
    length: Option<&str>,
    r: Option<u64>,
    n: u64,
    before: Seq<char>,
    key: &str,
    verdict: Result<Option<u64>, SinkError>,
)
    requires
        call_ensures(size_from_headers, (status, range, length), r),
        call_ensures(size_verdict, (key, status, range, length), verdict),
    ensures
        status == 206 && range is Some && range->0@ == before + seq!['/'] + text::decimal(n as nat)
            ==> r == Some(n),
        status == 200 && length is Some && length->0@ == text::decimal(n as nat) ==> r == Some(n),
        status != 200 && status != 206 ==> r is None,
        verdict is Ok <==> status == 200 || status == 206,
        verdict is Ok ==> verdict->Ok_0 == r,
        status == 404 ==> verdict is Err && verdict->Err_0 is NotFound,
{
    let d = text::decimal(n as nat);
    text::lemma_decimal_value(n as nat);
    assert(text::is_digit(d[0]));
    assert(text::is_digit(d[d.len() - 1]));
    assert(text::without_white_start(d) == d);
    assert(text::without_white_end(d) == d);
    assert(text::unsigned_part(d) == d);
    assert(text::numeral(text::stripped(d)) == Some(n as nat));
    if status == 206 && range is Some && range->0@ == before + seq!['/'] + d {
        let s = range->0@;
        let at = before.len() as int;
        assert(s[at] == '/');
        assert forall|k: int| at < k < s.len() implies s[k] != '/' by {
            assert(s[k] == d[k - at - 1]);
            assert(text::is_digit(d[k - at - 1]));
        }
        text::lemma_last_index_is(s, '/', at);
        assert(s.skip(at + 1) =~= d);
    }
}

/// An object is as long as it says, and empty only if it has no byte.
pub proof fn law_sources_know_their_length(bytes: &[u8], at: FsPath, n: u64, a: u64, b: u64, empty: bool)
    requires
        call_ensures(BlobSource::len, (&BlobSource::Bytes(bytes),), a),
        call_ensures(BlobSource::len, (&BlobSource::File(&at, n),), b),
        call_ensures(BlobSource::is_empty, (&BlobSource::File(&at, n),), empty),
    ensures
        a == bytes@.len(),
        b == n,
        empty <==> n == 0,
{
}

} // verus!
