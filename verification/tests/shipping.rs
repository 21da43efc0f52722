use sealant_capture::chunk::sha256_hex;
use sealant_capture::engine::Class;
use sealant_capture::manifest::{
    BulkState, CaptureKind, FsckStatus, GitSection, Manifest, Sections, WorkspaceSection,
};
use sealant_capture::order::SortedMap;
use sealant_capture::pacing::MILLISECOND;
use sealant_capture::paths::FsPath;
use sealant_capture::registrar::{
    completion, CompleteRefusal, CompletedPart, InMemoryRegistrar, MultipartCompleter,
    MultipartPolicy, RegisterRequest, Registrar, RegistrarError, RegistrarMinter,
    UploadCompleteRequest,
};
use sealant_capture::ship::{
    batch_end, batch_keys, discard_unreferenced, flushed, is_listed, judge_prefetch, may_ship,
    pending, settle, take_up, EntryAction, FlushStep, MultipartConfig, PassStep, QueueEntry,
    RegisterRun, RegisterStep, RetryPolicy, ShipError, ShipStatus, Staging, Upload, UploadAction,
    UploadRun, UploadStep, PREFETCH_BATCH,
};
use sealant_capture::sink::{
    assembled, judge_part, Attempt, Attempts, PartAnswer, PartRetry, PartUploads, PartVerdict,
    PutOutcome, SinkError, UrlMinter,
};
use std::cell::RefCell;
use std::collections::{BTreeMap, BTreeSet};

const PART: u64 = 64 * 1024;
const THRESHOLD: u64 = 256 * 1024;

fn bytes(n: usize, seed: u32) -> Vec<u8> {
    (0..n as u32).map(|i| ((i ^ seed) % 251) as u8).collect()
}

fn etag(part: &[u8]) -> String {
    format!("\"{}\"", sha256_hex(part))
}

fn manifest(n: u64) -> Manifest {
    Manifest {
        worktree_id: "wt".into(),
        n,
        parent: None,
        epoch: 1,
        seq: 0,
        kind: CaptureKind::Auto,
        created_at: String::new(),
        sections: Sections {
            git: GitSection {
                packs: Vec::new(),
                refs: SortedMap::new(),
                head: "HEAD".into(),
                fsck: FsckStatus::Unverified,
            },
            workspace: WorkspaceSection { root: String::new(), packs: Vec::new() },
            bulk: BulkState::pending(),
        },
        checkpoint: None,
    }
}

fn entry(n: u64, id: &str, uploads: Vec<Upload>) -> QueueEntry {
    QueueEntry {
        n,
        capture_id: id.to_owned(),
        kind: CaptureKind::Auto,
        class: Some(Class::Small),
        uploads,
        register: RegisterRequest {
            worktree_id: "wt".into(),
            epoch: 1,
            n,
            parent: if n > 0 { Some(format!("cap-{}", n - 1)) } else { None },
            capture_id: id.to_owned(),
            manifest_key: format!("captures/wt/1/manifests/{id}"),
            manifest: manifest(n),
        },
    }
}

/// An object store that takes single PUTs and parts.
#[derive(Default)]
struct Store {
    objects: RefCell<BTreeMap<String, Vec<u8>>>,
    parts: RefCell<BTreeMap<(String, u32), Vec<u8>>>,
    calls: RefCell<Vec<(String, Vec<CompletedPart>)>>,
    part_puts: RefCell<u32>,
    single_puts: RefCell<u32>,
    /// Fail this part the first time it comes.
    fail_part_once: RefCell<u32>,
}

impl MultipartCompleter for Store {
    fn complete(
        &self,
        key: &str,
        upload_id: &str,
        parts: &Vec<CompletedPart>,
    ) -> Result<Option<u64>, CompleteRefusal> {
        self.calls.borrow_mut().push((
            key.to_owned(),
            parts
                .iter()
                .map(|p| CompletedPart { part_number: p.part_number, etag: p.etag.clone() })
                .collect(),
        ));
        if self.objects.borrow().contains_key(key) {
            return Err(CompleteRefusal::Exists);
        }
        let mut body = Vec::new();
        for p in parts {
            match self.parts.borrow().get(&(upload_id.to_owned(), p.part_number)) {
                Some(part) if etag(part) == p.etag => body.extend_from_slice(part),
                _ => return Err(CompleteRefusal::BadParts("no such part".into())),
            }
        }
        let n = body.len() as u64;
        self.objects.borrow_mut().insert(key.to_owned(), body);
        Ok(Some(n))
    }
}

impl Store {
    fn put_part(&self, upload_id: &str, number: u32, part: &[u8]) -> PartAnswer {
        *self.part_puts.borrow_mut() += 1;
        if *self.fail_part_once.borrow() == number {
            *self.fail_part_once.borrow_mut() = 0;
            return PartAnswer::Status(500, None);
        }
        self.parts.borrow_mut().insert((upload_id.to_owned(), number), part.to_vec());
        PartAnswer::Status(200, Some(etag(part)))
    }

    fn put(&self, key: &str, body: &[u8]) -> Result<PutOutcome, SinkError> {
        *self.single_puts.borrow_mut() += 1;
        let mut objects = self.objects.borrow_mut();
        if objects.contains_key(key) {
            return Ok(PutOutcome::AlreadyPresent);
        }
        objects.insert(key.to_owned(), body.to_vec());
        Ok(PutOutcome::Stored)
    }
}

struct Fixture {
    staging: Staging,
    queue: Vec<QueueEntry>,
    files: BTreeMap<String, Vec<u8>>,
    acked: BTreeSet<String>,
    store: Store,
    minter: RegistrarMinter<InMemoryRegistrar>,
    status: ShipStatus,
    workers: usize,
}

fn fixture(multipart: bool) -> Fixture {
    let registrar = InMemoryRegistrar::new("wt", 1, Some("http://store".into()));
    let registrar = if multipart {
        registrar.with_multipart(MultipartPolicy { threshold: THRESHOLD, part_size: PART })
    } else {
        registrar
    };
    Fixture {
        staging: Staging::open(&FsPath::of("/staging"), "wt", 1),
        queue: Vec::new(),
        files: BTreeMap::new(),
        acked: BTreeSet::new(),
        store: Store::default(),
        minter: RegistrarMinter::new(registrar, "wt", 1, SortedMap::new()),
        status: ShipStatus::new(),
        workers: 0,
    }
}

impl Fixture {
    fn stage(&mut self, name: &str, body: &[u8]) -> Upload {
        self.files.insert(name.to_owned(), body.to_vec());
        Upload {
            key: format!("captures/wt/1/packs/{name}"),
            file: name.to_owned(),
            bytes: body.len() as u64,
        }
    }

    fn put_multipart(&mut self, key: &str, body: &[u8]) -> Result<PutOutcome, SinkError> {
        let size = body.len() as u64;
        let Some(plan) = self.minter.multipart_urls(key, size)? else {
            self.minter.put_url(key, size)?;
            return self.store.put(key, body);
        };
        let mut uploads = PartUploads::plan(key, size, &plan)?;
        self.workers = uploads.workers(4);
        while let Some(job) = uploads.claim() {
            let part = &body[job.offset as usize..(job.offset + job.len) as usize];
            let mut attempts =
                Attempts::new(PartRetry { attempts: 3, backoff: 10, max_backoff: 50 });
            while let Attempt::Try(_) = attempts.next() {
                match judge_part(
                    key,
                    job.number,
                    self.store.put_part(&plan.upload_id, job.number, part),
                ) {
                    PartVerdict::Stored(etag) => {
                        uploads.stored(job.index, etag);
                        break;
                    }
                    PartVerdict::Again(e) => attempts.failed(e),
                    PartVerdict::Failed(e) => {
                        uploads.fail(e);
                        break;
                    }
                }
            }
        }
        let parts = uploads.finish(key)?;
        let request = UploadCompleteRequest {
            worktree_id: "wt".into(),
            epoch: 1,
            key: key.to_owned(),
            upload_id: plan.upload_id.clone(),
            parts,
        };
        let answer = self.minter.registrar.complete_with(&request, &self.store);
        assembled(key, size, &completion(key, answer)?, None)
    }

    fn upload(&mut self, upload: &Upload) -> Result<(), ShipError> {
        let retry = RetryPolicy::default();
        let multipart =
            MultipartConfig { threshold: THRESHOLD, part_size: PART, parts_in_flight: 4 };
        let mut run = UploadRun::new();
        loop {
            let present = self.files.contains_key(&upload.file);
            let step = match run.next(upload, present, &retry, &multipart) {
                UploadAction::Exhausted => return Err(run.exhausted(upload)),
                UploadAction::Probe => {
                    let held = self.store.objects.borrow().contains_key(&upload.key);
                    run.probed(upload, &retry, Ok(held))
                }
                UploadAction::PutMultipart(..) => {
                    let body = self.files[&upload.file].clone();
                    let answer = self.put_multipart(&upload.key, &body);
                    run.put(upload, &retry, answer, &mut self.status)
                }
                UploadAction::PutSingle => {
                    let body = self.files[&upload.file].clone();
                    let answer = match self.minter.put_url(&upload.key, upload.bytes) {
                        Ok(_) => self.store.put(&upload.key, &body),
                        Err(e) => Err(e),
                    };
                    run.put(upload, &retry, answer, &mut self.status)
                }
            };
            match step {
                UploadStep::Uploaded => {
                    self.acked.insert(upload.file.clone());
                    return Ok(());
                }
                UploadStep::Failed(e) => return Err(e),
                UploadStep::Wait(_) => {}
            }
        }
    }

    fn ship(&mut self, entry: &QueueEntry) -> Result<(), ShipError> {
        let uploads = &entry.uploads;
        let mut at = 0;
        while at < uploads.len() {
            let ready: Vec<bool> = uploads
                .iter()
                .map(|u| self.files.contains_key(&u.file) && !self.acked.contains(&u.file))
                .collect();
            let end = batch_end(uploads, &ready, at, THRESHOLD);
            if end == at {
                self.upload(&uploads[at])?;
                at += 1;
                continue;
            }
            judge_prefetch(self.minter.prefetch_put(&batch_keys(uploads, at, end)))?;
            for u in &uploads[at..end] {
                self.upload(u)?;
            }
            at = end;
        }
        let retry = RetryPolicy::default();
        let mut run = RegisterRun::new();
        while run.goes_on(&retry) {
            let answer = self.minter.registrar.capture_register(&entry.register);
            let foreign = self.staging.is_foreign(entry);
            match run.answered(entry.n, foreign, &retry, answer, &mut self.status) {
                RegisterStep::Registered => return Ok(()),
                RegisterStep::Failed(e) => return Err(e),
                RegisterStep::Wait(_) => {}
            }
        }
        Err(run.exhausted(entry.n))
    }

    /// One pass over the queue: how many captures were shipped.
    fn ship_pending(&mut self) -> Result<usize, ShipError> {
        if !may_ship(&self.status) {
            return Ok(0);
        }
        let mut shipped = 0;
        self.queue = pending(std::mem::take(&mut self.queue));
        while !self.queue.is_empty() {
            let first = self.queue.remove(0);
            match take_up(&mut self.staging, &first, Some(&first)) {
                EntryAction::Stop => panic!("nothing replaced it"),
                EntryAction::Drop => continue,
                EntryAction::Ship => {}
            }
            let result = self.ship(&first);
            match settle(&mut self.staging, &first, result, &mut self.status) {
                PassStep::Acked => shipped += 1,
                PassStep::Refused(refusal) => {
                    self.queue.insert(0, first);
                    let drop = self.staging.drop_refused(
                        &self.queue,
                        &self.queue[0],
                        refusal,
                    );
                    self.queue.retain(|e| !drop.contains(&e.n));
                    return Ok(shipped);
                }
                PassStep::Failed(e) => {
                    self.queue.insert(0, first);
                    return Err(e);
                }
            }
        }
        Ok(shipped)
    }
}

/// A large object goes up as parts with several in flight, its ETags are reported, the registrar
/// completes it once; a small object in the same capture is a single PUT.
#[test]
fn large_objects_ship_as_multipart_with_parts_in_flight() {
    let mut fx = fixture(true);
    let big = bytes(5 * PART as usize - 100, 7);
    let small = bytes(1000, 3);
    let uploads = vec![fx.stage("big", &big), fx.stage("small", &small)];
    fx.queue.push(entry(0, "cap-0", uploads));

    assert_eq!(fx.ship_pending().ok(), Some(1));

    assert_eq!(*fx.store.part_puts.borrow(), 5);
    assert_eq!(*fx.store.single_puts.borrow(), 1);
    assert!(fx.workers >= 2, "parts in flight at once: {}", fx.workers);
    let objects = fx.store.objects.borrow();
    assert_eq!(objects["captures/wt/1/packs/big"], big);
    assert_eq!(objects["captures/wt/1/packs/small"], small);
    let calls = fx.store.calls.borrow();
    assert_eq!(calls.len(), 1, "complete called once");
    let (key, parts) = &calls[0];
    assert_eq!(key, "captures/wt/1/packs/big");
    assert_eq!(parts.iter().map(|p| p.part_number).collect::<Vec<_>>(), [1, 2, 3, 4, 5]);
    let expected: Vec<String> = big.chunks(PART as usize).map(etag).collect();
    assert_eq!(
        parts.iter().map(|p| p.etag.clone()).collect::<Vec<_>>(),
        expected,
        "ETags reported verbatim"
    );
    assert_eq!(fx.minter.registrar.completes(), 1);
    assert_eq!(fx.minter.registrar.open_uploads(), 0);
    let status = fx.status.snapshot();
    assert_eq!(status.uploaded_objects, 2);
    assert_eq!(status.already_present, 0);
    assert_eq!(status.head_n, Some(0));
    assert!(fx.queue.is_empty());
}

/// A key the store already holds: the registrar's write-once complete answers `exists`, which
/// counts as already present (content-addressed keys hold identical bytes).
#[test]
fn existing_key_completes_as_already_present() {
    let mut fx = fixture(true);
    let big = bytes(5 * PART as usize, 11);
    let upload = fx.stage("big", &big);
    fx.store.objects.borrow_mut().insert(upload.key.clone(), big.clone());
    fx.queue.push(entry(0, "cap-0", vec![upload]));

    assert_eq!(fx.ship_pending().ok(), Some(1));

    let status = fx.status.snapshot();
    assert_eq!(status.already_present, 1);
    assert_eq!(status.uploaded_objects, 0);
    assert_eq!(status.failures, 0);
    assert_eq!(fx.minter.registrar.completes(), 1);
    assert_eq!(*fx.store.part_puts.borrow(), 5);
    assert_eq!(fx.store.objects.borrow()["captures/wt/1/packs/big"], big);
    assert!(fx.queue.is_empty());
}

/// A part that fails once is retried on its own; the object still assembles from one upload.
#[test]
fn a_failed_part_is_retried() {
    let mut fx = fixture(true);
    *fx.store.fail_part_once.borrow_mut() = 3;
    let big = bytes(4 * PART as usize + 17, 5);
    let upload = fx.stage("big", &big);
    fx.queue.push(entry(0, "cap-0", vec![upload]));

    assert_eq!(fx.ship_pending().ok(), Some(1));

    assert_eq!(*fx.store.fail_part_once.borrow(), 0);
    assert_eq!(*fx.store.part_puts.borrow(), 6, "five parts, one of them twice");
    assert_eq!(fx.minter.registrar.completes(), 1);
    assert_eq!(fx.store.objects.borrow()["captures/wt/1/packs/big"], big);
    assert_eq!(fx.status.snapshot().uploaded_objects, 1);
}

/// A registrar that answers `sizes` with a plain PUT URL (no multipart) gets a single PUT.
#[test]
fn registrar_without_multipart_gets_a_single_put() {
    let mut fx = fixture(false);
    let big = bytes(3 * PART as usize, 2);
    let upload = fx.stage("big", &big);
    fx.queue.push(entry(0, "cap-0", vec![upload]));

    assert_eq!(fx.ship_pending().ok(), Some(1));

    assert_eq!(*fx.store.part_puts.borrow(), 0);
    assert_eq!(*fx.store.single_puts.borrow(), 1);
    assert_eq!(fx.minter.registrar.completes(), 0);
    assert_eq!(fx.store.objects.borrow()["captures/wt/1/packs/big"], big);
}

/// A claimed entry is not coalescible; a replaced entry cannot be claimed.
#[test]
fn claim_and_coalesce_exclude_each_other() {
    let mut staging = Staging::open(&FsPath::of("/staging"), "wt", 1);
    let first = entry(0, "a", Vec::new());
    let mut queue = vec![entry(0, "a", Vec::new())];
    assert_eq!(staging.coalescible(&queue).map(|e| e.capture_id.as_str()), Some("a"));
    assert!(staging.claim(&first, queue.last()));
    assert!(staging.coalescible(&queue).is_none(), "in flight");
    staging.release();
    let second = entry(0, "b", Vec::new());
    queue[0] = entry(0, "b", Vec::new());
    assert!(!staging.claim(&first, queue.last()), "replaced entries are never shipped");
    assert!(staging.claim(&second, queue.last()));
    staging.release();
    queue.clear();
    assert!(!staging.claim(&second, queue.last()), "acked entries are not shipped again");
    assert!(pending(queue).is_empty());
}

/// The backstop: a sink that mints nothing declares no sizes, so the packs land and
/// `capture.register` refuses them. The capture is dropped all the same.
#[test]
fn a_refusal_at_register_drops_the_capture_after_the_packs_landed() {
    let mut fx = fixture(false);
    let small = bytes(500, 1);
    let upload = fx.stage("small", &small);
    fx.queue.push(entry(0, "cap-0", vec![upload]));
    assert_eq!(fx.ship_pending().ok(), Some(1));
    let head = fx.minter.registrar.head().unwrap().capture_id.clone();

    // From here the session may hold nothing more.
    let pack = "captures/wt/1/packs/bulk".to_owned();
    let body = bytes(4096, 9);
    let mut landed = SortedMap::new();
    landed.insert(pack.clone(), body.len() as u64);
    let used = fx.minter.registrar.used_bytes();
    fx.minter.registrar.set_byte_quota(Some(used), landed);
    fx.store.objects.borrow_mut().insert(pack.clone(), body);
    let mut bulk = entry(1, "cap-1", Vec::new());
    bulk.class = Some(Class::Bulk);
    bulk.register.manifest.sections.workspace.packs = vec![pack.clone()];
    fx.queue.push(bulk);
    assert_eq!(fx.ship_pending().ok(), Some(0));

    assert!(fx.store.objects.borrow().contains_key(&pack), "landed before the refusal");
    assert!(
        fx.queue.is_empty(),
        "the refused capture is dropped, not re-registered every tick"
    );
    assert!(fx.status.refused_flag(Class::Bulk));
    assert!(!fx.status.refused_flag(Class::Small));
    assert_eq!(fx.minter.registrar.head().unwrap().capture_id, head);
    let refusals = fx.staging.take_refusals();
    assert_eq!(refusals.len(), 1);
    assert_eq!(refusals[0].reason, "byte-quota");
    assert_eq!(refusals[0].parent.as_deref(), Some("cap-0"));
    assert!(fx.staging.take_refusals().is_empty());

    // A second pass has nothing to do.
    assert_eq!(fx.ship_pending().ok(), Some(0));
    assert_eq!(fx.minter.registrar.chain().len(), 1);
}

#[test]
fn a_refused_batch_sends_no_object() {
    let mut fx = fixture(false);
    fx.minter.registrar.set_byte_quota(Some(999), SortedMap::new());
    let uploads = vec![fx.stage("a", &bytes(600, 1)), fx.stage("b", &bytes(600, 2))];
    fx.queue.push(entry(0, "cap-0", uploads));
    fx.queue.push(entry(1, "cap-1", Vec::new()));
    assert_eq!(fx.ship_pending().ok(), Some(0));
    assert_eq!(*fx.store.single_puts.borrow(), 0);
    assert!(fx.queue.is_empty(), "the captures behind it descend from it");
    assert!(fx.status.refused_flag(Class::Small));
}

#[test]
fn a_fence_stops_shipping() {
    let mut fx = fixture(false);
    fx.queue.push(entry(0, "cap-0", Vec::new()));
    fx.minter.registrar.set_live_epoch(2);
    assert!(matches!(fx.ship_pending(), Err(ShipError::Fenced(_))));
    assert!(fx.status.snapshot().fenced);
    assert_eq!(fx.queue.len(), 1, "the queue is kept");
    assert_eq!(fx.ship_pending().ok(), Some(0));
    fx.status.reset_after_replan(None);
    assert!(may_ship(&fx.status));
}

#[test]
fn a_missing_object_fails_the_pass_unless_the_store_has_it() {
    let mut fx = fixture(false);
    let upload = fx.stage("gone", b"bytes");
    fx.files.clear();
    fx.queue.push(entry(0, "cap-0", vec![upload]));
    match fx.ship_pending() {
        Err(ShipError::Upload { key, source: SinkError::NotFound(file) }) => {
            assert_eq!(key, "captures/wt/1/packs/gone");
            assert_eq!(file, "gone");
        }
        _ => panic!("a missing object fails the pass"),
    }
    fx.store.objects.borrow_mut().insert("captures/wt/1/packs/gone".into(), b"bytes".to_vec());
    assert_eq!(fx.ship_pending().ok(), Some(1));
}

#[test]
fn entries_of_a_replaced_identity_are_dropped() {
    let mut fx = fixture(false);
    fx.queue.push(entry(0, "cap-0", Vec::new()));
    fx.staging.set_identity("wt", 2);
    assert_eq!(fx.staging.discard_foreign(&fx.queue), [true]);
    assert_eq!(fx.ship_pending().ok(), Some(0));
    assert!(fx.queue.is_empty());
    assert_eq!(fx.staging.identity(), ("wt".to_owned(), 2));
}

#[test]
fn the_queue_is_read_in_chain_order() {
    let read = pending(vec![
        entry(7, "c", Vec::new()),
        entry(2, "a", Vec::new()),
        entry(5, "b", Vec::new()),
    ]);
    let order: Vec<u64> = read.iter().map(|e| e.n).collect();
    assert_eq!(order, [2, 5, 7]);
}

#[test]
fn batches_are_bounded_and_stop_at_what_mints_its_own() {
    let up = |i: usize, bytes: u64| Upload { key: format!("k{i}"), file: format!("f{i}"), bytes };
    let many: Vec<Upload> = (0..PREFETCH_BATCH + 3).map(|i| up(i, 1)).collect();
    let ready = vec![true; many.len()];
    assert_eq!(batch_end(&many, &ready, 0, 100), PREFETCH_BATCH);
    assert_eq!(batch_end(&many, &ready, PREFETCH_BATCH, 100), many.len());
    let mixed = vec![up(0, 1), up(1, 100), up(2, 1)];
    assert_eq!(batch_end(&mixed, &vec![true; 3], 0, 100), 1);
    assert_eq!(batch_end(&mixed, &vec![true; 3], 1, 100), 1);
    assert_eq!(batch_end(&mixed, &vec![true, true, false], 2, 100), 2);
    assert_eq!(batch_keys(&mixed, 0, 2), [("k0".to_owned(), 1), ("k1".to_owned(), 100)]);
}

#[test]
fn only_files_no_capture_lists_are_discarded() {
    let up = |f: &str| Upload { key: f.to_owned(), file: f.to_owned(), bytes: 1 };
    let queue = vec![entry(0, "a", vec![up("kept"), up("also")])];
    assert!(is_listed(&queue, "kept"));
    let gone = discard_unreferenced(&queue, &vec![up("kept"), up("free"), up("free")]);
    assert!(gone.contains(&"free".to_owned()));
    assert!(!gone.contains(&"kept".to_owned()));
}

#[test]
fn failures_that_may_pass_are_retried_with_growing_waits() {
    let upload = Upload { key: "k".into(), file: "f".into(), bytes: 1 };
    let retry = RetryPolicy { attempts: 2, ..RetryPolicy::default() };
    let mut status = ShipStatus::new();
    let mut run = UploadRun::new();
    let down = || SinkError::Transport { method: "PUT", key: "k".into(), reason: "down".into() };
    assert!(matches!(
        run.put(&upload, &retry, Err(down()), &mut status),
        UploadStep::Wait(w) if w == 200 * MILLISECOND
    ));
    assert!(matches!(
        run.put(&upload, &retry, Err(down()), &mut status),
        UploadStep::Wait(w) if w == 400 * MILLISECOND
    ));
    let config = MultipartConfig::default();
    assert_eq!(run.next(&upload, true, &retry, &config), UploadAction::Exhausted);
    assert_eq!(status.failures, 2);
    assert!(matches!(run.exhausted(&upload), ShipError::Upload { .. }));

    let mut reg = RegisterRun::new();
    let answer = Err(RegistrarError::Transport("down".into()));
    assert!(matches!(
        reg.answered(0, false, &retry, answer, &mut status),
        RegisterStep::Wait(w) if w == 200 * MILLISECOND
    ));
    let answer = Err(RegistrarError::WrongParent { head_n: 3, head_capture_id: "h".into() });
    match reg.answered(0, false, &retry, answer, &mut status) {
        RegisterStep::Failed(e) => {
            assert_eq!(e.message(), "chain conflict: wrong parent: chain head is n=3 h")
        }
        _ => panic!("a conflict ends the pass"),
    }
}

#[test]
fn a_flush_ends_with_the_queue_or_the_time() {
    let retry = RetryPolicy::default();
    let mut total = 0;
    assert!(matches!(flushed(&mut total, Ok(2), false, false, &retry), FlushStep::Again(0)));
    assert!(matches!(flushed(&mut total, Ok(1), true, false, &retry), FlushStep::Done(3)));
    let err = || ShipError::Upload { key: "k".into(), source: SinkError::NotFound("k".into()) };
    assert!(matches!(
        flushed(&mut total, Err(err()), false, false, &retry),
        FlushStep::Again(w) if w == 200 * MILLISECOND
    ));
    assert!(matches!(flushed(&mut total, Err(err()), false, true, &retry), FlushStep::Failed(_)));
    let fenced = ShipError::Fenced(RegistrarError::Fenced { epoch: 1, live: 2 });
    assert!(matches!(flushed(&mut total, Err(fenced), false, false, &retry), FlushStep::Failed(_)));
}

#[test]
fn staging_lays_its_files_out() {
    let staging = Staging::open(&FsPath::of("/s"), "w/t", 3);
    assert_eq!(staging.dir().parts, ["s"]);
    assert_eq!(staging.objects_dir().parts, ["s", "objects"]);
    assert_eq!(staging.scratch_dir().parts, ["s", "scratch"]);
    assert_eq!(staging.index_dir().parts, ["s", "index"]);
    assert_eq!(staging.cache_dir().parts, ["s", "cache"]);
    assert_eq!(staging.queue_dir().parts, ["s", "queue"]);
    assert_eq!(staging.queue_path(42).parts, ["s", "queue", "00000000000000000042.json"]);
    assert_eq!(staging.marker_dir().parts, ["s", "uploaded", "w_t", "3"]);
    assert_eq!(staging.marker_path("f").parts, ["s", "uploaded", "w_t", "3", "f"]);
}
