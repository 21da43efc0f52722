use sealant_capture::manifest::{
    BulkSection, BulkState, CaptureKind, FsckStatus, GitSection, Manifest, Sections,
    WorkspaceSection,
};
use sealant_capture::materialize::{
    ClassStep, MaterializeClass, MaterializeTargets, Materializer,
};
use sealant_capture::order::SortedMap;
use sealant_capture::paths::FsPath;
use sealant_capture::registrar::{
    completion, judge_answer, manifest_keys, mint_error, ChangeSummaryRequest, CompleteRefusal,
    CompletedPart, ConflictBody, HeartbeatRequest, InMemoryRegistrar, MultipartCompleter,
    MultipartPolicy, PlanGetRequest, RegisterRequest, Registrar, RegistrarError, RegistrarMinter,
    UploadCompleteRequest, UploadCompleteResponse, UploadUrlsRequest,
};
use sealant_capture::sink::{PutOutcome, SinkError, UrlMinter};
use std::cell::RefCell;

fn manifest(n: u64, parent: Option<&str>) -> Manifest {
    Manifest {
        worktree_id: "wt".into(),
        n,
        parent: parent.map(str::to_owned),
        epoch: 1,
        seq: 0,
        kind: CaptureKind::Auto,
        created_at: "2026-09-12T00:00:00Z".into(),
        sections: Sections {
            git: GitSection {
                packs: vec![],
                refs: SortedMap::new(),
                head: "refs/heads/main".into(),
                fsck: FsckStatus::Verified,
            },
            workspace: WorkspaceSection { root: "r".into(), packs: vec![] },
            bulk: BulkState::pending(),
        },
        checkpoint: None,
    }
}

fn register(n: u64, parent: Option<&str>, id: &str, epoch: u64) -> RegisterRequest {
    RegisterRequest {
        worktree_id: "wt".into(),
        epoch,
        n,
        parent: parent.map(str::to_owned),
        capture_id: id.into(),
        manifest_key: format!("captures/wt/1/manifests/{id}"),
        manifest: manifest(n, parent),
    }
}

fn heartbeat(epoch: u64) -> HeartbeatRequest {
    HeartbeatRequest { worktree_id: "wt".into(), epoch }
}

#[test]
fn cas_lost_ack_wrong_parent_and_fence() {
    let mut r = InMemoryRegistrar::new("wt", 1, None);
    r.capture_register(&register(0, None, "a", 1)).unwrap();
    // Lost ack: same n and id is fine.
    r.capture_register(&register(0, None, "a", 1)).unwrap();
    assert!(matches!(
        r.capture_register(&register(1, None, "b", 1)),
        Err(RegistrarError::WrongParent { .. })
    ));
    r.capture_register(&register(1, Some("a"), "b", 1)).unwrap();
    assert_eq!(r.head().unwrap().capture_id, "b");
    r.set_live_epoch(2);
    assert!(matches!(
        r.capture_register(&register(2, Some("b"), "c", 1)),
        Err(RegistrarError::Fenced { epoch: 1, live: 2 })
    ));
    assert!(matches!(r.lease_heartbeat(&heartbeat(1)), Err(RegistrarError::Fenced { .. })));
}

#[test]
fn urls_only_under_own_prefix_and_summary_only_on_head() {
    let mut r = InMemoryRegistrar::new("wt", 1, Some("http://x".into()));
    let resp = r
        .upload_urls(&UploadUrlsRequest::new(
            "wt",
            1,
            vec![
                "captures/wt/1/packs/a".into(),
                "captures/wt/0/packs/b".into(),
                "projects/p/x".into(),
            ],
        ))
        .unwrap();
    assert_eq!(resp.urls.len(), 1);
    assert_eq!(
        resp.urls.get(&"captures/wt/1/packs/a".to_owned()),
        Some(&"http://x/captures/wt/1/packs/a".to_owned())
    );
    r.capture_register(&register(0, None, "a", 1)).unwrap();
    let summary = |id: &str| ChangeSummaryRequest {
        worktree_id: "wt".into(),
        epoch: 1,
        capture_id: id.into(),
        summary: "{}".into(),
    };
    assert!(r.change_summary(&summary("zzz")).is_err());
    r.change_summary(&summary("a")).unwrap();
    assert_eq!(r.summaries().len(), 1);
    let plan =
        r.plan_get(&PlanGetRequest { worktree_id: None, epoch: 1, platform: None }).unwrap();
    assert_eq!(plan.head.unwrap().capture_id, "a");
}

#[test]
fn plan_get_answers_bulk_pending_for_another_platform() {
    let mut r = InMemoryRegistrar::new("wt", 1, Some("http://x".into()));
    let mut m = manifest(0, None);
    m.sections.bulk = BulkState::Ready(BulkSection {
        root: "captures/wt/1/trees/b".into(),
        packs: vec!["captures/wt/1/packs/bulkpack".into()],
        platform: "linux-x86_64-gnu".into(),
    });
    r.capture_register(&RegisterRequest { manifest: m, ..register(0, None, "a", 1) }).unwrap();
    let bulkpack = "captures/wt/1/packs/bulkpack".to_owned();
    let plan = |platform: Option<&str>| {
        r.plan_get(&PlanGetRequest {
            worktree_id: None,
            epoch: 0,
            platform: platform.map(str::to_owned),
        })
        .unwrap()
    };
    let same = plan(Some("linux-x86_64-gnu"));
    assert!(same.head.unwrap().manifest.sections.bulk.section().is_some());
    assert!(same.get_urls.contains(&bulkpack));
    let absent = plan(None);
    assert!(absent.head.unwrap().manifest.sections.bulk.section().is_some());
    let other = plan(Some("linux-aarch64-musl"));
    let head = other.head.unwrap();
    assert!(head.manifest.sections.bulk.section().is_none());
    assert!(!other.get_urls.contains(&bulkpack));
    assert_eq!(head.capture_id, "a", "the head itself is unchanged");

    let booting = PlanGetRequest::booting(Some("wt".into()), "linux-x86_64-gnu".into());
    assert_eq!(booting.epoch, 0);
    assert_eq!(booting.platform.as_deref(), Some("linux-x86_64-gnu"));
    assert_eq!(booting.worktree_id.as_deref(), Some("wt"));
}

#[test]
fn a_bulk_tree_of_another_platform_is_not_restored() {
    let mut r = InMemoryRegistrar::new("wt", 1, None);
    let mut m = manifest(0, None);
    m.sections.bulk = BulkState::Ready(BulkSection {
        root: "captures/wt/1/trees/b".into(),
        packs: Vec::new(),
        platform: "linux-x86_64-gnu".into(),
    });
    r.capture_register(&RegisterRequest { manifest: m, ..register(0, None, "a", 1) }).unwrap();
    let targets = MaterializeTargets::new(&FsPath::of("/w"), None, Vec::new());
    let materializer = Materializer::new(targets);
    for (platform, restored) in [("linux-x86_64-gnu", true), ("linux-aarch64-musl", false)] {
        let plan = r.plan_get(&PlanGetRequest::booting(None, platform.into())).unwrap();
        let steps =
            materializer.materialize(&plan.head.unwrap().manifest, MaterializeClass::Bulk);
        assert_eq!(matches!(steps.as_slice(), [ClassStep::Bulk]), restored, "{platform}");
        assert_eq!(steps.is_empty(), !restored);
    }
}

/// Every key of a prefetch batch travels with its size (not only multipart candidates), so the
/// registrar can price the batch before it mints; a batch past the budget is refused whole, with
/// the numbers, and nothing is minted.
#[test]
fn prefetch_sizes_every_key_and_a_batch_past_the_budget_is_refused() {
    let r = InMemoryRegistrar::new("wt", 1, Some("http://x".into()));
    let keys: Vec<(String, u64)> =
        (0..3).map(|i| (format!("captures/wt/1/trees/{i}"), 100 + i)).collect();
    let mut minter = RegistrarMinter::new(r, "wt", 1, SortedMap::new());
    minter.prefetch_put(&keys).unwrap();
    let seen = minter.registrar.sizes_seen();
    assert_eq!(seen.len(), 3, "every key in the batch was sized");
    for (key, size) in &keys {
        assert_eq!(seen.get(key), Some(size));
    }
    assert_eq!(minter.put_url(&keys[0].0, keys[0].1).unwrap(), format!("http://x/{}", keys[0].0));
    assert_eq!(minter.registrar.used_bytes(), 303);

    // A key no batch minted falls back to a one-key call, and that call declares the object's
    // real length — never a zero stand-in, which a registrar that binds the signature to the
    // content length would mint an unusable URL for.
    let missed = "captures/wt/1/trees/missed".to_owned();
    assert_eq!(minter.put_url(&missed, 64).unwrap(), format!("http://x/{missed}"));
    assert_eq!(minter.registrar.sizes_seen().get(&missed).copied(), Some(64));
    assert_eq!(minter.registrar.used_bytes(), 367);

    // 367 bytes are priced; 100 more is one too many, and a priced key costs nothing again.
    minter.registrar.set_byte_quota(Some(466), SortedMap::new());
    let more = vec![("captures/wt/1/trees/new".to_owned(), 100)];
    let err = minter.prefetch_put(&more).unwrap_err();
    assert!(
        matches!(
            &err,
            SinkError::QuotaRefused { reason, limit, used, requested }
                if reason == "byte-quota"
                    && *limit == Some(466)
                    && *used == Some(367)
                    && *requested == Some(100)
        ),
        "{}",
        err.message()
    );
    assert!(!err.is_retryable());
    assert_eq!(minter.registrar.used_bytes(), 367, "a refused batch prices nothing");
    minter.prefetch_put(&keys).expect("priced keys cost nothing again");
}

fn parts(n: u32) -> Vec<CompletedPart> {
    (1..=n)
        .map(|part_number| CompletedPart { part_number, etag: format!("\"e{part_number}\"") })
        .collect()
}

/// Create/Complete semantics of the double: threshold, part count, exact part list, 409 on an
/// existing key.
#[test]
fn multipart_create_and_complete() {
    let mut r = InMemoryRegistrar::new("wt", 1, Some("http://x".into()))
        .with_multipart(MultipartPolicy { threshold: 100, part_size: 40 });
    let big = "captures/wt/1/packs/big".to_owned();
    let small = "captures/wt/1/packs/small".to_owned();
    let mut req = UploadUrlsRequest::new("wt", 1, vec![big.clone(), small.clone()]);
    req.sizes.insert(big.clone(), 100);
    req.sizes.insert(small.clone(), 99);
    let resp = r.upload_urls(&req).unwrap();
    assert_eq!(resp.urls.len(), 1, "the small key is a single PUT");
    assert!(resp.urls.contains(&small));
    assert!(!resp.urls.contains(&big));
    let mp = resp.multipart.get(&big).unwrap();
    assert_eq!(mp.part_size, 40);
    assert_eq!(mp.part_urls.len(), 3);
    assert_eq!(
        mp.part_urls[2],
        format!("http://x/{big}?partNumber=3&uploadId={}", mp.upload_id)
    );
    // Without sizes the response has no multipart upload at all.
    let plain = r.upload_urls(&UploadUrlsRequest::new("wt", 1, vec![big.clone()])).unwrap();
    assert_eq!(plain.multipart.len(), 0);
    assert_eq!(r.open_uploads(), 1);

    let complete = |upload_id: &str, parts: Vec<CompletedPart>| UploadCompleteRequest {
        worktree_id: "wt".into(),
        epoch: 1,
        key: big.clone(),
        upload_id: upload_id.to_owned(),
        parts,
    };
    assert!(matches!(
        r.upload_complete(&complete(&mp.upload_id, parts(2))),
        Err(RegistrarError::Protocol(_))
    ));
    assert_eq!(r.completes(), 0);
    assert_eq!(
        r.upload_complete(&complete(&mp.upload_id, parts(3))).unwrap(),
        UploadCompleteResponse { size: None }
    );
    assert_eq!(r.open_uploads(), 0);
    assert!(
        matches!(
            r.upload_complete(&complete(&mp.upload_id, parts(3))),
            Err(RegistrarError::Protocol(_))
        ),
        "an upload completes once"
    );
    // A second upload of the same key: created, then refused as existing on complete.
    let resp = r.upload_urls(&req).unwrap();
    let again = resp.multipart.get(&big).unwrap();
    assert!(matches!(
        r.upload_complete(&complete(&again.upload_id, parts(3))),
        Err(RegistrarError::KeyExists { .. })
    ));
    assert_eq!(r.completes(), 2);
    r.set_live_epoch(2);
    assert!(matches!(r.upload_urls(&req), Err(RegistrarError::Fenced { .. })));
}

#[test]
fn what_was_registered_stays_on_the_chain() {
    let mut r = InMemoryRegistrar::new("wt", 1, None);
    r.capture_register(&register(0, None, "a", 1)).unwrap();
    r.capture_register(&register(1, Some("a"), "b", 1)).unwrap();
    assert!(r.capture_register(&register(5, Some("b"), "x", 1)).is_err());
    let answer = r.capture_register(&register(1, Some("a"), "b", 1)).unwrap();
    assert_eq!((answer.head_n, answer.head_capture_id.as_str()), (1, "b"));
    let ids: Vec<&str> = r.chain().iter().map(|h| h.capture_id.as_str()).collect();
    assert_eq!(ids, ["a", "b"]);
}

#[test]
fn a_stale_caller_changes_nothing() {
    let mut r = InMemoryRegistrar::new("wt", 7, Some("http://x".into()));
    let mut req = UploadUrlsRequest::new("wt", 6, vec!["captures/wt/6/packs/a".into()]);
    req.sizes.insert("captures/wt/6/packs/a".into(), 10);
    assert!(matches!(
        r.upload_urls(&req),
        Err(RegistrarError::Fenced { epoch: 6, live: 7 })
    ));
    assert_eq!(r.used_bytes(), 0);
    assert!(r.capture_register(&register(0, None, "a", 6)).is_err());
    assert!(r.head().is_none());
}

#[test]
fn a_lost_lease_mints_nothing() {
    let mut r = InMemoryRegistrar::new("wt", 1, Some("http://x".into()));
    assert!(r.lease_heartbeat(&heartbeat(1)).is_ok());
    r.set_lease_alive(false);
    let req = UploadUrlsRequest::new("wt", 1, vec!["captures/wt/1/packs/a".into()]);
    assert!(matches!(r.upload_urls(&req), Err(RegistrarError::LeaseLost)));
    assert_eq!(r.url_requests(), 0);
}

#[test]
fn the_bytes_the_bucket_holds_are_priced_at_register() {
    let mut stored = SortedMap::new();
    stored.insert("captures/wt/1/manifests/a".to_owned(), 50);
    stored.insert("r".to_owned(), 51);
    let mut r = InMemoryRegistrar::new("wt", 1, None).with_byte_quota(100, stored);
    match r.capture_register(&register(0, None, "a", 1)) {
        Err(RegistrarError::QuotaRefused { reason, limit, used, requested }) => {
            assert_eq!(reason, "byte-quota");
            assert_eq!((limit, used, requested), (Some(100), Some(0), Some(101)));
        }
        _ => panic!("expected a refusal"),
    }
    assert!(r.head().is_none());
    r.set_byte_quota(None, SortedMap::new());
    assert!(r.capture_register(&register(0, None, "a", 1)).is_ok());
}

#[test]
fn a_manifest_names_the_keys_it_needs() {
    let mut req = register(0, None, "a", 1);
    req.manifest.sections.git.packs = vec!["g".into()];
    req.manifest.sections.workspace.packs = vec!["w".into()];
    req.manifest.sections.bulk = BulkState::Ready(BulkSection {
        root: "b".into(),
        packs: vec!["bp".into()],
        platform: "p".into(),
    });
    let mut keys = manifest_keys(&req);
    keys.sort();
    let mut want =
        vec!["b", "bp", "captures/wt/1/manifests/a", "g", "g.idx", "r", "w"];
    want.sort();
    assert!(want.iter().all(|k| keys.iter().any(|x| x == k)), "{keys:?}");
}

struct Bucket(Result<Option<u64>, CompleteRefusal>);

impl MultipartCompleter for Bucket {
    fn complete(
        &self,
        _key: &str,
        _upload_id: &str,
        _parts: &Vec<CompletedPart>,
    ) -> Result<Option<u64>, CompleteRefusal> {
        match &self.0 {
            Ok(n) => Ok(*n),
            Err(CompleteRefusal::Exists) => Err(CompleteRefusal::Exists),
            Err(CompleteRefusal::BadParts(why)) => Err(CompleteRefusal::BadParts(why.clone())),
        }
    }
}

#[test]
fn the_bucket_decides_what_a_complete_is_answered() {
    let key = "captures/wt/1/packs/big".to_owned();
    let mut r = InMemoryRegistrar::new("wt", 1, Some("http://x".into()))
        .with_multipart(MultipartPolicy { threshold: 1, part_size: 40 });
    let mut ask = |r: &mut InMemoryRegistrar| {
        let mut req = UploadUrlsRequest::new("wt", 1, vec![key.clone()]);
        req.sizes.insert(key.clone(), 41);
        let resp = r.upload_urls(&req).unwrap();
        UploadCompleteRequest {
            worktree_id: "wt".into(),
            epoch: 1,
            key: key.clone(),
            upload_id: resp.multipart.get(&key).unwrap().upload_id.clone(),
            parts: parts(2),
        }
    };
    let req = ask(&mut r);
    assert!(matches!(
        r.complete_with(&req, &Bucket(Err(CompleteRefusal::BadParts("etag".into())))),
        Err(RegistrarError::Protocol(_))
    ));
    let req = ask(&mut r);
    assert!(matches!(
        r.complete_with(&req, &Bucket(Ok(Some(41)))),
        Ok(UploadCompleteResponse { size: Some(41) })
    ));
    let req = ask(&mut r);
    assert!(matches!(
        r.complete_with(&req, &Bucket(Err(CompleteRefusal::Exists))),
        Err(RegistrarError::KeyExists { .. })
    ));
}

/// A bucket that notes what it is asked to assemble.
struct Noting(RefCell<Vec<(String, String, Vec<u32>)>>);

impl MultipartCompleter for Noting {
    fn complete(
        &self,
        key: &str,
        upload_id: &str,
        parts: &Vec<CompletedPart>,
    ) -> Result<Option<u64>, CompleteRefusal> {
        let numbers = parts.iter().map(|p| p.part_number).collect();
        self.0.borrow_mut().push((key.to_owned(), upload_id.to_owned(), numbers));
        Ok(Some(41))
    }
}

#[test]
fn the_bucket_is_asked_for_these_parts_of_this_upload() {
    let key = "captures/wt/1/packs/big".to_owned();
    let mut r = InMemoryRegistrar::new("wt", 1, Some("http://x".into()))
        .with_multipart(MultipartPolicy { threshold: 1, part_size: 40 });
    let mut ask = UploadUrlsRequest::new("wt", 1, vec![key.clone()]);
    ask.sizes.insert(key.clone(), 41);
    let upload_id = r.upload_urls(&ask).unwrap().multipart.get(&key).unwrap().upload_id.clone();
    let req = UploadCompleteRequest {
        worktree_id: "wt".into(),
        epoch: 1,
        key: key.clone(),
        upload_id: upload_id.clone(),
        parts: parts(2),
    };
    let bucket = Noting(RefCell::new(Vec::new()));
    assert!(r.complete_with(&req, &bucket).is_ok());
    assert_eq!(bucket.0.into_inner(), [(key, upload_id, vec![1, 2])]);
    let bucket = Noting(RefCell::new(Vec::new()));
    let stale = UploadCompleteRequest { epoch: 0, ..req };
    assert!(r.complete_with(&stale, &bucket).is_err());
    assert!(bucket.0.into_inner().is_empty(), "a stale caller does not reach the bucket");
}

#[test]
fn a_head_for_another_platform_is_the_same_head_otherwise() {
    let mut r = InMemoryRegistrar::new("wt", 1, Some("http://x".into()));
    let mut m = manifest(0, None);
    m.sections.bulk = BulkState::Ready(BulkSection {
        root: "captures/wt/1/trees/b".into(),
        packs: vec!["captures/wt/1/packs/bulkpack".into()],
        platform: "linux-x86_64-gnu".into(),
    });
    r.capture_register(&RegisterRequest { manifest: m, ..register(0, None, "a", 1) }).unwrap();
    r.set_bulk_platform("linux-aarch64-musl");
    let plan = PlanGetRequest { worktree_id: None, epoch: 0, platform: None };
    let head = r.plan_get(&plan).unwrap().head.unwrap();
    let (got, was) = (&head.manifest, manifest(0, None));
    assert_eq!((head.n, head.capture_id.as_str()), (0, "a"));
    assert_eq!((&got.worktree_id, &got.created_at), (&was.worktree_id, &was.created_at));
    assert_eq!(got.sections.git.head, was.sections.git.head);
    assert_eq!(got.sections.git.packs, was.sections.git.packs);
    assert_eq!(got.sections.workspace.root, was.sections.workspace.root);
    let bulk = got.sections.bulk.section().expect("a bulk tree");
    assert_eq!(bulk.root, "captures/wt/1/trees/b");
    assert_eq!(bulk.packs, ["captures/wt/1/packs/bulkpack"]);
    assert_eq!(bulk.platform, "linux-aarch64-musl");
}

fn conflict(reason: &str) -> ConflictBody {
    ConflictBody { reason: reason.into(), ..ConflictBody::empty() }
}

#[test]
fn answers_are_judged_by_status_and_reason() {
    assert!(judge_answer("plan.get", 1, 200, ConflictBody::empty()).is_ok());
    assert!(matches!(
        judge_answer("x", 1, 409, ConflictBody { live_epoch: Some(3), ..conflict("") }),
        Err(RegistrarError::Fenced { epoch: 1, live: 3 })
    ));
    assert!(matches!(
        judge_answer("x", 1, 409, conflict("stale-epoch")),
        Err(RegistrarError::Fenced { epoch: 1, live: 0 })
    ));
    assert!(matches!(
        judge_answer("x", 1, 409, ConflictBody { limit: Some(9), ..conflict("byte-quota") }),
        Err(RegistrarError::QuotaRefused { limit: Some(9), .. })
    ));
    match judge_answer("x", 1, 503, ConflictBody::empty()) {
        Err(e) => assert!(e.is_retryable(), "{}", e.message()),
        Ok(()) => panic!("a server error is an error"),
    }
    match judge_answer("x", 1, 400, ConflictBody::empty()) {
        Err(e) => assert!(!e.is_retryable(), "{}", e.message()),
        Ok(()) => panic!("a refusal is an error"),
    }
}

#[test]
fn errors_reach_the_sink_as_what_they_are() {
    let quota = RegistrarError::QuotaRefused {
        reason: "byte-quota".into(),
        limit: Some(5),
        used: None,
        requested: Some(6),
    };
    let err = mint_error("k", quota);
    assert_eq!(err.message(), "refused (byte-quota): limit 5, used ?, requested 6");
    assert!(matches!(
        mint_error("k", RegistrarError::LeaseLost),
        SinkError::NoUrl { key, .. } if key == "k"
    ));
    let done = completion("k", Ok(UploadCompleteResponse { size: Some(4) })).unwrap();
    assert_eq!((done.outcome, done.size), (PutOutcome::Stored, Some(4)));
    let there = completion("k", Err(RegistrarError::KeyExists { key: "k".into() })).unwrap();
    assert_eq!(there.outcome, PutOutcome::AlreadyPresent);
    assert!(completion("k", Err(RegistrarError::Transport("down".into())))
        .unwrap_err()
        .is_retryable());
}

#[test]
fn a_minter_moves_with_its_identity() {
    let r = InMemoryRegistrar::new("wt", 1, Some("http://x/".into()));
    let mut get = SortedMap::new();
    get.insert("k".to_owned(), "http://get/k".to_owned());
    let mut minter = RegistrarMinter::new(r, "wt", 1, get);
    assert_eq!(minter.get_url("k").unwrap(), "http://get/k");
    assert!(matches!(minter.get_url("other"), Err(SinkError::NoUrl { .. })));
    minter.reset("wt2", 4, SortedMap::new());
    assert_eq!(minter.identity(), ("wt2".to_owned(), 4));
    assert!(minter.get_url("k").is_err());
}
