use sealant_capture::pacing::{backoff, MILLISECOND, SECOND};
use sealant_capture::paths::FsPath;
use sealant_capture::registrar::MultipartUrls;
use sealant_capture::sink::{
    assembled, exists_verdict, get_verdict, judge_part, multipart_err, needs_size, part_count,
    part_range, put_verdict, size_from_headers, size_verdict, wants_multipart, Attempt, Attempts,
    BlobSink, BlobSource, Completed, LocalDir, PartAnswer, PartRetry, PartUploads, PartVerdict,
    PutOutcome, SinkError,
};

#[test]
fn part_ranges_and_sizes() {
    assert_eq!(part_range(0, 10, 25), (0, 10));
    assert_eq!(part_range(2, 10, 25), (20, 5));
    assert_eq!(size_from_headers(206, Some("bytes 0-0/12345"), None), Some(12345));
    assert_eq!(size_from_headers(200, None, Some("77")), Some(77));
    assert_eq!(size_from_headers(404, None, Some("77")), None);
}

#[test]
fn parts_cover_the_object() {
    for (size, part_size) in [(25u64, 10u64), (30, 10), (1, 10), (10, 10), (11, 10)] {
        let count = part_count(size, part_size);
        let mut at = 0;
        for i in 0..count {
            let (offset, len) = part_range(i as usize, part_size, size);
            assert_eq!(offset, at);
            assert!(len > 0 && len <= part_size);
            at += len;
        }
        assert_eq!(at, size);
    }
    assert_eq!(part_count(0, 10), 0);
}

#[test]
fn sizes_that_are_not_announced_are_unknown() {
    assert_eq!(size_from_headers(206, Some("bytes 0-0/*"), None), None);
    assert_eq!(size_from_headers(206, None, Some("77")), None);
    assert_eq!(size_from_headers(200, Some("bytes 0-0/5"), None), None);
    assert!(matches!(size_verdict("k", 206, Some("bytes 0-0/9"), None), Ok(Some(9))));
    assert!(matches!(size_verdict("k", 404, None, None), Err(SinkError::NotFound(_))));
    assert!(matches!(size_verdict("k", 500, None, None), Err(SinkError::Http { status: 500, .. })));
}

#[test]
fn a_key_never_escapes_its_directory() {
    let s = LocalDir::new(&FsPath::of("/store"));
    assert_eq!(s.path_for("captures/wt/1/packs/abc").parts, [
        "store", "captures", "wt", "1", "packs", "abc"
    ]);
    assert_eq!(s.path_for("../escape").parts, ["store", "escape"]);
    assert_eq!(s.path_for("a/./../b").parts, ["store", "a", "b"]);
    assert_eq!(s.dir().parts, ["store"]);
}

#[test]
fn statuses_are_judged() {
    assert_eq!(put_verdict("k", 200).unwrap(), PutOutcome::Stored);
    assert_eq!(put_verdict("k", 412).unwrap(), PutOutcome::AlreadyPresent);
    assert!(matches!(put_verdict("k", 403), Err(SinkError::Http { method: "PUT", .. })));
    assert!(get_verdict("k", 206).is_ok());
    assert!(matches!(get_verdict("k", 404), Err(SinkError::NotFound(_))));
    assert!(exists_verdict("k", 206).unwrap());
    assert!(!exists_verdict("k", 404).unwrap());
    assert!(exists_verdict("k", 500).unwrap_err().is_retryable());
}

#[test]
fn passing_conditions_are_tried_again() {
    for status in [408, 429, 500, 503] {
        assert!(matches!(
            judge_part("k", 1, PartAnswer::Status(status, None)),
            PartVerdict::Again(SinkError::Http { .. })
        ));
    }
    assert!(matches!(
        judge_part("k", 1, PartAnswer::Failed("reset".into())),
        PartVerdict::Again(SinkError::Transport { .. })
    ));
    assert!(matches!(
        judge_part("k", 1, PartAnswer::Status(403, None)),
        PartVerdict::Failed(SinkError::Http { status: 403, .. })
    ));
    match judge_part("k", 7, PartAnswer::Status(200, None)) {
        PartVerdict::Failed(e) => assert_eq!(e.message(), "multipart k: part 7: no ETag"),
        _ => panic!("a part without an ETag fails"),
    }
    match judge_part("k", 7, PartAnswer::Status(200, Some("\"e\"".into()))) {
        PartVerdict::Stored(etag) => assert_eq!(etag, "\"e\""),
        _ => panic!("stored"),
    }
}

#[test]
fn waits_double_up_to_the_cap() {
    let retry = PartRetry::default();
    assert_eq!(retry.attempts, 5);
    assert_eq!(retry.delay(0), 200 * MILLISECOND);
    assert_eq!(retry.delay(1), 400 * MILLISECOND);
    assert_eq!(retry.delay(4), 3200 * MILLISECOND);
    assert_eq!(retry.delay(5), 5 * SECOND);
    assert_eq!(retry.delay(200), 5 * SECOND);
    assert_eq!(backoff(3, 2, 100), 12);
}

#[test]
fn attempts_run_out() {
    let mut a = Attempts::new(PartRetry { attempts: 2, backoff: 10, max_backoff: 15 });
    assert_eq!(a.next(), Attempt::Try(0));
    a.failed(multipart_err("k", "one"));
    assert_eq!(a.next(), Attempt::Try(10));
    a.failed(multipart_err("k", "two"));
    assert_eq!(a.next(), Attempt::GiveUp);
    assert_eq!(a.give_up("k").message(), "multipart k: two");
}

fn urls(n: usize, part_size: u64) -> MultipartUrls {
    MultipartUrls {
        upload_id: "u".into(),
        part_size,
        part_urls: (0..n).map(|i| format!("http://x/{i}")).collect(),
    }
}

#[test]
fn a_registrar_has_to_mint_a_url_for_each_part() {
    assert!(PartUploads::plan("k", 25, &urls(3, 10)).is_ok());
    match PartUploads::plan("k", 25, &urls(2, 10)) {
        Err(e) => assert_eq!(
            e.message(),
            "multipart k: registrar minted 2 part urls for 3 parts of 10 bytes"
        ),
        Ok(_) => panic!("two URLs are too few"),
    }
    match PartUploads::plan("k", 25, &urls(3, 0)) {
        Err(e) => assert_eq!(e.message(), "multipart k: registrar minted part_size 0"),
        Ok(_) => panic!("parts cannot be empty"),
    }
}

#[test]
fn parts_are_handed_out_once_and_finish_in_order() {
    let mut u = PartUploads::plan("k", 25, &urls(3, 10)).ok().unwrap();
    assert_eq!(u.workers(0), 1);
    assert_eq!(u.workers(2), 2);
    assert_eq!(u.workers(9), 3);
    let jobs: Vec<_> = std::iter::from_fn(|| u.claim()).collect();
    let ranges: Vec<_> = jobs.iter().map(|j| (j.number, j.offset, j.len)).collect();
    assert_eq!(ranges, [(1, 0, 10), (2, 10, 10), (3, 20, 5)]);
    u.stored(2, "c".into());
    u.stored(0, "a".into());
    u.stored(1, "b".into());
    let parts = u.finish("k").unwrap();
    let etags: Vec<_> = parts.iter().map(|p| (p.part_number, p.etag.as_str())).collect();
    assert_eq!(etags, [(1, "a"), (2, "b"), (3, "c")]);
}

#[test]
fn the_first_failure_stops_an_upload() {
    let mut u = PartUploads::plan("k", 25, &urls(3, 10)).ok().unwrap();
    assert!(u.claim().is_some());
    u.fail(multipart_err("k", "first"));
    u.fail(multipart_err("k", "second"));
    assert!(u.claim().is_none());
    assert_eq!(u.finish("k").unwrap_err().message(), "multipart k: first");
    let mut v = PartUploads::plan("k", 25, &urls(3, 10)).ok().unwrap();
    v.stored(0, "a".into());
    assert_eq!(v.finish("k").unwrap_err().message(), "multipart k: part 2 never uploaded");
}

#[test]
fn an_object_of_the_wrong_size_is_refused() {
    let stored = Completed { outcome: PutOutcome::Stored, size: None };
    assert!(needs_size(&stored));
    assert_eq!(assembled("k", 9, &stored, Some(9)).unwrap(), PutOutcome::Stored);
    assert_eq!(
        assembled("k", 9, &stored, Some(8)).unwrap_err().message(),
        "multipart k: assembled object is 8 bytes, expected 9"
    );
    assert_eq!(assembled("k", 9, &stored, None).unwrap(), PutOutcome::Stored);
    let there = Completed { outcome: PutOutcome::AlreadyPresent, size: Some(1) };
    assert!(!needs_size(&there));
    assert_eq!(assembled("k", 9, &there, None).unwrap(), PutOutcome::AlreadyPresent);
    assert!(wants_multipart(1) && !wants_multipart(0));
}

#[test]
fn errors_say_what_happened() {
    assert_eq!(SinkError::NotFound("k".into()).message(), "key not found: k");
    assert!(SinkError::Transport { method: "GET", key: "k".into(), reason: "r".into() }
        .is_retryable());
    assert!(!SinkError::NotFound("k".into()).is_retryable());
    let quota = SinkError::QuotaRefused {
        reason: "byte-quota".into(),
        limit: Some(1),
        used: Some(2),
        requested: None,
    };
    assert!(!quota.is_retryable());
    assert_eq!(quota.message(), "refused (byte-quota): limit 1, used 2, requested ?");
}

#[test]
fn sources_know_their_length() {
    assert_eq!(BlobSource::Bytes(b"abc").len(), 3);
    assert!(BlobSource::Bytes(b"").is_empty());
    let file = FsPath::of("/f");
    assert_eq!(BlobSource::File(&file, 9).len(), 9);
}

/// A store that only takes single PUTs.
struct Plain(Vec<(String, Option<String>, u64)>);

impl BlobSink for Plain {
    fn put_if_absent(&mut self, key: &str, source: BlobSource<'_>) -> Result<PutOutcome, SinkError> {
        let file = match &source {
            BlobSource::File(at, _) => Some(at.text()),
            BlobSource::Bytes(_) => None,
        };
        self.0.push((key.to_owned(), file, source.len()));
        Ok(PutOutcome::Stored)
    }

    fn get(&mut self, key: &str) -> Result<Vec<u8>, SinkError> {
        Err(SinkError::NotFound(key.to_owned()))
    }

    fn holds(&mut self, key: &str) -> Result<bool, SinkError> {
        Ok(self.0.iter().any(|(k, _, _)| k == key))
    }
}

#[test]
fn a_store_without_multipart_takes_a_plain_put() {
    let mut s = Plain(Vec::new());
    let big = FsPath::of("/big");
    assert_eq!(s.put_multipart("k", &big, 100_003, 4096, 4).unwrap(), PutOutcome::Stored);
    assert_eq!(s.0, [("k".to_owned(), Some("/big".to_owned()), 100_003)]);
    assert!(s.prefetch_put(&vec![("k".to_owned(), 1)]).is_ok());
    assert!(s.holds("k").unwrap());
    assert_eq!(s.helper_cpu(), 0);
}
