use sealant_capture::calendar::{date_of, rfc3339_from_unix};
use sealant_capture::chunk::sha256_hex;
use sealant_capture::manifest::{
    rfc3339_now, BulkSection, BulkState, CaptureKind, Checkpoint, EncodedManifest, FsckStatus,
    GitSection, Manifest, Sections, WorkspaceSection, INDEX_TREE_REF, WORKTREE_TREE_REF,
};
use sealant_capture::order::SortedMap;
use serde_json::Value;

fn refs(pairs: &[(&str, &str)]) -> SortedMap<String, String> {
    let mut out = SortedMap::new();
    for (k, v) in pairs {
        out.insert((*k).to_owned(), (*v).to_owned());
    }
    out
}

fn sample() -> Manifest {
    Manifest {
        worktree_id: "wt".into(),
        n: 2,
        parent: Some("p".into()),
        epoch: 1,
        seq: 42,
        kind: CaptureKind::Auto,
        created_at: "2026-09-12T00:00:00Z".into(),
        sections: Sections {
            git: GitSection {
                packs: vec!["captures/wt/1/packs/a".into()],
                refs: refs(&[("refs/heads/main", "abc")]),
                head: "refs/heads/main".into(),
                fsck: FsckStatus::Verified,
            },
            workspace: WorkspaceSection { root: "captures/wt/1/trees/t".into(), packs: vec![] },
            bulk: BulkState::pending(),
        },
        checkpoint: None,
    }
}

fn text(v: &Value) -> String {
    v.as_str().expect("text").to_owned()
}

fn list(v: &Value) -> Vec<String> {
    v.as_array().expect("list").iter().map(text).collect()
}

/// What the bytes of a manifest say.
fn decode(bytes: &[u8]) -> EncodedManifest {
    let v: Value = serde_json::from_slice(bytes).expect("json");
    let git = &v["sections"]["git"];
    let bulk = &v["sections"]["bulk"];
    let mut refs = SortedMap::new();
    for (k, sha) in git["refs"].as_object().expect("refs") {
        refs.insert(k.clone(), text(sha));
    }
    let m = Manifest {
        worktree_id: text(&v["worktree_id"]),
        n: v["n"].as_u64().expect("n"),
        parent: v["parent"].as_str().map(str::to_owned),
        epoch: v["epoch"].as_u64().expect("epoch"),
        seq: v["seq"].as_u64().expect("seq"),
        kind: CaptureKind::parse(&text(&v["kind"])).expect("kind"),
        created_at: text(&v["created_at"]),
        sections: Sections {
            git: GitSection {
                packs: list(&git["packs"]),
                refs,
                head: text(&git["head"]),
                fsck: match git["fsck"].as_str() {
                    Some("verified") => FsckStatus::Verified,
                    Some("failed") => FsckStatus::Failed,
                    _ => FsckStatus::Unverified,
                },
            },
            workspace: WorkspaceSection {
                root: text(&v["sections"]["workspace"]["root"]),
                packs: list(&v["sections"]["workspace"]["packs"]),
            },
            bulk: if bulk.is_string() {
                BulkState::pending()
            } else {
                BulkState::Ready(BulkSection {
                    root: text(&bulk["root"]),
                    packs: list(&bulk["packs"]),
                    platform: text(&bulk["platform"]),
                })
            },
        },
        checkpoint: v.get("checkpoint").map(|c| Checkpoint {
            ordinal: c["ordinal"].as_u64().expect("ordinal"),
            sha: text(&c["sha"]),
            ref_name: text(&c["ref"]),
        }),
    };
    m.decoded(bytes)
}

#[test]
fn encoding_is_deterministic_and_pending_is_a_string() {
    let a = sample().encode();
    let b = sample().encode();
    assert_eq!(a.capture_id, b.capture_id);
    let text = String::from_utf8(a.bytes.clone()).unwrap();
    assert!(text.contains("\"bulk\":\"pending\""));
    assert!(text.contains("\"fsck\":\"verified\""));
    assert!(text.contains("\"kind\":\"auto\""));
    assert!(!text.contains("checkpoint"));
    let back = decode(&a.bytes);
    assert_eq!(back.capture_id, a.capture_id);
    assert_eq!(back.manifest.encode().bytes, a.bytes);
}

#[test]
fn bulk_ready_round_trips() {
    let mut m = sample();
    m.sections.bulk = BulkState::Ready(BulkSection {
        root: "r".into(),
        packs: vec![],
        platform: "linux-x86_64-musl".into(),
    });
    m.checkpoint = Some(Checkpoint {
        ordinal: 1,
        sha: "s".into(),
        ref_name: "refs/mend/checkpoints/1".into(),
    });
    let e = m.copy().encode();
    assert!(String::from_utf8_lossy(&e.bytes).contains("\"ref\":\"refs/mend/checkpoints/1\""));
    let back = decode(&e.bytes).manifest;
    assert!(back.sections.same(&m.sections));
    assert_eq!(back.encode().bytes, m.encode().bytes);
}

#[test]
fn rfc3339_formats_known_dates() {
    assert_eq!(rfc3339_from_unix(0), "1970-01-01T00:00:00Z");
    assert_eq!(rfc3339_from_unix(1_000_000_000), "2001-09-09T01:46:40Z");
    assert_eq!(rfc3339_from_unix(1_788_998_400), "2026-09-10T00:00:00Z");
}

#[test]
fn dates_reach_before_the_epoch_and_over_leap_days() {
    assert_eq!(rfc3339_from_unix(-1), "1969-12-31T23:59:59Z");
    assert_eq!(rfc3339_from_unix(951_782_400), "2000-02-29T00:00:00Z");
    assert_eq!(rfc3339_from_unix(4_107_542_400), "2100-03-01T00:00:00Z");
    let d = date_of(59);
    assert_eq!((d.year, d.month, d.day), (1970, 3, 1));
}

#[test]
fn the_time_now_is_an_rfc3339_time() {
    let now = rfc3339_now();
    assert_eq!(now.len(), 20);
    assert!(now.ends_with('Z') && now.as_bytes()[10] == b'T');
    assert!(now.as_str() > "2020-01-01T00:00:00Z");
}

#[test]
fn a_capture_id_is_the_digest_of_the_bytes() {
    let e = sample().encode();
    assert_eq!(e.capture_id, sha256_hex(&e.bytes));
    let mut other = sample();
    other.n = 3;
    assert_ne!(other.encode().capture_id, e.capture_id);
}

#[test]
fn a_manifest_is_written_in_a_fixed_order() {
    let e = sample().encode();
    assert_eq!(
        String::from_utf8(e.bytes).unwrap(),
        "{\"worktree_id\":\"wt\",\"n\":2,\"parent\":\"p\",\"epoch\":1,\"seq\":42,\"kind\":\"auto\",\
         \"created_at\":\"2026-09-12T00:00:00Z\",\"sections\":{\"git\":{\"packs\":\
         [\"captures/wt/1/packs/a\"],\"refs\":{\"refs/heads/main\":\"abc\"},\
         \"head\":\"refs/heads/main\",\"fsck\":\"verified\"},\"workspace\":{\"root\":\
         \"captures/wt/1/trees/t\",\"packs\":[]},\"bulk\":\"pending\"}}"
    );
}

#[test]
fn strings_are_escaped_as_json() {
    let mut m = sample();
    m.worktree_id = "a\"b\\c\n\u{1}é".into();
    let bytes = m.encode().bytes;
    let v: Value = serde_json::from_slice(&bytes).unwrap();
    assert_eq!(v["worktree_id"].as_str(), Some("a\"b\\c\n\u{1}é"));
}

#[test]
fn kinds_parse_back() {
    for kind in [
        CaptureKind::Auto,
        CaptureKind::Turn,
        CaptureKind::Checkpoint,
        CaptureKind::Suspend,
        CaptureKind::Final,
    ] {
        assert_eq!(CaptureKind::parse(kind.as_str()), Some(kind));
    }
    assert_eq!(CaptureKind::parse("AUTO"), None);
    assert_eq!(FsckStatus::Failed.as_str(), "failed");
}

#[test]
fn tips_are_sorted_and_unique() {
    let mut m = sample();
    m.sections.git.refs = refs(&[
        ("refs/heads/b", "2222"),
        ("refs/heads/a", "1111"),
        ("refs/tags/x", "1111"),
        (WORKTREE_TREE_REF, "3333"),
        (INDEX_TREE_REF, "4444"),
    ]);
    m.sections.git.head = "refs/heads/a".into();
    let tips = m.git_tips();
    let mut sorted = tips.clone();
    sorted.sort();
    sorted.dedup();
    assert_eq!(tips, sorted);
    assert!(tips.contains(&"1111".to_owned()) && tips.contains(&"2222".to_owned()));
}

#[test]
fn forms_sort_as_times() {
    let times = [
        -62_167_219_200,
        -62_167_219_199,
        -1,
        0,
        59,
        60,
        86_399,
        86_400,
        951_782_400,
        1_788_998_400,
        253_402_300_799,
    ];
    let forms: Vec<String> = times.iter().map(|t| rfc3339_from_unix(*t)).collect();
    assert_eq!(forms[0], "0000-01-01T00:00:00Z");
    assert_eq!(forms[10], "9999-12-31T23:59:59Z");
    assert!(forms.windows(2).all(|w| w[0] < w[1]), "{forms:?}");
    assert!(forms.iter().all(|f| f.len() == 20));
}
