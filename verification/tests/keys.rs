use sealant_capture::keys::{is_idx_key, key_digest, KeyPrefix};

fn prefix() -> KeyPrefix {
    KeyPrefix { worktree_id: "wt1".to_owned(), epoch: 3 }
}

#[test]
fn keys_follow_the_adr_layout() {
    let p = prefix();
    assert_eq!(p.pack("ab"), "captures/wt1/3/packs/ab");
    assert_eq!(p.pack_idx("ab"), "captures/wt1/3/packs/ab.idx");
    assert_eq!(p.tree("cd"), "captures/wt1/3/trees/cd");
    assert_eq!(p.manifest("ef"), "captures/wt1/3/manifests/ef");
    let d = "a".repeat(64);
    assert_eq!(key_digest(&p.pack_idx(&d)), Some(d.as_str()));
    assert_eq!(key_digest("captures/wt1/3/packs/short"), None);
}

#[test]
fn every_key_names_its_digest() {
    let p = prefix();
    let d = "0123456789abcdef".repeat(4);
    assert_eq!(key_digest(&p.pack(&d)), Some(d.as_str()));
    assert_eq!(key_digest(&p.tree(&d)), Some(d.as_str()));
    assert_eq!(key_digest(&p.manifest(&d)), Some(d.as_str()));
    assert_eq!(key_digest(&d), Some(d.as_str()));
    assert_eq!(key_digest(&"g".repeat(64)), None);
    assert_eq!(key_digest(""), None);
}

#[test]
fn only_index_keys_end_in_idx() {
    let p = prefix();
    assert!(is_idx_key(&p.pack_idx("ab")));
    assert!(!is_idx_key(&p.pack("ab")));
    assert_eq!(p.base(), "captures/wt1/3");
}

#[test]
fn epochs_share_no_key() {
    let (one, eleven) = (
        KeyPrefix { worktree_id: "wt".to_owned(), epoch: 1 },
        KeyPrefix { worktree_id: "wt".to_owned(), epoch: 11 },
    );
    assert_ne!(one.pack("1"), eleven.pack("1"));
    assert_ne!(one.tree("1"), eleven.tree("1"));
    assert_ne!(one.manifest("1"), eleven.manifest("1"));
}
