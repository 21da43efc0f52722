use sealant_capture::chunk::{sha256_hex, ChunkId};
use sealant_capture::tree::{DirEntry, DirObject, EntryKind};
use serde_json::Value;

fn file() -> DirEntry {
    DirEntry::file("b".into(), 0o644, 3, 10, vec![ChunkId::of(b"abc")])
}

fn link() -> DirEntry {
    DirEntry::symlink("a".into(), 0o777, 11, "b".into())
}

/// What the bytes of a dir object say.
fn decode(bytes: &[u8]) -> DirObject {
    let v: Value = serde_json::from_slice(bytes).expect("json");
    DirObject {
        entries: v["entries"]
            .as_array()
            .expect("entries")
            .iter()
            .map(|e| DirEntry {
                name: e["name"].as_str().expect("name").to_owned(),
                kind: match e["kind"].as_str() {
                    Some("file") => EntryKind::File,
                    Some("symlink") => EntryKind::Symlink,
                    Some("dir") => EntryKind::Dir,
                    Some("hardlink-group") => EntryKind::HardlinkGroup,
                    _ => panic!("kind"),
                },
                mode: e["mode"].as_u64().expect("mode") as u32,
                size: e["size"].as_u64().unwrap_or(0),
                mtime: e["mtime"].as_i64().expect("mtime"),
                chunks: e.get("chunks").map(|c| {
                    c.as_array()
                        .expect("chunks")
                        .iter()
                        .map(|id| ChunkId::parse(id.as_str().expect("hex")).expect("id"))
                        .collect()
                }),
                target: e.get("target").map(|t| t.as_str().expect("target").to_owned()),
                child: e.get("child").map(|t| t.as_str().expect("child").to_owned()),
                group: e.get("group").map(|t| t.as_str().expect("group").to_owned()),
                torn: e.get("torn").map(|t| t.as_bool().expect("torn")),
            })
            .collect(),
    }
}

#[test]
fn encoding_is_canonical_and_kinds_are_kebab() {
    let a = DirObject::new(vec![file(), link()]);
    let b = DirObject::new(vec![link(), file()]);
    assert_eq!(a.encode().bytes, b.encode().bytes);
    assert_eq!(a.encode().sha256, b.encode().sha256);
    let json = String::from_utf8(a.encode().bytes).unwrap();
    assert!(json.contains("\"kind\":\"symlink\""));
    assert!(!json.contains("\"child\""));
    let back = decode(json.as_bytes());
    assert_eq!(back.encode().bytes, a.encode().bytes);
    let hl = DirEntry::hardlink("c".into(), 0o644, 3, 10, "x/b".into());
    assert_eq!(hl.kind.as_str(), "hardlink-group");
}

#[test]
fn the_digest_is_that_of_the_bytes() {
    let e = DirObject::new(vec![file()]).encode();
    assert_eq!(e.sha256, sha256_hex(&e.bytes));
    let empty = DirObject::new(Vec::new()).encode();
    assert_eq!(empty.bytes, b"{\"entries\":[]}".to_vec());
}

#[test]
fn fields_are_written_in_a_fixed_order() {
    let e = DirObject::new(vec![
        DirEntry::dir("d".into(), 0o755, -5, "key".into()),
        link(),
    ])
    .encode();
    assert_eq!(
        String::from_utf8(e.bytes).unwrap(),
        "{\"entries\":[{\"name\":\"a\",\"kind\":\"symlink\",\"mode\":511,\"size\":0,\"mtime\":11,\
         \"target\":\"b\"},{\"name\":\"d\",\"kind\":\"dir\",\"mode\":493,\"size\":0,\"mtime\":-5,\
         \"child\":\"key\"}]}"
    );
}

#[test]
fn encoding_sorts_what_was_not() {
    let unsorted = DirObject { entries: vec![file(), link()] };
    assert_eq!(unsorted.encode().bytes, DirObject::new(vec![file(), link()]).encode().bytes);
}
