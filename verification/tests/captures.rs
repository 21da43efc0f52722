use sealant_capture::builder::{
    chunk_file, group_chunks, judge_group, judge_read, read_plan, BuiltTree, ChunkSink, FileRead,
    ReadCounts, ReadVerdict, Reads, Task, TreeBuilder,
};
use sealant_capture::chunk::{sha256_hex, ChunkId};
use sealant_capture::engine::{
    CaptureConfig, CaptureEngine, ChunkMap, Class, ClassWork, Concluded, EngineError, PackSink,
    SnapOutcome, SnapRequest, SnapStats, Snapped,
};
use sealant_capture::gitpack::{
    read_closure, ClosureParts, FinishedGitPack, GitError, GitPackResult,
};
use sealant_capture::index::{
    has_component_in, is_capturable_type, is_excluded_name, mtime_ns, FileKind, FileStat, Found,
    Listing, Meta, TreeIndex,
};
use sealant_capture::keys::{key_digest, KeyPrefix};
use sealant_capture::manifest::{BulkState, CaptureKind, FsckStatus, INDEX_TREE_REF};
use sealant_capture::materialize::{
    bulk_keeps, entry_step, is_linked, retain_planned, sweep, sweep_step, system_time_from_ns, verify_key,
    written, Checkout, ChunkStore, ClassStep, ClassWrite, DiskState, EntryStep, MaterializeClass,
    MaterializeError, MaterializeReport, MaterializeTargets, Materializer, OnDisk, OpenPack,
    SweepStep,
};
use sealant_capture::order::{SortedMap, SortedSet};
use sealant_capture::pack::{FinishedPack, PackError, PackReader, MAX_PACK_BYTES};
use sealant_capture::paths::FsPath;
use sealant_capture::ship::{RefusedCapture, ShipError, Staging, Upload};
use sealant_capture::sink::SinkError;
use sealant_capture::tree::{DirEntry, DirObject, EntryKind};
use serde_json::Value;
use std::collections::BTreeMap;

#[derive(Clone)]
struct Node {
    kind: FileKind,
    data: Vec<u8>,
    ino: u64,
    mtime: i64,
}

/// A directory tree in memory.
#[derive(Clone, Default)]
struct Disk {
    nodes: BTreeMap<String, Node>,
    clock: i64,
    inodes: u64,
}

impl Disk {
    fn add(&mut self, path: &str, kind: FileKind, data: &[u8]) {
        self.clock += 1;
        self.inodes += 1;
        let (ino, mtime) = (self.inodes, self.clock);
        self.nodes.insert(path.to_owned(), Node { kind, data: data.to_vec(), ino, mtime });
    }

    fn dir(&mut self, path: &str) {
        self.add(path, FileKind::Dir, b"");
    }

    fn file(&mut self, path: &str, data: &[u8]) {
        self.add(path, FileKind::File, data);
    }

    fn link(&mut self, path: &str, target: &str) {
        self.add(path, FileKind::Symlink, target.as_bytes());
    }

    fn hard_link(&mut self, from: &str, to: &str) {
        let node = self.nodes[from].clone();
        self.nodes.insert(to.to_owned(), node);
    }

    fn write(&mut self, path: &str, data: &[u8]) {
        self.clock += 1;
        let clock = self.clock;
        let node = self.nodes.get_mut(path).expect("a file");
        node.data = data.to_vec();
        node.mtime = clock;
    }

    fn meta(&self, path: &str) -> Meta {
        let node = &self.nodes[path];
        Meta {
            kind: node.kind,
            mode: 0o100_644,
            stat: FileStat {
                size: node.data.len() as u64,
                mtime: node.mtime,
                ino: node.ino,
                dev: 1,
            },
            nlink: self.nodes.values().filter(|n| n.ino == node.ino).count() as u64,
        }
    }

    fn listing(&self) -> Listing {
        let found: Vec<Found> = self
            .nodes
            .keys()
            .map(|path| {
                let parent = path.rsplit_once('/').map(|(d, _)| d);
                Found {
                    rel: path.clone(),
                    parent_name: parent
                        .map(|d| d.rsplit_once('/').map_or(d, |(_, n)| n).to_owned()),
                    has_idx: path
                        .strip_suffix(".pack")
                        .is_some_and(|p| self.nodes.contains_key(&format!("{p}.idx"))),
                    included: true,
                    meta: self.meta(path),
                }
            })
            .collect();
        let root = Meta {
            kind: FileKind::Dir,
            mode: 0o40_755,
            stat: FileStat { size: 0, mtime: 0, ino: 0, dev: 1 },
            nlink: 1,
        };
        let mut listing = Listing::new();
        listing.mount("", Some(root), &found, &SortedMap::new());
        listing
    }
}

fn prefix() -> KeyPrefix {
    KeyPrefix { worktree_id: "wt".into(), epoch: 1 }
}

/// Read what the plan asks for, reusing what the index knows.
fn read_all<S: ChunkSink>(
    disk: &Disk,
    listing: &Listing,
    index: &TreeIndex,
    sink: &mut S,
) -> Reads {
    let mut reads = Reads::new();
    for task in read_plan(listing) {
        match task {
            Task::Link(v) => {
                let text = String::from_utf8(disk.nodes[&v].data.clone()).expect("text");
                reads.links.insert(v, text);
            }
            Task::File(v) => {
                let stat = disk.meta(&v).stat;
                if !reads.reuse_file(index, &v, &stat, sink) {
                    let data = &disk.nodes[&v].data;
                    let run = chunk_file(data, sink, &mut reads.counts).ok().expect("chunked");
                    let verdict = reads.finish_file(&v, run, 0, &stat, &stat);
                    assert_eq!(verdict, ReadVerdict::Settled);
                }
            }
            Task::Group { wal, db } => {
                let stats = (disk.meta(&wal).stat, disk.meta(&db).stat);
                let (w, d) = match group_chunks(index, &wal, &db, &stats, sink) {
                    Some(both) => both,
                    None => {
                        let (w, d) = (&disk.nodes[&wal].data, &disk.nodes[&db].data);
                        let w = chunk_file(w, sink, &mut reads.counts).ok().expect("wal");
                        let d = chunk_file(d, sink, &mut reads.counts).ok().expect("db");
                        reads.count_group(&w, &d);
                        (w.chunks, d.chunks)
                    }
                };
                reads.finish_group(&wal, w, d, 0, &stats, &stats);
            }
        }
    }
    reads
}

/// What the bytes of a dir object say.
fn decode(bytes: &[u8]) -> DirObject {
    let v: Value = serde_json::from_slice(bytes).expect("json");
    let text = |e: &Value, name: &str| e.get(name).map(|t| t.as_str().expect("text").to_owned());
    DirObject {
        entries: v["entries"]
            .as_array()
            .expect("entries")
            .iter()
            .map(|e| DirEntry {
                name: e["name"].as_str().expect("name").to_owned(),
                kind: match e["kind"].as_str() {
                    Some("file") => EntryKind::File,
                    Some("symlink") => EntryKind::Symlink,
                    Some("dir") => EntryKind::Dir,
                    _ => EntryKind::HardlinkGroup,
                },
                mode: e["mode"].as_u64().expect("mode") as u32,
                size: e["size"].as_u64().expect("size"),
                mtime: e["mtime"].as_i64().expect("mtime"),
                chunks: e.get("chunks").map(|c| {
                    c.as_array()
                        .expect("chunks")
                        .iter()
                        .map(|id| ChunkId::parse(id.as_str().expect("hex")).expect("id"))
                        .collect()
                }),
                target: text(e, "target"),
                child: text(e, "child"),
                group: text(e, "group"),
                torn: e.get("torn").map(|t| t.as_bool().expect("torn")),
            })
            .collect(),
    }
}

#[test]
fn exclusions_and_pack_without_idx() {
    let mut disk = Disk::default();
    disk.dir("objects");
    disk.dir("objects/pack");
    disk.file("index.lock", b"");
    disk.file("gc.pid", b"");
    disk.file("s.db-shm", b"");
    disk.file("objects/tmp_pack_x", b"");
    disk.file("objects/incoming-x", b"");
    disk.file("objects/pack/pack-a.pack", b"a");
    disk.file("objects/pack/pack-b.pack", b"b");
    disk.file("objects/pack/pack-b.idx", b"i");
    disk.file("keep.txt", b"k");
    disk.add("socket", FileKind::Other, b"");
    let l = disk.listing();
    let keys = &l.entries.keys;
    assert!(!keys
        .iter()
        .any(|k| k.contains("lock") || k.contains("gc.pid") || k.contains("shm")));
    assert!(!keys.iter().any(|k| k.contains("tmp_") || k.contains("incoming")));
    let has = |k: &str| l.entries.contains(&k.to_owned());
    assert!(!has("objects/pack/pack-a.pack"));
    assert!(has("objects/pack/pack-b.pack"));
    assert!(has("objects/pack/pack-b.idx"));
    assert!(has("keep.txt"));
    assert!(!has("socket") && !is_capturable_type(FileKind::Other));
    assert!(is_excluded_name("x.lock", None));
    assert!(is_excluded_name("tmp_abc", Some("objects")));
    assert!(!is_excluded_name("tmp_abc", Some("other")));
}

/// A disk with a database group, a hard link and a symlink.
fn sample() -> Disk {
    let mut disk = Disk::default();
    disk.dir("sub");
    disk.file("sub/state.db", b"db bytes");
    disk.file("sub/state.db-wal", b"wal bytes");
    disk.file("a.txt", b"alpha");
    disk.hard_link("a.txt", "sub/a-link.txt");
    disk.link("l", "a.txt");
    disk
}

#[test]
fn builds_groups_hardlinks_and_reuses_index() {
    let mut disk = sample();
    let l = disk.listing();
    let (known, carried) = (SortedMap::new(), SortedMap::new());
    let mut sink = PackSink::new(MAX_PACK_BYTES, &known, &carried);
    let mut index = TreeIndex::empty();
    let reads = read_all(&disk, &l, &index, &mut sink);
    let built = TreeBuilder::new(prefix()).build(&mut index, &l, &reads);
    assert_eq!(built.stats.files, 4);
    assert_eq!(built.stats.files_read, 3); // db, wal, a.txt (the link is not read)
    let root = decode(&built.root.bytes);
    let names: Vec<_> = root.entries.iter().map(|e| e.name.as_str()).collect();
    assert_eq!(names, vec!["a.txt", "l", "sub"]);
    let sub_key = root.entries[2].child.clone().unwrap();
    let sub = built.dirs.get(&key_digest(&sub_key).unwrap().to_owned()).unwrap();
    let sub = decode(&sub.bytes);
    let link = sub.entries.iter().find(|e| e.name == "a-link.txt").unwrap();
    assert_eq!(link.kind, EntryKind::HardlinkGroup);
    assert_eq!(link.target.as_deref(), Some("a.txt"));
    let db = sub.entries.iter().find(|e| e.name == "state.db").unwrap();
    assert_eq!(db.group.as_deref(), Some("state.db"));
    let wal = sub.entries.iter().find(|e| e.name == "state.db-wal").unwrap();
    assert_eq!(wal.group.as_deref(), Some("state.db"));
    assert_eq!(wal.torn, None);
    assert_eq!(built.stats.bytes_read, 8 + 9 + 5);
    assert_eq!((built.stats.chunks_new, built.stats.torn), (3, 0));

    // Second build: nothing re-read.
    let reads = read_all(&disk, &l, &index, &mut sink);
    let built2 = TreeBuilder::new(prefix()).build(&mut index, &l, &reads);
    assert_eq!(built2.stats.files_read, 0);
    assert_eq!((built2.stats.bytes_read, built2.stats.chunks_new), (0, 0));
    assert_eq!(built2.root.sha256, built.root.sha256);
    assert_eq!(built2.dirs.keys, built.dirs.keys);
    assert_eq!(built2.chunks.items, built.chunks.items);
    assert_eq!((built2.stats.files, built2.stats.vanished), (4, 0));

    // Touch a file: only it is re-read, and the tree changes.
    disk.write("a.txt", b"alpha2");
    disk.hard_link("a.txt", "sub/a-link.txt");
    let l = disk.listing();
    let reads = read_all(&disk, &l, &index, &mut sink);
    let built3 = TreeBuilder::new(prefix()).build(&mut index, &l, &reads);
    assert_eq!(built3.stats.files_read, 1);
    assert_ne!(built3.root.sha256, built.root.sha256);
}

#[test]
fn a_file_that_vanished_is_left_out_and_counted() {
    let disk = sample();
    let l = disk.listing();
    let (known, carried) = (SortedMap::new(), SortedMap::new());
    let mut sink = PackSink::new(MAX_PACK_BYTES, &known, &carried);
    let mut index = TreeIndex::empty();
    let mut reads = read_all(&disk, &l, &index, &mut sink);
    reads.links.remove(&"l".to_owned());
    let built = TreeBuilder::new(prefix()).build(&mut index, &l, &reads);
    assert_eq!(built.stats.vanished, 1);
    assert!(decode(&built.root.bytes).entries.iter().all(|e| e.name != "l"));
}

#[test]
fn reads_are_judged_by_the_stat_around_them() {
    let a = FileStat { size: 1, mtime: 2, ino: 3, dev: 4 };
    let b = FileStat { size: 9, ..a };
    assert_eq!(judge_read(0, &a, &a), ReadVerdict::Settled);
    assert_eq!(judge_read(0, &a, &b), ReadVerdict::Retry);
    assert_eq!(judge_read(3, &a, &b), ReadVerdict::Torn);
    assert_eq!(judge_group(1, &(a, a), &(a, b)), ReadVerdict::Retry);
    assert_eq!(judge_group(2, &(a, a), &(a, b)), ReadVerdict::Torn);
    assert_eq!(judge_group(2, &(a, b), &(a, b)), ReadVerdict::Settled);
}

#[test]
fn torn_files_and_every_pass_are_counted() {
    let mut disk = Disk::default();
    disk.file("x", b"content");
    let l = disk.listing();
    let (known, carried) = (SortedMap::new(), SortedMap::new());
    let mut sink = PackSink::new(MAX_PACK_BYTES, &known, &carried);
    let (a, mut reads) = (disk.meta("x").stat, Reads::new());
    let b = FileStat { mtime: a.mtime + 1, ..a };
    for attempt in 0..4 {
        let run = chunk_file(b"content", &mut sink, &mut reads.counts).ok().expect("chunked");
        let verdict = reads.finish_file(&"x".to_owned(), run, attempt, &a, &b);
        assert_eq!(verdict == ReadVerdict::Torn, attempt == 3);
    }
    let built = TreeBuilder::new(prefix()).build(&mut TreeIndex::empty(), &l, &reads);
    assert_eq!((built.stats.files_read, built.stats.bytes_read), (4, 28));
    assert_eq!((built.stats.chunks_new, built.stats.torn), (1, 1));
    assert_eq!(decode(&built.root.bytes).entries[0].torn, Some(true));
}

#[test]
fn a_file_whose_chunks_are_stored_needs_no_room() {
    let (known, carried) = (SortedMap::new(), SortedMap::new());
    let mut sink = PackSink::new(300, &known, &carried);
    let mut counts = ReadCounts::zero();
    assert!(chunk_file(b"content", &mut sink, &mut counts).is_ok());
    let run = chunk_file(b"content", &mut sink, &mut counts).ok().expect("stored already");
    assert_eq!(run.chunks, [ChunkId::of(b"content")]);
    assert_eq!((run.bytes, counts.chunks_new), (7, 1));
    let big: Vec<u8> = (0..5000u32).map(|i| (i.wrapping_mul(2_654_435_761) >> 7) as u8).collect();
    assert!(chunk_file(&big, &mut sink, &mut counts).is_err());
    assert_eq!(counts.chunks_new, 1);
}

#[test]
fn times_are_nanoseconds_within_range() {
    assert_eq!(mtime_ns(1, 5), 1_000_000_005);
    assert_eq!(mtime_ns(-1, 5), -999_999_995);
    assert_eq!(mtime_ns(i64::MAX, 0), i64::MAX);
    let t = system_time_from_ns(-7);
    assert!(t.before && t.nanos == 7);
    let t = system_time_from_ns(i64::MIN);
    assert!(t.before && t.nanos == 1 << 63);
    assert!(!system_time_from_ns(7).before);
}

/// An engine with its staging and the bytes that it wrote there.
struct World {
    engine: CaptureEngine,
    staging: Staging,
    queue: Vec<sealant_capture::ship::QueueEntry>,
    packs: BTreeMap<String, FinishedPack>,
    dirs: BTreeMap<String, Vec<u8>>,
}

fn world() -> World {
    let root = FsPath::of("/ws");
    let config = CaptureConfig::new("wt", 1, &root, "linux-x86_64-gnu", Vec::new());
    let staging = Staging::open(&config.staging_dir(), "wt", 1);
    World {
        engine: CaptureEngine::open(
            config,
            None,
            TreeIndex::empty(),
            TreeIndex::empty(),
            ChunkMap::empty(),
            Vec::new(),
        ),
        staging,
        queue: Vec::new(),
        packs: BTreeMap::new(),
        dirs: BTreeMap::new(),
    }
}

fn git(n: u8) -> GitPackResult {
    let sha = |c: u8| (c as char).to_string().repeat(40);
    let mut refs = SortedMap::new();
    refs.insert("refs/heads/main".to_owned(), sha(b'a' + n));
    GitPackResult {
        pack: Some(FinishedGitPack { sha256: format!("{n}").repeat(64), bytes: 10, objects: 3 }),
        closure: read_closure(ClosureParts {
            refs,
            head: "refs/heads/main".into(),
            index_tree: Some(sha(b'0' + n)),
            index_blobs: Vec::new(),
            reflog: Vec::new(),
            worktree: sha(b'5'),
            gitlinks: Vec::new(),
        }),
        fsck: FsckStatus::Verified,
        attempts: 1,
    }
}

impl World {
    /// Build a class from the disk: its root and packs, and what was built.
    fn build(
        &mut self,
        class: Class,
        disk: &Disk,
        uploads: &mut Vec<Upload>,
        stats: &mut SnapStats,
    ) -> (sealant_capture::engine::ClassResult, BuiltTree) {
        let listing = disk.listing();
        let mut work: ClassWork = self.engine.begin(class);
        let (reads, packs) = {
            let mut sink =
                PackSink::new(MAX_PACK_BYTES, &self.engine.chunks.packs, &work.chunks);
            let reads = read_all(disk, &listing, &work.index, &mut sink);
            (reads, sink.builder.finish())
        };
        let built = TreeBuilder::new(prefix()).build(&mut work.index, &listing, &reads);
        work.add_packs(&prefix(), &packs, stats);
        for p in packs {
            self.packs.insert(prefix().pack(&p.sha256), p);
        }
        for (sha, dir) in built.dirs.keys.iter().zip(&built.dirs.values) {
            self.dirs.insert(prefix().tree(sha), dir.bytes.clone());
        }
        self.dirs.insert(prefix().tree(&built.root.sha256), built.root.bytes.clone());
        let (acked, present) = (SortedSet::new(), SortedSet::new());
        let result =
            self.engine.commit(class, work, &built, &acked, &present, uploads, stats);
        (result, built)
    }

    fn snap_small(&mut self, kind: CaptureKind, n: u8, disk: &Disk) -> Snapped {
        let mut uploads = Vec::new();
        let mut stats = SnapStats::zero();
        let (section, _) = self.engine.take_git(git(n), 5, &mut uploads, &mut stats);
        let (result, _) = self.build(Class::Small, disk, &mut uploads, &mut stats);
        assert_eq!(result.missing.items.len(), 0);
        let sections = self.engine.small_sections(section, result.root, result.packs);
        let req = SnapRequest { kind, class: Class::Small, seq: n as u64 };
        let snapped = self.engine.stage(
            &req,
            sections,
            &uploads,
            stats,
            "2026-09-12T00:00:00Z".into(),
            &self.staging,
            &self.queue,
        );
        self.queue.retain(|e| e.n != snapped.entry.n);
        snapped
    }
}

#[test]
fn a_capture_holds_all_that_it_names() {
    let mut w = world();
    let s = w.snap_small(CaptureKind::Auto, 1, &sample());
    assert_eq!(s.capture.n, 0);
    assert_eq!(s.capture.manifest.manifest.parent, None);
    let files: Vec<&str> = s.entry.uploads.iter().map(|u| u.file.as_str()).collect();
    assert_eq!(*files.last().unwrap(), format!("manifest-{}", s.capture.manifest.capture_id));
    let keys: Vec<&String> = s.entry.uploads.iter().map(|u| &u.key).collect();
    let sections = &s.capture.manifest.manifest.sections;
    assert!(keys.contains(&&sections.workspace.root));
    for pack in sections.workspace.packs.iter().chain(&sections.git.packs) {
        assert!(keys.contains(&pack), "{pack}");
    }
    assert_eq!(s.capture.manifest.capture_id, sha256_hex(&s.capture.manifest.bytes));
}

#[test]
fn the_chain_grows_and_auto_captures_coalesce() {
    let mut w = world();
    let disk = sample();
    let first = w.snap_small(CaptureKind::Turn, 1, &disk);
    let id = first.capture.manifest.capture_id.clone();
    w.queue.push(first.entry);
    let second = w.snap_small(CaptureKind::Auto, 2, &disk);
    assert_eq!(second.capture.n, 1);
    assert_eq!(second.capture.manifest.manifest.parent, Some(id.clone()));
    let old = second.entry.capture_id.clone();
    w.queue.push(second.entry);
    // A queued automatic capture is replaced, and its objects stay listed.
    let third = w.snap_small(CaptureKind::Auto, 3, &disk);
    assert_eq!(third.capture.n, 1);
    assert_eq!(third.capture.manifest.manifest.parent, Some(id));
    let files: Vec<&String> = third.entry.uploads.iter().map(|u| &u.file).collect();
    assert!(!files.contains(&&format!("manifest-{old}")));
    assert_eq!(third.replaces, Some(old));
    let second_pack = prefix().pack(&"2".repeat(64));
    assert!(third.entry.uploads.iter().any(|u| u.key == second_pack));
}

#[test]
fn a_refused_capture_is_taken_back() {
    let mut w = world();
    let disk = sample();
    let first = w.snap_small(CaptureKind::Turn, 1, &disk);
    let id = first.capture.manifest.capture_id.clone();
    let second = w.snap_small(CaptureKind::Turn, 2, &disk);
    w.engine.apply_refusals(&vec![RefusedCapture {
        n: second.entry.n,
        capture_id: second.entry.capture_id.clone(),
        parent: Some(id.clone()),
        class: Some(Class::Small),
        reason: "byte-quota".into(),
        limit: None,
        used: None,
        requested: None,
        uploads: second.entry.uploads,
    }]);
    assert_eq!(w.engine.previous().unwrap().capture_id, id);
    assert!(w.engine.last_tips.is_empty());
    let third = w.snap_small(CaptureKind::Turn, 3, &disk);
    assert_eq!(third.capture.n, 1);
    assert_eq!(third.capture.manifest.manifest.parent, Some(id));
}

#[test]
fn nothing_new_is_no_capture() {
    let mut w = world();
    let disk = sample();
    let first = w.snap_small(CaptureKind::Turn, 1, &disk);
    let sections = first.capture.manifest.manifest.sections.copy();
    assert!(w.engine.is_unchanged(CaptureKind::Auto, &sections));
    assert!(!w.engine.is_unchanged(CaptureKind::Turn, &sections));
    let req = SnapRequest { kind: CaptureKind::Auto, class: Class::Small, seq: 9 };
    let stray = vec![
        Upload { key: "k".into(), file: "stray".into(), bytes: 1 },
        first.entry.uploads[0].copy(),
    ];
    let queue = vec![first.entry];
    let (capture, removed) =
        w.engine.unchanged(&req, &stray, SnapStats::zero(), &queue).expect("a capture");
    assert!(capture.unchanged);
    assert_eq!(capture.n, 0);
    assert_eq!(removed.items, ["stray"], "what a queued capture lists stays");
    let same = sections.copy();
    let none = SnapStats::zero();
    match w.engine.conclude(&req, same, &stray, none, &w.staging, &queue) {
        Concluded::Unchanged { capture, removed } => {
            assert_eq!(capture.n, 0);
            assert_eq!(capture.manifest.bytes, first.capture.manifest.bytes);
            assert_eq!(capture.manifest.capture_id, first.capture.manifest.capture_id);
            assert_eq!(removed.items, ["stray"]);
        }
        Concluded::Staged(_) => panic!("nothing is new"),
    }
    let req = SnapRequest { kind: CaptureKind::Turn, ..req };
    let none = SnapStats::zero();
    match w.engine.conclude(&req, sections, &stray, none, &w.staging, &queue) {
        Concluded::Staged(s) => {
            assert_eq!(s.capture.n, 1);
            assert_eq!(s.replaces, None);
            let at = &s.capture.manifest.manifest.created_at;
            assert!(at.len() >= 20 && at.as_bytes()[10] == b'T' && at.ends_with('Z'), "{at}");
        }
        Concluded::Unchanged { .. } => panic!("only an automatic capture can be left out"),
    }
}

#[test]
fn a_bulk_capture_follows_a_small_one_and_can_yield() {
    let mut w = world();
    let req = SnapRequest { kind: CaptureKind::Auto, class: Class::Bulk, seq: 0 };
    assert!(w.engine.needs_small_first(&req));
    assert!(w.engine.bulk_sections("r".into(), Vec::new()).is_none());
    w.snap_small(CaptureKind::Turn, 1, &sample());
    assert!(!w.engine.needs_small_first(&req));
    let mut work = w.engine.begin(Class::Bulk);
    let mut reads = Reads::new();
    let stat = FileStat { size: 4, mtime: 1, ino: 2, dev: 3 };
    for (name, torn) in [("node_modules/x.js", false), ("node_modules/y.js", true)] {
        let chunks = vec![ChunkId::of(name.as_bytes())];
        reads.files.insert(name.into(), FileRead { chunks, stat, torn });
    }
    work.remember(&reads.files);
    let known = work.index.files.get(&"node_modules/x.js".to_owned()).expect("remembered");
    assert_eq!(known.chunks, [ChunkId::of(b"node_modules/x.js")]);
    assert!(!work.index.files.contains(&"node_modules/y.js".to_owned()), "torn");
    assert!(matches!(w.engine.yielded(work), SnapOutcome::Preempted));
    assert!(w.engine.bulk_in_progress());
    let mut disk = Disk::default();
    disk.dir("node_modules");
    disk.file("node_modules/x.js", b"bulk");
    let (mut uploads, mut stats) = (Vec::new(), SnapStats::zero());
    let (result, _) = w.build(Class::Bulk, &disk, &mut uploads, &mut stats);
    assert!(!w.engine.bulk_in_progress());
    let sections = w.engine.bulk_sections(result.root, result.packs).expect("a predecessor");
    match &sections.bulk {
        BulkState::Ready(b) => assert_eq!(b.platform, "linux-x86_64-gnu"),
        BulkState::Pending(_) => panic!("captured"),
    }
    let snapped =
        w.engine.stage_now(&req, sections, &uploads, stats, &w.staging, &w.queue);
    assert_eq!(snapped.capture.n, 1);
    assert_eq!(snapped.entry.class, Some(Class::Bulk));
}

#[test]
fn chunks_of_another_epoch_are_not_reused() {
    let mut chunks = ChunkMap::empty();
    chunks.packs.insert(ChunkId::of(b"a"), "captures/wt/1/packs/p".into());
    chunks.packs.insert(ChunkId::of(b"b"), "captures/wt/0/packs/q".into());
    let mut kept = chunks.retain_under("captures/wt/1/");
    assert!(kept.packs.contains(&ChunkId::of(b"a")));
    assert!(!kept.packs.contains(&ChunkId::of(b"b")));
    kept.forget(&vec!["captures/wt/1/packs/p".into()]);
    assert_eq!(kept.packs.len(), 0);
}

#[test]
fn tips_are_those_of_the_chain_and_the_last_pack() {
    let mut w = world();
    w.snap_small(CaptureKind::Turn, 1, &sample());
    let tips = w.engine.previous_tips();
    assert!(tips.contains(&"b".repeat(40)) && tips.contains(&"1".repeat(40)));
    w.engine.seed_tips();
    assert_eq!(w.engine.previous_tips(), w.engine.last_tips);
}

/// Write a directory and everything below it, as a materialize does.
fn restore(
    w: &World,
    store: &ChunkStore,
    open: &Vec<OpenPack>,
    key: &str,
    vdir: &str,
    disk: &mut Disk,
    index: &mut TreeIndex,
    write: &mut ClassWrite,
    report: &mut MaterializeReport,
) {
    let bytes = &w.dirs[key];
    assert!(verify_key(key, bytes).is_ok());
    let obj = decode(bytes);
    let path = |name: &str| {
        if vdir.is_empty() {
            name.to_owned()
        } else {
            format!("{vdir}/{name}")
        }
    };
    let on_disk: Vec<OnDisk> = obj
        .entries
        .iter()
        .map(|e| match disk.nodes.get(&path(&e.name)) {
            None => OnDisk::Nothing,
            Some(n) if n.kind == FileKind::Symlink => {
                OnDisk::Link(String::from_utf8(n.data.clone()).expect("text"))
            }
            Some(_) => OnDisk::There(disk.meta(&path(&e.name))),
        })
        .collect();
    let steps = write.plan_dir(vdir, &obj, &on_disk, index, report);
    for (entry, step) in obj.entries.iter().zip(steps) {
        let v = path(&entry.name);
        match step {
            EntryStep::Descend(child) => {
                if !disk.nodes.contains_key(&v) {
                    disk.dir(&v);
                }
                restore(w, store, open, &child, &v, disk, index, write, report);
            }
            EntryStep::Write => {
                let mut body = Vec::new();
                for id in entry.chunks.iter().flatten() {
                    body.extend(store.read(id, open).ok().expect("a chunk"));
                }
                disk.file(&v, &body);
                disk.nodes.get_mut(&v).expect("written").mtime = entry.mtime;
                let stat = disk.meta(&v).stat;
                written(index, v, stat, entry, body.len() as u64, report);
            }
            EntryStep::Symlink(target) => disk.link(&v, &target),
            _ => {}
        }
    }
}

fn materialize(
    w: &World,
    root: &str,
    packs: &[String],
    disk: &mut Disk,
    index: TreeIndex,
) -> (MaterializeReport, TreeIndex) {
    let mut store = ChunkStore::new();
    let mut open = Vec::new();
    let mut report = MaterializeReport::new();
    for key in packs {
        let pack = &w.packs[key];
        assert!(verify_key(key, &pack.data).is_ok());
        let reader = PackReader::open(&pack.entries);
        store.open(reader.chunk_ids());
        open.push(OpenPack { reader, bytes: pack.data.clone() });
        report.fetched_one();
    }
    let absent = ChunkId::of(b"in no pack");
    assert!(matches!(
        store.read(&absent, &open),
        Err(MaterializeError::MissingChunk(id)) if id == absent
    ));
    let mut index = index;
    let mut write = ClassWrite::new();
    restore(w, &store, &open, root, "", disk, &mut index, &mut write, &mut report);
    for (canonical, member, _) in &write.links {
        let (a, b) = (
            OnDisk::There(disk.meta(canonical)),
            match disk.nodes.contains_key(member) {
                true => OnDisk::There(disk.meta(member)),
                false => OnDisk::Nothing,
            },
        );
        if !is_linked(&a, &b) {
            disk.hard_link(canonical, member);
            report.linked_one();
        }
    }
    for v in sweep(&disk.listing(), &write.planned) {
        match sweep_step(&disk.meta(&v), false) {
            SweepStep::RemoveFile => {
                disk.nodes.remove(&v);
                report.removed_one();
            }
            SweepStep::RemoveDir => {
                if !disk.nodes.keys().any(|k| k.starts_with(&format!("{v}/"))) {
                    disk.nodes.remove(&v);
                }
            }
            SweepStep::Keep => {}
        }
    }
    (report, retain_planned(&index, &write.planned))
}

fn contents(disk: &Disk) -> Vec<(String, Vec<u8>)> {
    disk.nodes.iter().map(|(k, n)| (k.clone(), n.data.clone())).collect()
}

#[test]
fn a_materialize_restores_the_capture_and_the_next_writes_only_the_difference() {
    let mut w = world();
    let mut disk = sample();
    let big: Vec<u8> = (0..3_000_000u32).map(|i| (i.wrapping_mul(2_654_435_761) >> 13) as u8).collect();
    disk.file("big.bin", &big);
    let s = w.snap_small(CaptureKind::Turn, 1, &disk);
    let section = &s.capture.manifest.manifest.sections.workspace;

    let mut fresh = Disk::default();
    let (report, index) =
        materialize(&w, &section.root, &section.packs, &mut fresh, TreeIndex::empty());
    assert_eq!(contents(&fresh), contents(&disk));
    assert_eq!((report.files, report.symlinks, report.hardlinks), (4, 1, 1));
    assert_eq!(report.bytes, 8 + 9 + 5 + big.len() as u64);
    assert_eq!(report.files_skipped, 0);

    // Again: nothing is written.
    let (again, index) = materialize(&w, &section.root, &section.packs, &mut fresh, index);
    assert_eq!((again.files, again.symlinks, again.hardlinks, again.removed), (0, 0, 0, 0));
    assert_eq!(again.bytes, 0);
    assert_eq!(again.files_skipped, 4);

    // A changed file, and one too many: one is written, one removed.
    let mut changed = disk.clone();
    changed.write("sub/state.db", b"other db");
    let s = w.snap_small(CaptureKind::Turn, 2, &changed);
    let section = &s.capture.manifest.manifest.sections.workspace;
    fresh.dir("stale");
    fresh.file("stale/x", b"x");
    let (delta, _) = materialize(&w, &section.root, &section.packs, &mut fresh, index);
    assert_eq!(contents(&fresh), contents(&changed));
    assert_eq!((delta.files, delta.removed), (1, 1));
}

#[test]
fn materialize_and_engine_errors_say_what_is_wrong() {
    let id = ChunkId::of(b"x");
    let says = |e: MaterializeError, text: String| {
        assert_eq!(e.message(), text);
        assert_eq!(EngineError::Materialize(e).message(), text);
    };
    says(
        MaterializeError::Corrupt { key: "k".into(), actual: "d".into() },
        "k: bytes hash to d, not the key".into(),
    );
    says(
        MaterializeError::MissingChunk(id),
        format!("chunk {} is in no pack the manifest lists", id.to_hex()),
    );
    says(
        MaterializeError::BadDir { key: "k".into(), reason: "EOF".into() },
        "dir object k: EOF".into(),
    );
    says(
        MaterializeError::ManifestMismatch { expected: "e".into(), actual: "a".into() },
        "manifest hashes to a, expected e".into(),
    );
    says(MaterializeError::Sink(SinkError::NotFound("k".into())), "key not found: k".into());
    says(
        MaterializeError::Pack(PackError::BadMagic),
        "not a CDC pack: bad magic or truncated trailer".into(),
    );
    says(MaterializeError::Git(GitError::Io("gone".into())), "gone".into());
    says(MaterializeError::Io("full".into()), "full".into());
    let repo = GitError::NotARepo(FsPath::of("/w"));
    assert_eq!(EngineError::Git(repo).message(), "/w is not a git repository");
    let large = PackError::ChunkTooLarge(7);
    assert_eq!(
        EngineError::Pack(large).message(),
        "chunk of 7 compressed bytes cannot fit an empty pack"
    );
    assert_eq!(EngineError::Ship(ShipError::Io("queue".into())).message(), "queue");
    assert_eq!(EngineError::Io("full".into()).message(), "full");
}

#[test]
fn a_mounted_file_brings_its_ancestors_below_the_base() {
    let meta = |kind: FileKind| Meta {
        kind,
        mode: 0o755,
        stat: FileStat { size: 1, mtime: 2, ino: 3, dev: 4 },
        nlink: 1,
    };
    let mut above = SortedMap::new();
    for dir in ["abcd", "tree", "tree/a", "tree/a/b"] {
        above.insert(dir.to_owned(), meta(FileKind::Dir));
    }
    let mount = |path: &str, base: &str| {
        let mut l = Listing::new();
        l.mount_file(path, base, Some(meta(FileKind::File)), "f", Some("p"), &above);
        l.entries.keys
    };
    assert_eq!(mount("tree/a/b/f", "tree"), ["tree/a", "tree/a/b", "tree/a/b/f"]);
    assert_eq!(mount("tree/a/b/f", "tree/a"), ["tree/a/b", "tree/a/b/f"]);
    assert_eq!(mount("abcd/e", "x"), ["abcd/e"], "the base is not above the file");
    assert_eq!(mount("tree", "tree"), ["tree"]);
}

#[test]
fn corrupt_objects_are_never_taken() {
    let key = prefix().pack(&sha256_hex(b"right"));
    assert!(verify_key(&key, b"right").is_ok());
    match verify_key(&key, b"wrong") {
        Err(MaterializeError::Corrupt { key: k, actual }) => {
            assert_eq!(k, key);
            assert_eq!(actual, sha256_hex(b"wrong"));
        }
        _ => panic!("corrupt"),
    }
    assert!(verify_key("no-digest", b"anything").is_ok());
    assert!(verify_key(&format!("{key}.idx"), b"anything").is_ok());
}

fn materializer() -> Materializer {
    Materializer::new(MaterializeTargets::new(&FsPath::of("/ws"), None, Vec::new()))
}

#[test]
fn a_manifest_is_taken_only_under_its_id() {
    let mut w = world();
    let s = w.snap_small(CaptureKind::Turn, 1, &sample());
    let m = materializer();
    let e = &s.capture.manifest;
    let ok = m
        .fetch_manifest("k", &e.capture_id, &e.bytes, Ok(e.manifest.copy()))
        .ok()
        .expect("verified");
    assert_eq!(ok.capture_id, e.capture_id);
    assert!(matches!(
        m.fetch_manifest("k", "other", &e.bytes, Ok(e.manifest.copy())),
        Err(MaterializeError::ManifestMismatch { .. })
    ));
    assert!(matches!(
        m.fetch_manifest("k", &e.capture_id, &e.bytes, Err("no json".into())),
        Err(MaterializeError::BadDir { reason, .. }) if reason == "no json"
    ));
}

#[test]
fn steps_come_in_order_and_leave_a_pending_class_alone() {
    let mut w = world();
    let s = w.snap_small(CaptureKind::Turn, 1, &sample());
    let m = materializer();
    let manifest = &s.capture.manifest.manifest;
    assert_eq!(
        m.materialize(manifest, MaterializeClass::All),
        [ClassStep::Git, ClassStep::Workspace, ClassStep::Exclude]
    );
    assert!(m.materialize(manifest, MaterializeClass::Bulk).is_empty());
    assert_eq!(
        m.materialize(manifest, MaterializeClass::Git),
        [ClassStep::Git, ClassStep::Exclude]
    );
}

#[test]
fn a_worktree_moves_from_a_tree_that_is_still_here() {
    let mut w = world();
    let s = w.snap_small(CaptureKind::Turn, 1, &sample());
    let m = materializer();
    let manifest = &s.capture.manifest.manifest;
    let tree = "5".repeat(40);
    let mut state = DiskState {
        workspace: TreeIndex::empty(),
        bulk: TreeIndex::empty(),
        worktree_tree: Some("old".into()),
        index_tree: None,
    };
    assert!(matches!(
        m.checkout(manifest, &state, false),
        Checkout::Full(t) if t == tree
    ));
    let delta = m.checkout(manifest, &state, true);
    assert!(matches!(&delta, Checkout::Delta(from, to) if from == "old" && *to == tree));
    let mut report = MaterializeReport::new();
    assert!(m.needs_fsck(&report));
    m.checked_out(delta, 4, &mut state, &mut report);
    assert_eq!(report.git_paths_changed, Some(4));
    assert_eq!(state.worktree_tree.as_deref(), Some(tree.as_str()));
    assert!(!m.needs_fsck(&report));
    report.installed_one();
    assert!(m.needs_fsck(&report));
    let index = manifest.sections.git.refs.get(&INDEX_TREE_REF.to_owned()).cloned();
    assert_eq!(m.index_to_read(manifest, &mut state), index);
    assert_eq!(m.index_to_read(manifest, &mut state), None);
    let again = m.checkout(manifest, &state, true);
    assert!(matches!(&again, Checkout::Delta(from, to) if *from == tree && *to == tree));
}

#[test]
fn a_bulk_sweep_stays_in_bulk_directories() {
    let mut disk = Disk::default();
    disk.dir("src");
    disk.file("src/a", b"");
    disk.dir("target");
    disk.file("target/old", b"");
    disk.file("target/new", b"");
    let listing = disk.listing();
    let mut planned = SortedSet::new();
    planned.insert("target".to_owned());
    planned.insert("target/new".to_owned());
    let bulk = vec!["target".to_owned()];
    let keep = bulk_keeps(&listing, planned, &bulk);
    assert_eq!(sweep(&listing, &keep), ["target/old"]);
    assert!(has_component_in(&vec!["a".into(), "target".into()], &bulk));
}

#[test]
fn children_are_swept_before_their_parents() {
    let mut disk = Disk::default();
    for d in ["a", "a/b", "a/b/c", "é"] {
        disk.dir(d);
    }
    disk.file("a/b/c/f", b"");
    let order = sweep(&disk.listing(), &SortedSet::new());
    assert_eq!(order, ["a/b/c/f", "a/b/c", "a/b", "é", "a"]);
    let root = disk.meta("a");
    assert_eq!(sweep_step(&root, true), SweepStep::Keep);
    assert_eq!(sweep_step(&root, false), SweepStep::RemoveDir);
    assert_eq!(sweep_step(&disk.meta("a/b/c/f"), false), SweepStep::RemoveFile);
}

#[test]
fn defaults_lie_under_the_daemon_directory() {
    let t = MaterializeTargets::new(&FsPath::of("/ws"), None, Vec::new());
    assert_eq!(t.cache_dir.parts, ["ws", ".sealantd", "capture", "cache"]);
    assert_eq!(t.index_dir.parts, ["ws", ".sealantd", "capture", "index"]);
    let c = CaptureConfig::new("wt", 2, &FsPath::of("/ws"), "p", vec!["x".into()]);
    assert_eq!(c.staging_dir().parts, ["ws", ".sealantd", "capture"]);
    assert_eq!(c.prefix().base(), "captures/wt/2");
    let bulk = [
        "node_modules", "dist", "build", "target", ".turbo", ".next", ".output", ".cache",
        "coverage",
    ];
    assert_eq!(t.bulk_dirs, bulk);
    assert_eq!(t.roots().bulk_dirs, bulk);
    assert_eq!(c.bulk_dirs, bulk);
    assert_eq!(c.credential_files, ["x"]);
}

#[test]
fn a_link_is_kept_when_it_is_the_same_path() {
    let index = TreeIndex::empty();
    let step = |there: &str, planned: &str| {
        let entry = DirEntry::symlink("l".into(), 0o777, 1, planned.into());
        entry_step(&"l".to_owned(), &entry, &OnDisk::Link(there.into()), &index)
    };
    assert!(matches!(step("a/b", "a/b"), EntryStep::Keep));
    assert!(matches!(step("a//b/", "a/b"), EntryStep::Keep));
    assert!(matches!(step("./a", "a"), EntryStep::Symlink(_)));
    assert!(matches!(step("/a", "a"), EntryStep::Symlink(_)));
    assert!(matches!(step("b", "a"), EntryStep::Symlink(t) if t == "a"));
}
