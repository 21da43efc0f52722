use sealant_capture::engine::Class;
use sealant_capture::index::{default_bulk_dirs, DAEMON_DIR};
use sealant_capture::paths::FsPath;
use sealant_capture::roots::{is_credential_file, tree_roots, ClassRoots, Mount, Step};
use sealant_capture::watch::{
    budget_of, raise_max_user_watches, start, wants_raise, BulkWalk, ChangeSignal, EventKind,
    EventPath, Mode, Policy, WatchChange, WatchPolicy, WatchSpec, DEFAULT_BUDGET,
};

/// The credential files of two agents.
fn credentials() -> Vec<String> {
    vec![".token/.credentials.json".into(), ".codex/auth.json".into()]
}

fn spec() -> WatchSpec {
    let root = FsPath::of("/ws");
    WatchSpec {
        staging_dir: root.child(DAEMON_DIR).child("capture"),
        root,
        harness_home: Some(FsPath::of("/home")),
        credential_files: credentials(),
        bulk_dirs: default_bulk_dirs(),
        capture_bulk: true,
        policy: WatchPolicy::default(),
    }
}

fn policy() -> Policy {
    Policy::new(&spec(), Some((FsPath::of("/ws/.git"), FsPath::of("/ws/.git"))))
}

fn class_of(path: &str) -> Option<Class> {
    policy().classify(&FsPath::of(path))
}

#[test]
fn paths_are_classified_under_the_capture_policy() {
    assert_eq!(class_of("/ws/src/a.rs"), Some(Class::Small));
    assert_eq!(class_of("/ws/.git/refs/heads/main"), Some(Class::Small));
    assert_eq!(class_of("/ws/.git/index.lock"), None);
    assert_eq!(class_of("/ws/node_modules/a/x.js"), Some(Class::Bulk));
    assert_eq!(class_of("/ws/.sealantd/capture/objects/x"), None);
    assert_eq!(class_of("/home/transcript.jsonl"), Some(Class::Small));
    assert_eq!(class_of("/home/.token/.credentials.json"), None);
    assert_eq!(class_of("/home/.agent/.credentials.json"), Some(Class::Small));
    assert_eq!(class_of("/home/.codex/auth.json"), None);
    assert_eq!(class_of("/elsewhere/x"), None);
    let p = policy();
    let dir = FsPath::of("/ws/node_modules");
    assert_eq!(p.bulk_roots(&dir, "node_modules"), BulkWalk::Root);
    assert_eq!(p.bulk_roots(&FsPath::of("/ws/src"), "src"), BulkWalk::Descend);
    assert!(p.prune_small(&dir, "node_modules"));
    assert!(!p.prune_small(&FsPath::of("/ws/.git/refs"), "refs"));
    assert!(p.prune_small(&FsPath::of("/ws/.git/objects"), "objects"));
}

#[test]
fn without_bulk_capture_nothing_is_bulk() {
    let mut s = spec();
    s.capture_bulk = false;
    let p = Policy::new(&s, None);
    assert_eq!(p.classify(&FsPath::of("/ws/node_modules/a/x.js")), None);
    assert_eq!(p.bulk_roots(&FsPath::of("/ws/node_modules"), "node_modules"), BulkWalk::Skip);
}

#[test]
fn budget_zero_polls_everything() {
    let p = WatchPolicy { budget: Some(0), ..WatchPolicy::default() };
    let modes = start(&p, Some(1000), 2, 0, false);
    assert_eq!(modes.small, Mode::Polled);
    assert_eq!(modes.bulk, Mode::Polled);
}

#[test]
fn a_class_is_watched_while_its_directories_fit() {
    let p = WatchPolicy { budget: Some(10), ..WatchPolicy::default() };
    let both = start(&p, None, 4, 6, true);
    assert_eq!((both.small, both.bulk), (Mode::Watched, Mode::Watched));
    let small = start(&p, None, 4, 7, true);
    assert_eq!((small.small, small.bulk), (Mode::Watched, Mode::Polled));
    let none = start(&p, None, 11, 0, true);
    assert_eq!((none.small, none.bulk), (Mode::Polled, Mode::Polled));
    let off = WatchPolicy { enabled: false, ..p };
    assert_eq!(start(&off, None, 1, 1, true).small, Mode::Polled);
}

#[test]
fn the_budget_is_half_the_sysctl() {
    let p = WatchPolicy::default();
    assert_eq!(budget_of(&p, Some(1001)), 500);
    assert_eq!(budget_of(&p, None), DEFAULT_BUDGET);
    assert_eq!(budget_of(&WatchPolicy { budget: Some(3), ..p }, Some(1000)), 3);
    assert_eq!(raise_max_user_watches(Some(600_000), 1000), None);
    assert_eq!(raise_max_user_watches(Some(10), 1000), Some(524_288));
    assert_eq!(raise_max_user_watches(None, 1_000_000), Some(1_000_000));
    assert_eq!(wants_raise(&p, Some(10), 100, 100), None);
    let raise = WatchPolicy { raise_limit: true, ..p };
    assert!(wants_raise(&raise, Some(10), 100, 100).is_some());
}

fn at(path: &str, is_dir: bool) -> EventPath {
    EventPath { path: FsPath::of(path), is_dir }
}

#[test]
fn events_become_signals() {
    let p = policy();
    let out = p.handle_event(false, EventKind::Modify, &vec![at("/ws/src/a.rs", false)], true);
    assert_eq!(out.signals, [ChangeSignal::Changed(Class::Small)]);
    let both = vec![at("/ws/node_modules/x", false), at("/ws/a", false)];
    let out = p.handle_event(false, EventKind::Modify, &both, true);
    assert_eq!(
        out.signals,
        [ChangeSignal::Changed(Class::Small), ChangeSignal::Changed(Class::Bulk)]
    );
    let out = p.handle_event(true, EventKind::Modify, &both, true);
    assert_eq!(out.signals, [ChangeSignal::Overflow]);
    let own = vec![at("/ws/.sealantd/capture/objects/x", false)];
    let out = p.handle_event(false, EventKind::Modify, &own, true);
    assert!(out.signals.is_empty());
    let read = p.handle_event(false, EventKind::Other, &both, true);
    assert!(read.signals.is_empty());
}

#[test]
fn new_directories_are_adopted_and_removed_ones_forgotten() {
    let p = policy();
    let out =
        p.handle_event(false, EventKind::CreateFolder, &vec![at("/ws/src/deep", true)], false);
    assert_eq!(out.changes, [WatchChange::AddSmall]);
    let bulk = vec![at("/ws/node_modules/p", true)];
    let out = p.handle_event(false, EventKind::CreateFolder, &bulk, true);
    assert_eq!(out.changes, [WatchChange::AddBulk]);
    let out = p.handle_event(false, EventKind::CreateFolder, &bulk, false);
    assert_eq!(out.changes, [WatchChange::Keep]);
    let out = p.handle_event(false, EventKind::RenamedTo, &vec![at("/ws/f", false)], true);
    assert_eq!(out.changes, [WatchChange::Keep]);
    let out = p.handle_event(false, EventKind::Remove, &vec![at("/ws/src/deep", false)], true);
    assert_eq!(out.changes, [WatchChange::Forget]);
}

fn roots() -> ClassRoots {
    ClassRoots {
        root: FsPath::of("/ws"),
        harness_home: Some(FsPath::of("/home")),
        credential_files: credentials(),
        bulk_dirs: default_bulk_dirs(),
        staging_dir: FsPath::of("/ws/.sealantd/capture"),
    }
}

#[test]
fn credentials_are_never_captured() {
    let r = roots();
    assert!(!r.keeps(Mount::Harness, &FsPath::of("/home/.codex/auth.json"), "harness/.codex/auth.json"));
    let token = FsPath::of("/home/.token/.credentials.json");
    assert!(!r.keeps(Mount::Harness, &token, "harness/.token/.credentials.json"));
    for other in [".token/settings.json", ".agent/.credentials.json", "x/.codex/auth.json"] {
        let path = FsPath::of(&format!("/home/{other}"));
        assert!(r.keeps(Mount::Harness, &path, &format!("harness/{other}")), "{other}");
    }
    let home = FsPath::of("/home");
    assert!(is_credential_file(&home, &credentials(), &token));
    assert!(!is_credential_file(&home, &Vec::new(), &token));
    assert!(!is_credential_file(&home, &credentials(), &FsPath::of("/other/.codex/auth.json")));
}

#[test]
fn roots_prune_and_keep_by_mount() {
    let r = roots();
    assert!(r.prunes(Mount::Git, &FsPath::of("/ws/.git/objects"), ".git/objects", "objects"));
    assert!(!r.prunes(Mount::Git, &FsPath::of("/ws/.git/info"), ".git/info", "info"));
    assert!(!r.keeps(Mount::Git, &FsPath::of("/ws/.git/HEAD"), ".git/HEAD"));
    assert!(!r.keeps(Mount::Git, &FsPath::of("/ws/.git/refs/x"), ".git/refs/x"));
    assert!(r.keeps(Mount::Git, &FsPath::of("/ws/.git/config"), ".git/config"));
    assert!(r.prunes(Mount::Tree, &FsPath::of("/ws/x/target"), "tree/x/target", "target"));
    assert!(r.prunes(Mount::Bulk, &FsPath::of("/ws/.git"), ".git", ".git"));
    assert!(r.keeps(Mount::Bulk, &FsPath::of("/ws/target/a"), "target/a"));
    assert!(!r.keeps(Mount::Bulk, &FsPath::of("/ws/src/a"), "src/a"));
    assert!(r.is_daemon_path(&FsPath::of("/ws/.sealantd")));
}

#[test]
fn virtual_paths_land_under_their_roots() {
    let r = roots();
    let git = FsPath::of("/elsewhere/.git");
    let place = |v: &str| r.workspace_path(&git, v).map(|p| p.parts.join("/"));
    assert_eq!(place(".git/config").as_deref(), Some("elsewhere/.git/config"));
    assert_eq!(place("tree/.env").as_deref(), Some("ws/.env"));
    assert_eq!(place("harness").as_deref(), Some("home"));
    assert_eq!(place("other/x"), None);
}

#[test]
fn a_workspace_is_listed_mount_by_mount() {
    let r = roots();
    let git = FsPath::of("/ws/.git");
    let listed = tree_roots(".env\0logs/\0", &vec!["vendor/x".into()]);
    assert_eq!(listed, [".env", "logs/", "vendor/x/"]);
    let steps = r.workspace_listing(&git, &git, &listed);
    let prefixes: Vec<&str> = steps
        .iter()
        .map(|s| match s {
            Step::Dir { prefix, .. } => prefix.as_str(),
            Step::File { path, .. } => path.as_str(),
        })
        .collect();
    assert_eq!(prefixes.first(), Some(&".git"));
    assert_eq!(prefixes.last(), Some(&"harness"));
    assert!(prefixes.contains(&"tree/.env"));
    assert!(matches!(r.bulk_listing(), Step::Dir { mount: Mount::Bulk, .. }));
}
