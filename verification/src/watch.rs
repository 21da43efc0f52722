//! Change detection for the cadence: where a changed path falls under the capture policy, which
//! directories are watched and whether they fit the watch budget. Every event marks a class
//! dirty; nothing is hashed here. A class whose watches do not fit polls instead (the stat walk
//! the engine does anyway), and a queue overflow drops the runner to polling.

use vstd::prelude::*;
use vstd::string::*;
use crate::engine::Class;
use crate::index;
use crate::index::DAEMON_DIR;
use crate::order;
use crate::paths::{FsPath, PathModel};
use crate::roots;
use crate::text;

verus! {

/// The `fs.inotify.max_user_watches` sysctl.
pub const MAX_USER_WATCHES: &'static str = "/proc/sys/fs/inotify/max_user_watches";

/// What the executor image raises the sysctl to where it is writable.
pub const RAISED_MAX_USER_WATCHES: u64 = 524_288;

/// The budget where the sysctl cannot be read.
pub const DEFAULT_BUDGET: usize = 8192;

/// Watch policy.
#[derive(Debug, Clone, Copy, PartialEq, Eq)]
pub struct WatchPolicy {
    /// Watch at all; `false` polls both classes at their maximum intervals.
    pub enabled: bool,
    /// Watches this executor may register. `None` reads the sysctl and takes half of it (the
    /// daemon's telemetry watcher shares the user's quota).
    pub budget: Option<usize>,
    /// Try to raise the sysctl when the budget does not fit; never fails.
    pub raise_limit: bool,
}

impl Default for WatchPolicy {
    fn default() -> (r: Self)
        ensures
            r.enabled,
            r.budget is None,
            !r.raise_limit,
    {
        WatchPolicy { enabled: true, budget: None, raise_limit: false }
    }
}

/// How a class learns about changes.
#[derive(Debug, Clone, Copy, PartialEq, Eq, Structural)]
pub enum Mode {
    /// The watcher marks it dirty; snaps fire on the quiet / max-interval clocks.
    Watched,
    /// No watches: snapped at the maximum interval, unconditionally.
    Polled,
}

/// A signal from the watcher.
#[derive(Debug, Clone, Copy, PartialEq, Eq, Structural)]
pub enum ChangeSignal {
    /// Something under a class root changed.
    Changed(Class),
    /// The kernel queue overflowed; events were lost.
    Overflow,
}

/// The paths a workspace is watched by.
pub struct WatchSpec {
    /// Worktree root.
    pub root: FsPath,
    /// Harness home, when captured.
    pub harness_home: Option<FsPath>,
    /// The credential files of the harness, relative to its home (never captured).
    pub credential_files: Vec<String>,
    /// Staging directory (never watched).
    pub staging_dir: FsPath,
    /// Directory names that are bulk wherever they appear.
    pub bulk_dirs: Vec<String>,
    /// Whether the bulk class is captured (and so watched) at all.
    pub capture_bulk: bool,
    /// Policy.
    pub policy: WatchPolicy,
}

/// What the sysctl has to be written to for it to be at least `at_least`; `None` when it is
/// already.
pub fn raise_max_user_watches(current: Option<u64>, at_least: u64) -> (r: Option<u64>)
    ensures
        match r {
            None => current is Some && current->0 >= at_least,
            Some(target) => !(current is Some && current->0 >= at_least) && target
                == if at_least > RAISED_MAX_USER_WATCHES {
                at_least
            } else {
                RAISED_MAX_USER_WATCHES
            },
        },
{
    match current {
        Some(now) => if now >= at_least {
            return None;
        },
        None => {},
    }
    if at_least > RAISED_MAX_USER_WATCHES {
        Some(at_least)
    } else {
        Some(RAISED_MAX_USER_WATCHES)
    }
}

/// The watch budget in effect, given what the sysctl says.
pub open spec fn budget(policy: WatchPolicy, sysctl: Option<u64>) -> int {
    match policy.budget {
        Some(b) => b as int,
        None => match sysctl {
            Some(m) => if m / 2 > usize::MAX {
                usize::MAX as int
            } else {
                (m / 2) as int
            },
            None => DEFAULT_BUDGET as int,
        },
    }
}

/// The watch budget in effect for `policy`, given what the sysctl says.
pub fn budget_of(policy: &WatchPolicy, sysctl: Option<u64>) -> (r: usize)
    ensures
        r == budget(*policy, sysctl),
{
    match policy.budget {
        Some(b) => b,
        None => match sysctl {
            Some(m) => if m / 2 > usize::MAX as u64 {
                usize::MAX
            } else {
                (m / 2) as usize
            },
            None => DEFAULT_BUDGET,
        },
    }
}

/// Whether the sysctl is to be raised before the modes are decided, and to what at least: only
/// where the policy says so, leaves the budget open, and the watches do not fit.
pub fn wants_raise(
    policy: &WatchPolicy,
    sysctl: Option<u64>,
    small_dirs: usize,
    bulk_dirs: usize,
) -> (r: Option<u64>)
    ensures
        match r {
            Some(at_least) => {
                &&& policy.raise_limit && policy.budget is None
                &&& small_dirs + bulk_dirs > budget(*policy, sysctl)
                &&& at_least == if (small_dirs + bulk_dirs) * 2 > u64::MAX {
                    u64::MAX as int
                } else {
                    (small_dirs + bulk_dirs) * 2
                }
            },
            None => !policy.raise_limit || policy.budget is Some || small_dirs + bulk_dirs
                <= budget(*policy, sysctl),
        },
{
    let needed: u128 = small_dirs as u128 + bulk_dirs as u128;
    if needed <= budget_of(policy, sysctl) as u128 || !policy.raise_limit
        || policy.budget.is_some() {
        return None;
    }
    if needed * 2 > u64::MAX as u128 {
        Some(u64::MAX)
    } else {
        Some((needed * 2) as u64)
    }
}

/// Which class is watched.
#[derive(Debug, Clone, Copy, PartialEq, Eq, Structural)]
pub struct WatchModes {
    /// Small-class mode.
    pub small: Mode,
    /// Bulk-class mode.
    pub bulk: Mode,
}

/// Decide the modes: a class is watched when its directories fit the budget; the bulk class only
/// on top of the small one, and only where it has a root.
pub fn start(
    policy: &WatchPolicy,
    sysctl: Option<u64>,
    small_dirs: usize,
    bulk_dirs: usize,
    has_bulk_roots: bool,
) -> (r: WatchModes)
    ensures
        r.small == if policy.enabled && small_dirs <= budget(*policy, sysctl) {
            Mode::Watched
        } else {
            Mode::Polled
        },
        r.bulk == if policy.enabled && has_bulk_roots && small_dirs + bulk_dirs <= budget(
            *policy,
            sysctl,
        ) {
            Mode::Watched
        } else {
            Mode::Polled
        },
        r.bulk == Mode::Watched ==> r.small == Mode::Watched,
{
    let polled = WatchModes { small: Mode::Polled, bulk: Mode::Polled };
    if !policy.enabled {
        return polled;
    }
    let limit: usize = budget_of(policy, sysctl);
    if small_dirs > limit {
        return polled;
    }
    let bulk: Mode = if has_bulk_roots && small_dirs as u128 + bulk_dirs as u128 <= limit as u128 {
        Mode::Watched
    } else {
        Mode::Polled
    };
    WatchModes { small: Mode::Watched, bulk }
}

/// The classifier: where an absolute path falls under the capture policy.
pub struct Policy {
    /// Worktree root.
    pub root: FsPath,
    /// The git dir, and the common dir where that is another one.
    pub git_dirs: Vec<FsPath>,
    /// Harness home.
    pub harness_home: Option<FsPath>,
    /// The credential files of the harness, relative to its home.
    pub credential_files: Vec<String>,
    /// Staging directory.
    pub staging_dir: FsPath,
    /// The daemon's directory under the root.
    pub daemon_dir: FsPath,
    /// Names of bulk directories.
    pub bulk_dirs: Vec<String>,
    /// Whether the bulk class is captured.
    pub capture_bulk: bool,
}

/// A copy of an optional path.
fn copy_path(p: &Option<FsPath>) -> (r: Option<FsPath>)
    ensures
        match (r, *p) {
            (Some(a), Some(b)) => a@ == b@,
            (None, None) => true,
            _ => false,
        },
{
    match p {
        Some(h) => Some(h.copy()),
        None => None,
    }
}

impl Policy {
    /// The policy of a workspace; `git_dirs` are its git dir and common dir, where it is a
    /// repository.
    pub fn new(spec: &WatchSpec, git_dir: Option<(FsPath, FsPath)>) -> (r: Self)
        ensures
            r.root@ == spec.root@,
            r.staging_dir@ == spec.staging_dir@,
            r.daemon_dir@ == spec.root@.child(DAEMON_DIR@),
            r.bulk_dirs@ == spec.bulk_dirs@,
            r.capture_bulk == spec.capture_bulk,
            r.credential_files@ == spec.credential_files@,
            match (r.harness_home, spec.harness_home) {
                (Some(a), Some(b)) => a@ == b@,
                (None, None) => true,
                _ => false,
            },
            order::views(r.git_dirs@) == match git_dir {
                Some((git, common)) => if git@ == common@ {
                    seq![git@]
                } else {
                    seq![git@, common@]
                },
                None => Seq::empty(),
            },
    {
        let mut git_dirs: Vec<FsPath> = Vec::new();
        match git_dir {
            Some((git, common)) => {
                let other: bool = !common.same(&git);
                let ghost g = git@;
                let ghost c = common@;
                git_dirs.push(git);
                if other {
                    git_dirs.push(common);
                    assert(order::views(git_dirs@) =~= seq![g, c]);
                } else {
                    assert(order::views(git_dirs@) =~= seq![g]);
                }
            },
            None => {
                assert(order::views(git_dirs@) =~= Seq::empty());
            },
        }
        Policy {
            root: spec.root.copy(),
            git_dirs,
            harness_home: copy_path(&spec.harness_home),
            credential_files: text::copy_all(&spec.credential_files),
            staging_dir: spec.staging_dir.copy(),
            daemon_dir: spec.root.child(DAEMON_DIR),
            bulk_dirs: text::copy_all(&spec.bulk_dirs),
            capture_bulk: spec.capture_bulk,
        }
    }

    /// Whether a path is the daemon's own.
    pub open spec fn daemon(&self, abs: PathModel) -> bool {
        abs.starts_with(self.staging_dir@) || abs.starts_with(self.daemon_dir@)
    }

    /// Whether a path is the daemon's own.
    pub fn is_daemon(&self, abs: &FsPath) -> (r: bool)
        ensures
            r == self.daemon(abs@),
    {
        abs.starts_with(&self.staging_dir) || abs.starts_with(&self.daemon_dir)
    }

    /// Whether the name of a path is always excluded.
    pub open spec fn excluded_path(abs: PathModel) -> bool {
        match FsPath::name_model(abs) {
            Some(name) => index::excluded(
                name,
                match FsPath::parent_model(abs) {
                    Some(p) => FsPath::name_model(p),
                    None => None,
                },
            ),
            None => false,
        }
    }

    /// Whether a path lies in a git dir.
    pub open spec fn in_git_dir(&self, abs: PathModel) -> bool {
        exists|i: int| 0 <= i < self.git_dirs@.len() && abs.starts_with(#[trigger] self.git_dirs@[i]@)
    }

    /// The class that a change of `abs` dirties.
    pub open spec fn class_of(&self, abs: PathModel) -> Option<Class> {
        if self.daemon(abs) || Self::excluded_path(abs) {
            None
        } else if self.harness_home is Some && abs.starts_with(self.harness_home->0@) {
            if roots::is_credential(
                self.harness_home->0@,
                self.credential_files@,
                abs,
            ) {
                None
            } else {
                Some(Class::Small)
            }
        } else if abs.starts_with(self.root@) {
            if index::component_in(abs.below(self.root@), self.bulk_dirs@) {
                if self.capture_bulk {
                    Some(Class::Bulk)
                } else {
                    None
                }
            } else {
                Some(Class::Small)
            }
        } else if self.in_git_dir(abs) {
            Some(Class::Small)
        } else {
            None
        }
    }

    /// The class an event on `abs` dirties, or `None` when the policy excludes the path.
    pub fn classify(&self, abs: &FsPath) -> (r: Option<Class>)
        ensures
            r == self.class_of(abs@),
    {
        if self.is_daemon(abs) {
            return None;
        }
        match abs.file_name() {
            Some(name) => {
                if index::is_excluded_name(name, abs.parent_name()) {
                    return None;
                }
            },
            None => {},
        }
        match &self.harness_home {
            Some(home) => {
                if abs.starts_with(home) {
                    if roots::is_credential_file(home, &self.credential_files, abs) {
                        return None;
                    }
                    return Some(Class::Small);
                }
            },
            None => {},
        }
        match abs.strip_prefix(&self.root) {
            Some(rel) => {
                if index::has_component_in(&rel, &self.bulk_dirs) {
                    if self.capture_bulk {
                        return Some(Class::Bulk);
                    }
                    return None;
                }
                return Some(Class::Small);
            },
            None => {},
        }
        let mut i: usize = 0;
        while i < self.git_dirs.len()
            invariant
                0 <= i <= self.git_dirs@.len(),
                forall|j: int|
                    0 <= j < i ==> !abs@.starts_with(#[trigger] self.git_dirs@[j]@),
                !self.daemon(abs@) && !Self::excluded_path(abs@),
                !(self.harness_home is Some && abs@.starts_with(self.harness_home->0@)),
                !abs@.starts_with(self.root@),
            decreases self.git_dirs@.len() - i,
        {
            if abs.starts_with(&self.git_dirs[i]) {
                assert(self.in_git_dir(abs@));
                return Some(Class::Small);
            }
            i = i + 1;
        }
        None
    }

    /// Whether a directory is a part of a git dir that no listing carries.
    pub open spec fn git_internal(&self, dir: PathModel) -> bool {
        exists|i: int|
            0 <= i < self.git_dirs@.len() && dir.starts_with(#[trigger] self.git_dirs@[i]@)
                && is_git_internal(dir.below(self.git_dirs@[i]@))
    }

    /// Whether small-class watches stay out of a directory.
    pub open spec fn pruned_small(&self, dir: PathModel, name: Seq<char>) -> bool {
        ||| text::among(self.bulk_dirs@, name)
        ||| name == DAEMON_DIR@
        ||| self.daemon(dir)
        ||| self.harness_home is Some && self.harness_home->0@ == dir
        ||| self.git_internal(dir)
    }

    /// Whether to stay out of `dir` when registering small-class watches. Bulk directories, the
    /// daemon's directories, the harness home (its own root) and the parts of `.git` the engine
    /// never lists (`objects`, `worktrees`, `lfs`, `modules`: refs, `HEAD`, the index and the
    /// logs are what move when history does) are pruned.
    pub fn prune_small(&self, dir: &FsPath, name: &str) -> (r: bool)
        ensures
            r == self.pruned_small(dir@, name@),
    {
        if text::contains(&self.bulk_dirs, name) || text::str_eq(name, DAEMON_DIR)
            || self.is_daemon(dir) {
            return true;
        }
        match &self.harness_home {
            Some(h) => {
                if h.same(dir) {
                    return true;
                }
            },
            None => {},
        }
        let mut i: usize = 0;
        while i < self.git_dirs.len()
            invariant
                0 <= i <= self.git_dirs@.len(),
                forall|j: int|
                    0 <= j < i ==> !(dir@.starts_with(#[trigger] self.git_dirs@[j]@)
                        && is_git_internal(dir@.below(self.git_dirs@[j]@))),
            decreases self.git_dirs@.len() - i,
        {
            match dir.strip_prefix(&self.git_dirs[i]) {
                Some(rel) => {
                    if git_internal_dir(&rel) {
                        assert(self.git_internal(dir@));
                        return true;
                    }
                },
                None => {},
            }
            i = i + 1;
        }
        false
    }

    /// Whether bulk-class watches stay out of a directory.
    pub open spec fn pruned_bulk(&self, dir: PathModel, name: Seq<char>) -> bool {
        name == ".git"@ || name == DAEMON_DIR@ || self.daemon(dir)
    }

    /// Whether to stay out of `dir` when registering bulk-class watches: nested repositories'
    /// `.git` and the daemon's directories are skipped.
    pub fn prune_bulk(&self, dir: &FsPath, name: &str) -> (r: bool)
        ensures
            r == self.pruned_bulk(dir@, name@),
    {
        text::str_eq(name, ".git") || text::str_eq(name, DAEMON_DIR) || self.is_daemon(dir)
    }

    /// The git dirs that lie outside the worktree.
    pub open spec fn outer_git_dirs(&self, some: Seq<PathModel>) -> Seq<PathModel>
        decreases some.len(),
    {
        if some.len() == 0 {
            Seq::empty()
        } else {
            let front = self.outer_git_dirs(some.drop_last());
            if some.last().starts_with(self.root@) {
                front
            } else {
                front.push(some.last())
            }
        }
    }

    /// Small-class roots: the worktree, the git dir(s) when outside it, the harness home. Of
    /// those behind the first, only the ones that are directories count.
    pub fn small_roots(&self) -> (r: Vec<FsPath>)
        ensures
            order::views(r@) == seq![self.root@] + self.outer_git_dirs(
                order::views(self.git_dirs@),
            ) + match self.harness_home {
                Some(h) => seq![h@],
                None => Seq::empty(),
            },
    {
        let mut out: Vec<FsPath> = Vec::new();
        out.push(self.root.copy());
        let ghost gv = order::views(self.git_dirs@);
        let ghost base = seq![self.root@];
        let mut i: usize = 0;
        assert(gv.take(0) =~= Seq::empty());
        assert(order::views(out@) =~= base + self.outer_git_dirs(gv.take(0)));
        while i < self.git_dirs.len()
            invariant
                0 <= i <= self.git_dirs@.len(),
                gv == order::views(self.git_dirs@),
                base == seq![self.root@],
                order::views(out@) == base + self.outer_git_dirs(gv.take(i as int)),
            decreases self.git_dirs@.len() - i,
        {
            let ghost before = order::views(out@);
            proof {
                assert(gv.take(i + 1).drop_last() =~= gv.take(i as int));
                assert(gv.take(i + 1).last() == self.git_dirs@[i as int]@);
            }
            if !self.git_dirs[i].starts_with(&self.root) {
                out.push(self.git_dirs[i].copy());
                assert(order::views(out@) =~= before.push(self.git_dirs@[i as int]@));
            }
            assert(order::views(out@) =~= base + self.outer_git_dirs(gv.take(i + 1)));
            i = i + 1;
        }
        assert(gv.take(gv.len() as int) =~= gv);
        let ghost before = order::views(out@);
        match &self.harness_home {
            Some(h) => {
                out.push(h.copy());
                assert(order::views(out@) =~= before + seq![h@]);
            },
            None => {
                assert(before + Seq::empty() =~= before);
            },
        }
        out
    }
}

/// The parts of a git dir that no listing carries.
pub open spec fn is_git_internal(rel: Seq<Seq<char>>) -> bool {
    rel.len() == 1 && (rel[0] == "objects"@ || rel[0] == "worktrees"@ || rel[0] == "lfs"@ || rel[0]
        == "modules"@)
}

fn git_internal_dir(rel: &Vec<String>) -> (r: bool)
    ensures
        r == is_git_internal(order::views(rel@)),
{
    if rel.len() != 1 {
        assert(order::views(rel@).len() != 1);
        return false;
    }
    assert(order::views(rel@)[0] == rel@[0]@);
    text::str_eq(rel[0].as_str(), "objects") || text::str_eq(rel[0].as_str(), "worktrees")
        || text::str_eq(rel[0].as_str(), "lfs") || text::str_eq(rel[0].as_str(), "modules")
}

/// What a walk does with a directory when it looks for bulk roots.
#[derive(Debug, Clone, Copy, PartialEq, Eq, Structural)]
pub enum BulkWalk {
    /// Stay out of it.
    Skip,
    /// It is a bulk root; stay out of it.
    Root,
    /// Walk into it.
    Descend,
}

impl Policy {
    /// Whether a directory under the worktree is a bulk-class root: every bulk directory outside
    /// `.git` and the daemon directories; nothing below a bulk directory is walked.
    pub fn bulk_roots(&self, dir: &FsPath, name: &str) -> (r: BulkWalk)
        ensures
            r == if !self.capture_bulk || self.pruned_bulk(dir@, name@) {
                BulkWalk::Skip
            } else if text::among(self.bulk_dirs@, name@) {
                BulkWalk::Root
            } else {
                BulkWalk::Descend
            },
    {
        if !self.capture_bulk || self.prune_bulk(dir, name) {
            BulkWalk::Skip
        } else if text::contains(&self.bulk_dirs, name) {
            BulkWalk::Root
        } else {
            BulkWalk::Descend
        }
    }
}

/// What happened to a path.
#[derive(Debug, Clone, Copy, PartialEq, Eq, Structural)]
pub enum EventKind {
    /// A folder was created.
    CreateFolder,
    /// Something else was created.
    CreateOther,
    /// Something was renamed to this path.
    RenamedTo,
    /// Any other modification.
    Modify,
    /// Something was removed.
    Remove,
    /// An access, or anything else that changes nothing.
    Other,
}

/// A path of an event.
pub struct EventPath {
    /// The path.
    pub path: FsPath,
    /// Whether it is a directory now.
    pub is_dir: bool,
}

/// What is to be done about the watches of a path.
#[derive(Debug, Clone, Copy, PartialEq, Eq, Structural)]
pub enum WatchChange {
    /// Nothing.
    Keep,
    /// Watch it and what is below it, as small-class directories.
    AddSmall,
    /// Watch it and what is below it, as bulk-class directories.
    AddBulk,
    /// Its watch is gone.
    Forget,
}

/// What an event comes to: whether each class is dirty, and what becomes of each path's watch.
pub struct EventOutcome {
    /// The signals, in order.
    pub signals: Vec<ChangeSignal>,
    /// What is to be done about the watch of each path.
    pub changes: Vec<WatchChange>,
}

impl Policy {
    /// Whether a change of `paths` dirties a class.
    pub open spec fn dirties(&self, paths: Seq<EventPath>, class: Class) -> bool {
        exists|i: int|
            0 <= i < paths.len() && self.class_of((#[trigger] paths[i]).path@) == Some(class)
    }

    /// What becomes of the watch of a path: a directory created or renamed in needs watches like
    /// the initial set, a removed one has none.
    pub open spec fn watch_change(&self, kind: EventKind, p: EventPath, watch_bulk: bool) -> WatchChange {
        let abs = p.path@;
        let name = match FsPath::name_model(abs) {
            Some(n) => n,
            None => Seq::empty(),
        };
        let is_new_dir = kind == EventKind::CreateFolder || (kind == EventKind::CreateOther || kind
            == EventKind::RenamedTo) && p.is_dir;
        match self.class_of(abs) {
            None => WatchChange::Keep,
            Some(class) => if kind == EventKind::Remove {
                WatchChange::Forget
            } else if !is_new_dir || !(class == Class::Small || watch_bulk) {
                WatchChange::Keep
            } else if class == Class::Bulk || text::among(self.bulk_dirs@, name) {
                if watch_bulk {
                    WatchChange::AddBulk
                } else {
                    WatchChange::Keep
                }
            } else if self.pruned_small(abs, name) {
                WatchChange::Keep
            } else {
                WatchChange::AddSmall
            },
        }
    }

    /// The signals of an event.
    pub open spec fn signals(
        &self,
        need_rescan: bool,
        kind: EventKind,
        paths: Seq<EventPath>,
    ) -> Seq<ChangeSignal> {
        if need_rescan {
            seq![ChangeSignal::Overflow]
        } else if kind == EventKind::Other {
            Seq::empty()
        } else {
            let small = if self.dirties(paths, Class::Small) {
                seq![ChangeSignal::Changed(Class::Small)]
            } else {
                Seq::empty()
            };
            let bulk = if self.dirties(paths, Class::Bulk) {
                seq![ChangeSignal::Changed(Class::Bulk)]
            } else {
                Seq::empty()
            };
            small + bulk
        }
    }

    /// What an event comes to. Only content and structure changes dirty a class: the engine's own
    /// reads must not re-dirty what it just snapped.
    pub fn handle_event(
        &self,
        need_rescan: bool,
        kind: EventKind,
        paths: &Vec<EventPath>,
        watch_bulk: bool,
    ) -> (r: EventOutcome)
        ensures
            r.signals@ == self.signals(need_rescan, kind, paths@),
            if need_rescan || kind == EventKind::Other {
                r.changes@.len() == 0
            } else {
                &&& r.changes@.len() == paths@.len()
                &&& forall|i: int|
                    0 <= i < paths@.len() ==> #[trigger] r.changes@[i] == self.watch_change(
                        kind,
                        paths@[i],
                        watch_bulk,
                    )
            },
    {
        let mut signals: Vec<ChangeSignal> = Vec::new();
        let mut changes: Vec<WatchChange> = Vec::new();
        if need_rescan {
            signals.push(ChangeSignal::Overflow);
            assert(signals@ =~= seq![ChangeSignal::Overflow]);
            return EventOutcome { signals, changes };
        }
        if kind == EventKind::Other {
            assert(signals@ =~= Seq::empty());
            return EventOutcome { signals, changes };
        }
        let mut small: bool = false;
        let mut bulk: bool = false;
        let mut i: usize = 0;
        while i < paths.len()
            invariant
                0 <= i <= paths@.len(),
                changes@.len() == i,
                small == (exists|j: int|
                    0 <= j < i && self.class_of((#[trigger] paths@[j]).path@) == Some(
                        Class::Small,
                    )),
                bulk == (exists|j: int|
                    0 <= j < i && self.class_of((#[trigger] paths@[j]).path@) == Some(Class::Bulk)),
                forall|j: int|
                    0 <= j < i ==> #[trigger] changes@[j] == self.watch_change(
                        kind,
                        paths@[j],
                        watch_bulk,
                    ),
            decreases paths@.len() - i,
        {
            let p: &EventPath = &paths[i];
            let mut change: WatchChange = WatchChange::Keep;
            match self.classify(&p.path) {
                Some(class) => {
                    if class == Class::Bulk {
                        bulk = true;
                    } else {
                        small = true;
                    }
                    assert(self.class_of(paths@[i as int].path@) == Some(class));
                    let name: &str = match p.path.file_name() {
                        Some(n) => n,
                        None => "",
                    };
                    proof {
                        reveal_strlit("");
                        assert(""@ =~= Seq::empty());
                    }
                    let is_new_dir: bool = kind == EventKind::CreateFolder || ((kind
                        == EventKind::CreateOther || kind == EventKind::RenamedTo) && p.is_dir);
                    if kind == EventKind::Remove {
                        change = WatchChange::Forget;
                    } else if is_new_dir && (class == Class::Small || watch_bulk) {
                        if class == Class::Bulk || text::contains(&self.bulk_dirs, name) {
                            if watch_bulk {
                                change = WatchChange::AddBulk;
                            }
                        } else if !self.prune_small(&p.path, name) {
                            change = WatchChange::AddSmall;
                        }
                    }
                },
                None => {
                    assert(self.class_of(paths@[i as int].path@) is None);
                },
            }
            changes.push(change);
            i = i + 1;
        }
        if small {
            signals.push(ChangeSignal::Changed(Class::Small));
        }
        if bulk {
            signals.push(ChangeSignal::Changed(Class::Bulk));
        }
        assert(self.dirties(paths@, Class::Small) == small);
        assert(self.dirties(paths@, Class::Bulk) == bulk);
        assert(signals@ =~= self.signals(need_rescan, kind, paths@));
        EventOutcome { signals, changes }
    }
}

/// Nothing in the staging directory or the daemon's directory dirties a class, so the engine's
/// own writes never set off a snap.
pub proof fn law_daemon_writes_dirty_nothing(policy: Policy, abs: PathModel)
    requires
        abs.starts_with(policy.staging_dir@) || abs.starts_with(policy.daemon_dir@),
    ensures
        policy.class_of(abs) is None,
{
}

/// Without a captured bulk class nothing is ever classified as bulk.
pub proof fn law_no_bulk_class_without_capture(policy: Policy, abs: PathModel)
    requires
        !policy.capture_bulk,
    ensures
        policy.class_of(abs) != Some(Class::Bulk),
{
}

/// Every event that changes content or structure (a creation, a rename, a modification or a removal)
/// dirties the class of each of its paths, and no other class.
pub proof fn law_every_change_dirties_its_class(
    policy: Policy,
    kind: EventKind,
    paths: Vec<EventPath>,
    watch_bulk: bool,
    out: EventOutcome,
    i: int,
    class: Class,
)
    requires
        call_ensures(Policy::handle_event, (&policy, false, kind, &paths, watch_bulk), out),
        kind != EventKind::Other,
        0 <= i < paths@.len(),
        call_ensures(Policy::classify, (&policy, &paths@[i].path), Some(class)),
    ensures
        out.signals@.contains(ChangeSignal::Changed(class)),
{
    assert(policy.dirties(paths@, class));
    let s = out.signals@;
    if class == Class::Small {
        assert(s[0] == ChangeSignal::Changed(class));
    } else {
        assert(s[s.len() - 1] == ChangeSignal::Changed(class));
    }
}

/// A class is dirtied only where one of the paths is of it, by a change, and each class once; lost
/// events are an overflow and nothing else.
pub proof fn law_only_changes_of_a_class_dirty_it(
    policy: Policy,
    need_rescan: bool,
    kind: EventKind,
    paths: Vec<EventPath>,
    watch_bulk: bool,
    out: EventOutcome,
    class: Class,
)
    requires
        call_ensures(Policy::handle_event, (&policy, need_rescan, kind, &paths, watch_bulk), out),
    ensures
        need_rescan ==> out.signals@ == seq![ChangeSignal::Overflow],
        !need_rescan ==> !out.signals@.contains(ChangeSignal::Overflow),
        out.signals@.contains(ChangeSignal::Changed(class)) ==> !need_rescan && kind
            != EventKind::Other && exists|i: int|
            0 <= i < paths@.len() && policy.class_of((#[trigger] paths@[i]).path@) == Some(class),
        out.signals@.no_duplicates(),
{
}

/// What becomes of the watches: the watch of a removed path is gone, a directory that came is
/// watched for its class like those that were there from the beginning, and nothing else changes.
pub proof fn law_new_directories_are_watched_like_old_ones(
    policy: Policy,
    kind: EventKind,
    paths: Vec<EventPath>,
    watch_bulk: bool,
    out: EventOutcome,
    i: int,
    class: Option<Class>,
    name: &str,
    pruned: bool,
)
    requires
        call_ensures(Policy::handle_event, (&policy, false, kind, &paths, watch_bulk), out),
        kind != EventKind::Other,
        0 <= i < paths@.len(),
        call_ensures(Policy::classify, (&policy, &paths@[i].path), class),
        call_ensures(FsPath::file_name, (&paths@[i].path,), Some(name)),
        call_ensures(Policy::prune_small, (&policy, &paths@[i].path, name), pruned),
    ensures
        out.changes@.len() == paths@.len(),
        class is None ==> out.changes@[i] == WatchChange::Keep,
        class is Some && kind == EventKind::Remove ==> out.changes@[i] == WatchChange::Forget,
        kind != EventKind::Remove ==> out.changes@[i] != WatchChange::Forget,
        kind == EventKind::Modify ==> out.changes@[i] == WatchChange::Keep,
        !paths@[i].is_dir && kind != EventKind::CreateFolder && kind != EventKind::Remove
            ==> out.changes@[i] == WatchChange::Keep,
        (kind == EventKind::CreateFolder || paths@[i].is_dir && (kind == EventKind::CreateOther
            || kind == EventKind::RenamedTo)) && class == Some(Class::Small) && !pruned
            ==> out.changes@[i] == WatchChange::AddSmall,
        (kind == EventKind::CreateFolder || paths@[i].is_dir && (kind == EventKind::CreateOther
            || kind == EventKind::RenamedTo)) && class == Some(Class::Bulk) ==> out.changes@[i]
            == if watch_bulk {
            WatchChange::AddBulk
        } else {
            WatchChange::Keep
        },
        out.changes@[i] == WatchChange::AddSmall ==> class == Some(Class::Small) && !pruned,
        out.changes@[i] == WatchChange::AddBulk ==> watch_bulk,
{
}

/// Where a path of the worktree falls, outside the harness home: to the bulk class if one of its
/// components is a bulk directory and that class is captured, to none if it is not, and else to the
/// small class; but what is the daemon's, or has an excluded name, to none.
pub proof fn law_worktree_paths_are_bulk_below_bulk_directories(
    policy: Policy,
    path: FsPath,
    rel: Seq<Seq<char>>,
    class: Option<Class>,
)
    requires
        path@ == (PathModel { absolute: policy.root@.absolute, parts: policy.root@.parts + rel }),
        policy.harness_home is Some ==> !path@.starts_with(policy.harness_home->0@),
        !path@.starts_with(policy.staging_dir@),
        !path@.starts_with(policy.daemon_dir@),
        !Policy::excluded_path(path@),
        call_ensures(Policy::classify, (&policy, &path), class),
    ensures
        (exists|i: int, j: int|
            0 <= i < rel.len() && 0 <= j < policy.bulk_dirs@.len() && #[trigger] rel[i]
                == #[trigger] policy.bulk_dirs@[j]@ && rel[i] != ".."@) ==> class
            == if policy.capture_bulk {
            Some(Class::Bulk)
        } else {
            None
        },
        (forall|i: int, j: int|
            0 <= i < rel.len() && 0 <= j < policy.bulk_dirs@.len() ==> #[trigger] rel[i]
                != #[trigger] policy.bulk_dirs@[j]@) ==> class == Some(Class::Small),
{
    assert(path@.parts.take(policy.root@.parts.len() as int) =~= policy.root@.parts);
    assert(path@.below(policy.root@) =~= rel);
    if exists|i: int, j: int|
        0 <= i < rel.len() && 0 <= j < policy.bulk_dirs@.len() && #[trigger] rel[i]
            == #[trigger] policy.bulk_dirs@[j]@ && rel[i] != ".."@ {
        let (i, j) = choose|i: int, j: int|
            0 <= i < rel.len() && 0 <= j < policy.bulk_dirs@.len() && #[trigger] rel[i]
                == #[trigger] policy.bulk_dirs@[j]@ && rel[i] != ".."@;
        assert(text::among(policy.bulk_dirs@, rel[i]));
        assert(index::component_in(rel, policy.bulk_dirs@));
    }
}

/// Everything in the harness home is of the small class, but for its credential files, what is the
/// daemon's and what has an excluded name, which are of none.
pub proof fn law_the_harness_home_is_small_but_for_credentials(
    policy: Policy,
    home: FsPath,
    path: FsPath,
    class: Option<Class>,
)
    requires
        policy.harness_home == Some(home),
        path@.starts_with(home@),
        call_ensures(Policy::classify, (&policy, &path), class),
    ensures
        (exists|i: int|
            0 <= i < policy.credential_files@.len() && path@ == home@.join(
                (#[trigger] policy.credential_files@[i])@,
            )) ==> class is None,
        class != Some(Class::Bulk),
        class is None ==> path@.starts_with(policy.staging_dir@) || path@.starts_with(
            policy.daemon_dir@,
        ) || Policy::excluded_path(path@) || exists|i: int|
            0 <= i < policy.credential_files@.len() && path@ == home@.join(
                (#[trigger] policy.credential_files@[i])@,
            ),
{
}

/// Outside the worktree and the harness home the git dirs are of the small class and everything
/// else of none.
pub proof fn law_only_git_dirs_are_captured_elsewhere(
    policy: Policy,
    path: FsPath,
    class: Option<Class>,
)
    requires
        !path@.starts_with(policy.root@),
        policy.harness_home is Some ==> !path@.starts_with(policy.harness_home->0@),
        call_ensures(Policy::classify, (&policy, &path), class),
    ensures
        class is Some ==> class == Some(Class::Small) && exists|i: int|
            0 <= i < policy.git_dirs@.len() && path@.starts_with(
                #[trigger] policy.git_dirs@[i]@,
            ),
        forall|i: int|
            0 <= i < policy.git_dirs@.len() && path@.starts_with(#[trigger] policy.git_dirs@[i]@)
                && !path@.starts_with(policy.staging_dir@) && !path@.starts_with(
                policy.daemon_dir@,
            ) && !Policy::excluded_path(path@) ==> class == Some(Class::Small),
{
    assert forall|i: int|
        0 <= i < policy.git_dirs@.len() && path@.starts_with(#[trigger] policy.git_dirs@[i]@)
            && !path@.starts_with(policy.staging_dir@) && !path@.starts_with(
            policy.daemon_dir@,
        ) && !Policy::excluded_path(path@) implies class == Some(Class::Small) by {
        assert(policy.in_git_dir(path@));
    }
}

/// What a policy excludes by name: a path whose last component is excluded in its directory, and
/// none other, is of no class on that account.
pub proof fn law_excluded_names_dirty_nothing(
    policy: Policy,
    path: FsPath,
    name: &str,
    parent: Option<&str>,
    class: Option<Class>,
    by_name: bool,
)
    requires
        call_ensures(FsPath::file_name, (&path,), Some(name)),
        call_ensures(FsPath::parent_name, (&path,), parent),
        call_ensures(index::is_excluded_name, (name, parent), by_name),
        call_ensures(Policy::classify, (&policy, &path), class),
    ensures
        by_name ==> class is None,
        by_name == Policy::excluded_path(path@),
{
}

/// A policy watches the workspace that it was made for: everything in the daemon's directory under
/// its root, and in its staging directory, is of no class.
pub proof fn law_a_policy_leaves_the_daemon_alone(
    spec: WatchSpec,
    git_dir: Option<(FsPath, FsPath)>,
    policy: Policy,
    path: FsPath,
    rel: Seq<Seq<char>>,
    class: Option<Class>,
    name: &str,
    small: bool,
    bulk: bool,
)
    requires
        call_ensures(Policy::new, (&spec, git_dir), policy),
        path@.absolute == spec.root@.absolute && path@.parts == spec.root@.parts.push(".sealantd"@)
            + rel || path@.absolute == spec.staging_dir@.absolute && path@.parts
            == spec.staging_dir@.parts + rel,
        call_ensures(Policy::classify, (&policy, &path), class),
        call_ensures(Policy::prune_small, (&policy, &path, name), small),
        call_ensures(Policy::prune_bulk, (&policy, &path, name), bulk),
    ensures
        class is None,
        small && bulk,
{
    if path@.parts == spec.root@.parts.push(".sealantd"@) + rel && path@.absolute
        == spec.root@.absolute {
        assert(path@.parts.take(policy.daemon_dir@.parts.len() as int)
            =~= policy.daemon_dir@.parts);
    } else {
        assert(path@.parts.take(policy.staging_dir@.parts.len() as int)
            =~= policy.staging_dir@.parts);
    }
}

/// Watches for the small class cover every directory that holds what the class captures: it stays
/// out of bulk directories, the daemon's, the harness home (a root of its own) and the parts of a
/// git dir that only grow, and out of nothing else.
pub proof fn law_small_watches_stay_out_of_few_directories(
    policy: Policy,
    dir: FsPath,
    name: &str,
    pruned: bool,
)
    requires
        call_ensures(Policy::prune_small, (&policy, &dir, name), pruned),
    ensures
        forall|j: int|
            0 <= j < policy.bulk_dirs@.len() && (#[trigger] policy.bulk_dirs@[j])@ == name@
                ==> pruned,
        name@ == ".sealantd"@ ==> pruned,
        dir@.starts_with(policy.staging_dir@) || dir@.starts_with(policy.daemon_dir@) ==> pruned,
        policy.harness_home is Some && policy.harness_home->0@ == dir@ ==> pruned,
        forall|i: int, part: Seq<char>|
            0 <= i < policy.git_dirs@.len() && dir@ == #[trigger] policy.git_dirs@[i]@.child(part)
                && (part == "objects"@ || part == "worktrees"@ || part == "lfs"@ || part
                == "modules"@) ==> pruned,
        pruned ==> {
            ||| exists|j: int|
                0 <= j < policy.bulk_dirs@.len() && (#[trigger] policy.bulk_dirs@[j])@ == name@
            ||| name@ == ".sealantd"@
            ||| dir@.starts_with(policy.staging_dir@)
            ||| dir@.starts_with(policy.daemon_dir@)
            ||| policy.harness_home is Some && policy.harness_home->0@ == dir@
            ||| exists|i: int, part: Seq<char>|
                0 <= i < policy.git_dirs@.len() && dir@ == #[trigger] policy.git_dirs@[i]@.child(
                    part,
                ) && (part == "objects"@ || part == "worktrees"@ || part == "lfs"@ || part
                    == "modules"@)
        },
{
    assert forall|j: int|
        0 <= j < policy.bulk_dirs@.len() && (#[trigger] policy.bulk_dirs@[j])@
            == name@ implies pruned by {
        assert(text::among(policy.bulk_dirs@, name@));
    }
    assert forall|i: int, part: Seq<char>|
        0 <= i < policy.git_dirs@.len() && dir@ == #[trigger] policy.git_dirs@[i]@.child(part) && (
        part == "objects"@ || part == "worktrees"@ || part == "lfs"@ || part
            == "modules"@) implies pruned by {
        let git = policy.git_dirs@[i]@;
        assert(dir@.parts.take(git.parts.len() as int) =~= git.parts);
        assert(dir@.below(git) =~= seq![part]);
        assert(policy.git_internal(dir@));
    }
    if pruned && policy.git_internal(dir@) {
        let i = choose|i: int|
            0 <= i < policy.git_dirs@.len() && dir@.starts_with(#[trigger] policy.git_dirs@[i]@)
                && is_git_internal(dir@.below(policy.git_dirs@[i]@));
        let git = policy.git_dirs@[i]@;
        let part = dir@.below(git)[0];
        assert(dir@.parts =~= git.parts.push(part));
        assert(dir@ == policy.git_dirs@[i]@.child(part));
    }
}

/// A walk for bulk roots finds each bulk directory and walks into every other one, but for `.git`
/// and the daemon's; it finds none where the class is not captured.
pub proof fn law_bulk_roots_are_the_bulk_directories(
    policy: Policy,
    dir: FsPath,
    name: &str,
    pruned: bool,
    walk: BulkWalk,
)
    requires
        call_ensures(Policy::prune_bulk, (&policy, &dir, name), pruned),
        call_ensures(Policy::bulk_roots, (&policy, &dir, name), walk),
    ensures
        pruned == (name@ == ".git"@ || name@ == ".sealantd"@ || dir@.starts_with(
            policy.staging_dir@,
        ) || dir@.starts_with(policy.daemon_dir@)),
        walk == BulkWalk::Skip <==> !policy.capture_bulk || pruned,
        walk == BulkWalk::Root ==> exists|j: int|
            0 <= j < policy.bulk_dirs@.len() && (#[trigger] policy.bulk_dirs@[j])@ == name@,
        walk == BulkWalk::Descend ==> forall|j: int|
            0 <= j < policy.bulk_dirs@.len() ==> (#[trigger] policy.bulk_dirs@[j])@ != name@,
{
}

/// The small class is watched from the worktree, from each git dir that lies outside it and from the
/// harness home, and from nowhere else.
pub proof fn law_small_roots_reach_everything(policy: Policy, r: Vec<FsPath>)
    requires
        call_ensures(Policy::small_roots, (&policy,), r),
    ensures
        order::views(r@).contains(policy.root@),
        policy.harness_home is Some ==> order::views(r@).contains(policy.harness_home->0@),
        forall|i: int|
            0 <= i < policy.git_dirs@.len() ==> (#[trigger] policy.git_dirs@[i])@.starts_with(
                policy.root@,
            ) || order::views(r@).contains(policy.git_dirs@[i]@),
        forall|k: int|
            0 <= k < r@.len() ==> (#[trigger] r@[k])@ == policy.root@ || policy.harness_home is Some
                && r@[k]@ == policy.harness_home->0@ || order::views(policy.git_dirs@).contains(
                r@[k]@,
            ),
{
    let gv = order::views(policy.git_dirs@);
    let outer = policy.outer_git_dirs(gv);
    let rv = order::views(r@);
    lemma_outer(policy, gv);
    assert(rv[0] == policy.root@);
    if policy.harness_home is Some {
        assert(rv[rv.len() - 1] == policy.harness_home->0@);
    }
    assert forall|i: int| 0 <= i < policy.git_dirs@.len() implies (
    #[trigger] policy.git_dirs@[i])@.starts_with(policy.root@) || rv.contains(
        policy.git_dirs@[i]@,
    ) by {
        assert(gv[i] == policy.git_dirs@[i]@);
        if !gv[i].starts_with(policy.root@) {
            assert(gv.contains(gv[i]));
            assert(outer.contains(gv[i]));
            let k = choose|k: int| 0 <= k < outer.len() && outer[k] == gv[i];
            assert(rv[k + 1] == outer[k]);
        }
    }
    assert forall|k: int| 0 <= k < r@.len() implies (#[trigger] r@[k])@ == policy.root@
        || policy.harness_home is Some && r@[k]@ == policy.harness_home->0@ || gv.contains(
        r@[k]@,
    ) by {
        assert(rv[k] == r@[k]@);
        if 1 <= k < outer.len() + 1 {
            assert(rv[k] == outer[k - 1]);
            assert(outer.contains(outer[k - 1]));
        }
    }
}

proof fn lemma_outer(policy: Policy, some: Seq<PathModel>)
    ensures
        forall|p: PathModel| #[trigger]
            policy.outer_git_dirs(some).contains(p) <==> some.contains(p) && !p.starts_with(
                policy.root@,
            ),
    decreases some.len(),
{
    if some.len() > 0 {
        lemma_outer(policy, some.drop_last());
        let (front, last) = (some.drop_last(), some.last());
        let out = policy.outer_git_dirs(front);
        assert forall|p: PathModel| #[trigger]
            policy.outer_git_dirs(some).contains(p) <==> some.contains(p) && !p.starts_with(
                policy.root@,
            ) by {
            assert(out.contains(p) <==> front.contains(p) && !p.starts_with(policy.root@));
            if some.contains(p) {
                let i = choose|i: int| 0 <= i < some.len() && some[i] == p;
                if i < front.len() {
                    assert(front[i] == p);
                }
            }
            if front.contains(p) {
                let i = choose|i: int| 0 <= i < front.len() && front[i] == p;
                assert(some[i] == p);
            }
            assert(some[some.len() - 1] == last);
            if last.starts_with(policy.root@) {
            } else {
                let all = out.push(last);
                if out.contains(p) {
                    let i = choose|i: int| 0 <= i < out.len() && out[i] == p;
                    assert(all[i] == p);
                }
                if all.contains(p) {
                    let i = choose|i: int| 0 <= i < all.len() && all[i] == p;
                    if i < out.len() {
                        assert(out[i] == p);
                    }
                }
                assert(all[out.len() as int] == last);
            }
        }
    }
}

/// Watches are registered only as far as the budget goes, and wherever they fit: the small class is
/// watched just if its directories fit, the bulk class just if it has a root and both fit; nothing
/// is watched where watching is off. A larger budget never watches less.
pub proof fn law_a_class_is_watched_where_its_directories_fit(
    policy: WatchPolicy,
    sysctl: Option<u64>,
    limit: usize,
    small_dirs: usize,
    bulk_dirs: usize,
    has_bulk_roots: bool,
    modes: WatchModes,
)
    requires
        call_ensures(budget_of, (&policy, sysctl), limit),
        call_ensures(start, (&policy, sysctl, small_dirs, bulk_dirs, has_bulk_roots), modes),
    ensures
        !policy.enabled ==> modes.small == Mode::Polled && modes.bulk == Mode::Polled,
        policy.enabled ==> (modes.small == Mode::Watched <==> small_dirs <= limit),
        policy.enabled && has_bulk_roots ==> (modes.bulk == Mode::Watched <==> small_dirs
            + bulk_dirs <= limit),
        !has_bulk_roots ==> modes.bulk == Mode::Polled,
        policy.budget matches Some(b) ==> limit == b,
        policy.budget is None && sysctl is None ==> limit == 8192,
        policy.budget is None ==> (sysctl matches Some(m) ==> limit as int * 2 <= m && (limit
            < usize::MAX ==> m < limit as int * 2 + 2)),
{
}

/// The sysctl is raised only where the policy allows it and leaves the budget open, and the watches
/// do not fit; once it was raised as far as asked, they do.
pub proof fn law_a_raised_limit_fits_the_watches(
    policy: WatchPolicy,
    sysctl: Option<u64>,
    small_dirs: usize,
    bulk_dirs: usize,
    has_bulk_roots: bool,
    before: WatchModes,
    wanted: Option<u64>,
    target: Option<u64>,
    after: WatchModes,
)
    requires
        call_ensures(wants_raise, (&policy, sysctl, small_dirs, bulk_dirs), wanted),
        call_ensures(start, (&policy, sysctl, small_dirs, bulk_dirs, has_bulk_roots), before),
        wanted matches Some(least) ==> call_ensures(
            raise_max_user_watches,
            (sysctl, least),
            target,
        ),
        call_ensures(
            start,
            (
                &policy,
                if target is Some {
                    target
                } else {
                    sysctl
                },
                small_dirs,
                bulk_dirs,
                has_bulk_roots,
            ),
            after,
        ),
        small_dirs + bulk_dirs <= usize::MAX,
        (small_dirs + bulk_dirs) * 2 <= u64::MAX,
    ensures
        wanted is Some ==> policy.raise_limit && policy.budget is None,
        wanted is Some && policy.enabled ==> !(before.small == Mode::Watched && before.bulk
            == Mode::Watched),
        policy.enabled && has_bulk_roots && policy.raise_limit && policy.budget is None && !(
        before.small == Mode::Watched && before.bulk == Mode::Watched) ==> wanted is Some,
        wanted is Some && policy.enabled ==> after.small == Mode::Watched && (has_bulk_roots
            ==> after.bulk == Mode::Watched),
        wanted is Some && sysctl is Some && target is Some ==> target->0 > sysctl->0,
{
}

} // verus!
