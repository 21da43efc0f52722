//! The capture roots: which on-disk paths each chunked class carries, as one policy the engine's
//! listings and the materializer's sweep share. Whatever a snap would list is exactly what a
//! materialize may remove when the plan no longer has it; everything else on disk is left alone.

use vstd::prelude::*;
use vstd::string::*;
use crate::index;
use crate::index::DAEMON_DIR;
use crate::order;
use crate::paths;
use crate::paths::{FsPath, PathModel};
use crate::text;

verus! {

/// Where the classes live on disk.
pub struct ClassRoots {
    /// Worktree root.
    pub root: FsPath,
    /// Harness home (the `harness/` subtree of the workspace class); none when not captured.
    pub harness_home: Option<FsPath>,
    /// The credential files of the harness, relative to its home (never listed, never swept).
    pub credential_files: Vec<String>,
    /// Directory names treated as bulk wherever they appear.
    pub bulk_dirs: Vec<String>,
    /// The staging directory (never listed, never swept).
    pub staging_dir: FsPath,
}

/// A directory that a class mounts.
#[derive(Debug, Clone, Copy, PartialEq, Eq, Structural)]
pub enum Mount {
    /// The git dir, under `.git`.
    Git,
    /// A git-ignored directory or a nested repository, under `tree`.
    Tree,
    /// The harness home, under `harness`.
    Harness,
    /// The worktree root, for the bulk class.
    Bulk,
}

/// Whether a path is one of the credential files, which are named relative to the harness home.
pub open spec fn is_credential(home: PathModel, names: Seq<String>, abs: PathModel) -> bool {
    exists|i: int| 0 <= i < names.len() && abs == home.join((#[trigger] names[i])@)
}

/// Whether `abs` is one of the harness credential files, which are never captured. `names` are
/// those files, relative to the harness home.
pub fn is_credential_file(home: &FsPath, names: &Vec<String>, abs: &FsPath) -> (r: bool)
    ensures
        r == is_credential(home@, names@, abs@),
{
    let mut i: usize = 0;
    while i < names.len()
        invariant
            0 <= i <= names@.len(),
            forall|j: int| 0 <= j < i ==> abs@ != home@.join((#[trigger] names@[j])@),
        decreases names@.len() - i,
    {
        if home.join(names[i].as_str()).same(abs) {
            assert(abs@ == home@.join(names@[i as int]@));
            return true;
        }
        i = i + 1;
    }
    false
}

impl ClassRoots {
    /// The daemon's own paths: staging, `<root>/.sealantd`, the harness home as a whole.
    pub open spec fn daemon_path(&self, abs: PathModel) -> bool {
        ||| abs == self.staging_dir@
        ||| abs == self.root@.child(DAEMON_DIR@)
        ||| self.harness_home is Some && self.harness_home->0@ == abs
    }

    /// The daemon's own paths: staging, `<root>/.sealantd`, the harness home as a whole.
    pub fn is_daemon_path(&self, abs: &FsPath) -> (r: bool)
        ensures
            r == self.daemon_path(abs@),
    {
        if abs.same(&self.staging_dir) || abs.same(&self.root.child(DAEMON_DIR)) {
            return true;
        }
        match &self.harness_home {
            Some(h) => h.same(abs),
            None => false,
        }
    }

    /// Whether a walk of a mounted directory stays out of a directory: its path on disk, its
    /// virtual path and its name decide.
    pub open spec fn pruned(
        &self,
        mount: Mount,
        abs: PathModel,
        v: Seq<char>,
        name: Seq<char>,
    ) -> bool {
        match mount {
            Mount::Git => v == ".git/objects"@ || v == ".git/worktrees"@ || v == ".git/lfs"@,
            Mount::Tree => text::among(self.bulk_dirs@, name) || self.daemon_path(abs),
            Mount::Harness => false,
            Mount::Bulk => v == ".git"@ || name == DAEMON_DIR@ || self.daemon_path(abs),
        }
    }

    /// Whether a walk of a mounted directory stays out of a directory.
    pub fn prunes(&self, mount: Mount, abs: &FsPath, v: &str, name: &str) -> (r: bool)
        ensures
            r == self.pruned(mount, abs@, v@, name@),
    {
        match mount {
            Mount::Git => text::str_eq(v, ".git/objects") || text::str_eq(v, ".git/worktrees")
                || text::str_eq(v, ".git/lfs"),
            Mount::Tree => text::contains(&self.bulk_dirs, name) || self.is_daemon_path(abs),
            Mount::Harness => false,
            Mount::Bulk => text::str_eq(v, ".git") || text::str_eq(name, DAEMON_DIR)
                || self.is_daemon_path(abs),
        }
    }

    /// Whether the class keeps an entry that is not a directory: git's own bookkeeping without
    /// what the git section carries, the harness home without credentials, and of the worktree
    /// what lies in a bulk directory.
    pub open spec fn kept(&self, mount: Mount, abs: PathModel, v: Seq<char>) -> bool {
        match mount {
            Mount::Git => {
                &&& v != ".git/HEAD"@
                &&& v != ".git/packed-refs"@
                &&& v != ".git/commondir"@
                &&& v != ".git/gitdir"@
                &&& !text::has_prefix(v, ".git/refs/"@)
            },
            Mount::Tree => true,
            Mount::Harness => match self.harness_home {
                Some(h) => !is_credential(h@, self.credential_files@, abs),
                None => true,
            },
            Mount::Bulk => abs.starts_with(self.root@) && index::component_in(
                abs.below(self.root@),
                self.bulk_dirs@,
            ),
        }
    }

    /// Whether the class keeps an entry that is not a directory.
    pub fn keeps(&self, mount: Mount, abs: &FsPath, v: &str) -> (r: bool)
        ensures
            r == self.kept(mount, abs@, v@),
    {
        match mount {
            Mount::Git => !(text::str_eq(v, ".git/HEAD") || text::str_eq(v, ".git/packed-refs")
                || text::str_eq(v, ".git/commondir") || text::str_eq(v, ".git/gitdir")
                || text::starts_with(v, ".git/refs/")),
            Mount::Tree => true,
            Mount::Harness => match &self.harness_home {
                Some(h) => !is_credential_file(h, &self.credential_files, abs),
                None => true,
            },
            Mount::Bulk => match abs.strip_prefix(&self.root) {
                Some(rel) => index::has_component_in(&rel, &self.bulk_dirs),
                None => false,
            },
        }
    }

    /// Where a workspace-class virtual path lands on disk.
    pub open spec fn workspace_place(&self, git_dir: PathModel, v: Seq<char>) -> Option<PathModel> {
        let i = text::first_index(v, '/');
        let head = if i < 0 {
            v
        } else {
            v.take(i)
        };
        let rest = if i < 0 {
            Seq::empty()
        } else {
            v.skip(i + 1)
        };
        let base = if head == ".git"@ {
            Some(git_dir)
        } else if head == "tree"@ {
            Some(self.root@)
        } else if head == "harness"@ {
            match self.harness_home {
                Some(h) => Some(h@),
                None => None,
            }
        } else {
            None
        };
        match base {
            Some(b) => if rest.len() == 0 {
                Some(b)
            } else {
                Some(b.join(rest))
            },
            None => None,
        }
    }

    /// Where a workspace-class virtual path lands on disk: `.git/…` in the git dir, `tree/…`
    /// under the root, `harness/…` in the harness home. `None` for an unknown root name or a
    /// harness path without a harness home.
    pub fn workspace_path(&self, repo_git_dir: &FsPath, virtual_path: &str) -> (r: Option<FsPath>)
        ensures
            match r {
                Some(p) => self.workspace_place(repo_git_dir@, virtual_path@) == Some(p@),
                None => self.workspace_place(repo_git_dir@, virtual_path@) is None,
            },
    {
        let n: usize = virtual_path.unicode_len();
        proof {
            text::lemma_first_index(virtual_path@, '/');
            reveal_strlit(".git");
            reveal_strlit("tree");
            reveal_strlit("harness");
        }
        let (head, rest): (&str, &str) = match text::find(virtual_path, '/') {
            Some(i) => (virtual_path.substring_char(0, i), virtual_path.substring_char(i + 1, n)),
            None => (virtual_path, virtual_path.substring_char(0, 0)),
        };
        proof {
            let i = text::first_index(virtual_path@, '/');
            if i < 0 {
                assert(rest@ =~= Seq::empty());
            } else {
                assert(head@ =~= virtual_path@.take(i));
                assert(rest@ =~= virtual_path@.skip(i + 1));
            }
        }
        let base: FsPath = if text::str_eq(head, ".git") {
            repo_git_dir.copy()
        } else if text::str_eq(head, "tree") {
            self.root.copy()
        } else if text::str_eq(head, "harness") {
            match &self.harness_home {
                Some(h) => h.copy(),
                None => {
                    return None;
                },
            }
        } else {
            return None;
        };
        if rest.is_empty() {
            Some(base)
        } else {
            Some(base.join(rest))
        }
    }

    /// Whether a path that git does not track is left out of the workspace class: it lies in a
    /// bulk directory, or is the daemon's own.
    pub open spec fn skips_root(&self, rel: Seq<char>) -> bool {
        ||| index::component_in(paths::components(rel), self.bulk_dirs@)
        ||| rel == DAEMON_DIR@
        ||| self.daemon_path(self.root@.join(rel))
    }

    /// The mounts that make the workspace listing, in order.
    pub open spec fn workspace_steps(
        &self,
        git_dir: PathModel,
        common_dir: PathModel,
        roots: Seq<Seq<char>>,
    ) -> Seq<StepModel> {
        let git = seq![StepModel::Dir(Mount::Git, ".git"@, git_dir, Seq::empty())];
        let common = if common_dir == git_dir {
            Seq::empty()
        } else {
            seq![StepModel::Dir(Mount::Git, ".git"@, common_dir, Seq::empty())]
        };
        let harness = match self.harness_home {
            Some(h) => seq![StepModel::Dir(Mount::Harness, "harness"@, h@, Seq::empty())],
            None => Seq::empty(),
        };
        git + common + self.tree_steps(roots) + harness
    }

    /// The mounts of the paths that git does not track.
    pub open spec fn tree_steps(&self, roots: Seq<Seq<char>>) -> Seq<StepModel>
        decreases roots.len(),
    {
        if roots.len() == 0 {
            Seq::empty()
        } else {
            let front = self.tree_steps(roots.drop_last());
            let rel = text::without_end(roots.last(), '/');
            if self.skips_root(rel) {
                front
            } else if roots.last().len() > 0 && roots.last().last() == '/' {
                front.push(StepModel::Dir(Mount::Tree, "tree"@, self.root@, rel))
            } else {
                front.push(StepModel::File("tree/"@ + rel, self.root@.join(rel)))
            }
        }
    }

    /// The workspace class listing as a list of mounts: `.git/` bookkeeping (minus objects, refs,
    /// `HEAD`, `packed-refs`), `tree/` (git-ignored files and nested repositories), `harness/`
    /// (the harness home minus credential files). `roots` is what [`tree_roots`] makes of git's
    /// answer.
    pub fn workspace_listing(
        &self,
        git_dir: &FsPath,
        common_dir: &FsPath,
        roots: &Vec<String>,
    ) -> (r: Vec<Step>)
        ensures
            order::views(r@) == self.workspace_steps(
                git_dir@,
                common_dir@,
                order::views(roots@),
            ),
    {
        let mut out: Vec<Step> = Vec::new();
        out.push(
            Step::Dir {
                mount: Mount::Git,
                prefix: ".git".to_owned(),
                dir: git_dir.copy(),
                rel: String::new(),
            },
        );
        let ghost git = seq![StepModel::Dir(Mount::Git, ".git"@, git_dir@, Seq::empty())];
        assert(order::views(out@) =~= git);
        let ghost common = if common_dir@ == git_dir@ {
            Seq::empty()
        } else {
            seq![StepModel::Dir(Mount::Git, ".git"@, common_dir@, Seq::empty())]
        };
        if !common_dir.same(git_dir) {
            out.push(
                Step::Dir {
                    mount: Mount::Git,
                    prefix: ".git".to_owned(),
                    dir: common_dir.copy(),
                    rel: String::new(),
                },
            );
        }
        assert(order::views(out@) =~= git + common);
        let ghost base = git + common;
        let ghost rv = order::views(roots@);
        let mut i: usize = 0;
        assert(rv.take(0) =~= Seq::empty());
        assert(base + self.tree_steps(rv.take(0)) =~= base);
        while i < roots.len()
            invariant
                0 <= i <= roots@.len(),
                rv == order::views(roots@),
                order::views(out@) == base + self.tree_steps(rv.take(i as int)),
            decreases roots@.len() - i,
        {
            let ghost before = order::views(out@);
            let given: &str = roots[i].as_str();
            proof {
                assert(rv.take(i + 1).drop_last() =~= rv.take(i as int));
                assert(rv.take(i + 1).last() == given@);
            }
            let n: usize = given.unicode_len();
            let is_dir: bool = n > 0 && given.get_char(n - 1) == '/';
            let rel: &str = text::trim_end_char(given, '/');
            let place: FsPath = self.root.join(rel);
            let parts: Vec<String> = paths::components_of(rel);
            let skip: bool = index::has_component_in(&parts, &self.bulk_dirs) || text::str_eq(
                rel,
                DAEMON_DIR,
            ) || self.is_daemon_path(&place);
            if !skip {
                if is_dir {
                    let step = Step::Dir {
                        mount: Mount::Tree,
                        prefix: "tree".to_owned(),
                        dir: self.root.copy(),
                        rel: rel.to_owned(),
                    };
                    out.push(step);
                    assert(order::views(out@) =~= before.push(step@));
                } else {
                    let step = Step::File { path: text::concat("tree/", rel), abs: place };
                    out.push(step);
                    assert(order::views(out@) =~= before.push(step@));
                }
            }
            assert(order::views(out@) =~= base + self.tree_steps(rv.take(i + 1)));
            i = i + 1;
        }
        assert(rv.take(rv.len() as int) =~= rv);
        let ghost before = order::views(out@);
        match &self.harness_home {
            Some(h) => {
                let step = Step::Dir {
                    mount: Mount::Harness,
                    prefix: "harness".to_owned(),
                    dir: h.copy(),
                    rel: String::new(),
                };
                out.push(step);
                assert(order::views(out@) =~= before + seq![step@]);
            },
            None => {
                assert(before + Seq::empty() =~= before);
            },
        }
        assert(order::views(out@) == self.workspace_steps(git_dir@, common_dir@, rv));
        out
    }

    /// The bulk class listing as a mount: every bulk directory under the root.
    pub fn bulk_listing(&self) -> (r: Step)
        ensures
            r@ == StepModel::Dir(Mount::Bulk, Seq::empty(), self.root@, Seq::empty()),
    {
        Step::Dir {
            mount: Mount::Bulk,
            prefix: String::new(),
            dir: self.root.copy(),
            rel: String::new(),
        }
    }
}

/// One mount of a listing.
pub enum Step {
    /// Walk `dir/rel` and mount what it holds; virtual paths are those below `dir`, under
    /// `prefix`.
    Dir {
        /// Which directory this is.
        mount: Mount,
        /// The virtual prefix.
        prefix: String,
        /// The directory that the virtual prefix stands for.
        dir: FsPath,
        /// The part of it that is walked.
        rel: String,
    },
    /// Mount a single file under `tree`.
    File {
        /// Its virtual path.
        path: String,
        /// Its path on disk.
        abs: FsPath,
    },
}

/// What a mount stands for.
pub enum StepModel {
    /// A directory: what it is, the virtual prefix, the directory, and the part that is walked.
    Dir(Mount, Seq<char>, PathModel, Seq<char>),
    /// A file: its virtual path and its path on disk.
    File(Seq<char>, PathModel),
}

impl View for Step {
    type V = StepModel;

    open spec fn view(&self) -> StepModel {
        match self {
            Step::Dir { mount, prefix, dir, rel } => StepModel::Dir(*mount, prefix@, dir@, rel@),
            Step::File { path, abs } => StepModel::File(path@, abs@),
        }
    }
}

/// The paths that git lists as ignored, each ended by a NUL, and the nested repositories, as
/// directories.
pub open spec fn untracked_roots(listed: Seq<char>, gitlinks: Seq<Seq<char>>) -> Seq<Seq<char>> {
    text::pieces(listed, '\0').filter(|p: Seq<char>| p.len() > 0) + gitlinks.map_values(
        |g: Seq<char>| g.push('/'),
    )
}

/// The paths under the worktree that the workspace class carries because git does not: those
/// that `git ls-files -o -i --directory -z` prints, and the nested repositories in `gitlinks`.
pub fn tree_roots(listed: &str, gitlinks: &Vec<String>) -> (r: Vec<String>)
    ensures
        order::views(r@) == untracked_roots(listed@, order::views(gitlinks@)),
{
    let all: Vec<String> = text::split(listed, '\0');
    let ghost av = order::views(all@);
    let ghost f = |p: Seq<char>| p.len() > 0;
    let mut out: Vec<String> = Vec::new();
    let mut i: usize = 0;
    assert(av.take(0).filter(f) =~= Seq::empty()) by {
        reveal(Seq::filter);
    }
    while i < all.len()
        invariant
            0 <= i <= all@.len(),
            av == order::views(all@),
            f == (|p: Seq<char>| p.len() > 0),
            order::views(out@) == av.take(i as int).filter(f),
        decreases all@.len() - i,
    {
        proof {
            assert(av.take(i + 1).drop_last() =~= av.take(i as int));
            assert(av.take(i + 1).last() == all@[i as int]@);
            reveal(Seq::filter);
        }
        if !all[i].as_str().is_empty() {
            let ghost before = order::views(out@);
            out.push(all[i].clone());
            assert(order::views(out@) =~= before.push(all@[i as int]@));
        }
        i = i + 1;
    }
    assert(av.take(av.len() as int) =~= av);
    let ghost listed_part = order::views(out@);
    let ghost gv = order::views(gitlinks@);
    let ghost slashed = gv.map_values(|g: Seq<char>| g.push('/'));
    let mut j: usize = 0;
    while j < gitlinks.len()
        invariant
            0 <= j <= gitlinks@.len(),
            gv == order::views(gitlinks@),
            slashed == gv.map_values(|g: Seq<char>| g.push('/')),
            order::views(out@) == listed_part + slashed.take(j as int),
        decreases gitlinks@.len() - j,
    {
        let ghost before = order::views(out@);
        let mut g: String = gitlinks[j].clone();
        g.push('/');
        out.push(g);
        assert(order::views(out@) =~= before.push(slashed[j as int]));
        assert(slashed.take(j + 1) =~= slashed.take(j as int).push(slashed[j as int]));
        j = j + 1;
        assert(order::views(out@) =~= listed_part + slashed.take(j as int));
    }
    assert(slashed.take(slashed.len() as int) =~= slashed);
    out
}

/// A credential file of the harness is never listed, so it is neither captured nor swept.
pub proof fn law_credentials_are_never_kept(roots: ClassRoots, abs: PathModel, v: Seq<char>)
    requires
        roots.harness_home is Some,
        is_credential(roots.harness_home->0@, roots.credential_files@, abs),
    ensures
        !roots.kept(Mount::Harness, abs, v),
{
}

/// No mount of a listing walks into the staging directory.
pub proof fn law_staging_is_never_walked(roots: ClassRoots, v: Seq<char>, name: Seq<char>)
    ensures
        roots.pruned(Mount::Tree, roots.staging_dir@, v, name),
        roots.pruned(Mount::Bulk, roots.staging_dir@, v, name),
{
}

/// Where a virtual path of the workspace lies: below `.git/` in the git dir, below `tree/` in the
/// worktree, below `harness/` in the harness home, and nowhere else.
pub proof fn law_virtual_paths_lie_under_their_roots(
    roots: ClassRoots,
    git_dir: FsPath,
    v: &str,
    rest: Seq<char>,
    r: Option<FsPath>,
)
    requires
        call_ensures(ClassRoots::workspace_path, (&roots, &git_dir, v), r),
    ensures
        v@ == ".git"@ ==> r is Some && r->0@ == git_dir@,
        v@ == "tree"@ ==> r is Some && r->0@ == roots.root@,
        v@ == "harness"@ && roots.harness_home is Some ==> r is Some && r->0@
            == roots.harness_home->0@,
        rest.len() > 0 && v@ == ".git/"@ + rest ==> r is Some && r->0@ == git_dir@.join(rest),
        rest.len() > 0 && v@ == "tree/"@ + rest ==> r is Some && r->0@ == roots.root@.join(rest),
        rest.len() > 0 && v@ == "harness/"@ + rest && roots.harness_home is Some ==> r is Some
            && r->0@ == roots.harness_home->0@.join(rest),
        roots.harness_home is None && (v@ == "harness"@ || v@ == "harness/"@ + rest) ==> r is None,
        r is Some ==> text::has_prefix(v@, ".git"@) || text::has_prefix(v@, "tree"@)
            || text::has_prefix(v@, "harness"@),
{
    reveal_strlit(".git");
    reveal_strlit("tree");
    reveal_strlit("harness");
    reveal_strlit(".git/");
    reveal_strlit("tree/");
    reveal_strlit("harness/");
    let s = v@;
    text::lemma_first_index(s, '/');
    let i = text::first_index(s, '/');
    assert(".git"@.len() == 4 && "tree"@.len() == 4 && "harness"@.len() == 7);
    assert(".git"@[0] == '.' && "tree"@[0] == 't' && "harness"@[0] == 'h');
    if s == ".git"@ {
        assert(!s.contains('/'));
    }
    if s == ".git/"@ + rest {
        assert(s[4] == '/');
        text::lemma_first_index_is(s, '/', 4);
        assert(s.take(4) =~= ".git"@);
        assert(s.skip(5) =~= rest);
    }
    if s == "tree/"@ + rest {
        assert(s[4] == '/');
        text::lemma_first_index_is(s, '/', 4);
        assert(s.take(4) =~= "tree"@);
        assert(s.skip(5) =~= rest);
    }
    if s == "harness/"@ + rest {
        assert(s[7] == '/');
        text::lemma_first_index_is(s, '/', 7);
        assert(s.take(7) =~= "harness"@);
        assert(s.skip(8) =~= rest);
    }
    if r is Some {
        let head = if i < 0 {
            s
        } else {
            s.take(i)
        };
        assert(head == ".git"@ || head == "tree"@ || head == "harness"@);
        assert(s.take(head.len() as int) =~= head);
    }
}

/// The small and the bulk class share the worktree without a gap: a walk of the small class stays
/// out of every bulk directory, and of what is the daemon's, and out of nothing else; the bulk class
/// keeps just what lies below a bulk directory, from wherever in the worktree.
pub proof fn law_the_classes_share_the_worktree(
    roots: ClassRoots,
    abs: FsPath,
    v: &str,
    name: &str,
    pruned: bool,
    kept_small: bool,
    kept_bulk: bool,
    rel: Seq<Seq<char>>,
)
    requires
        abs@ == (PathModel { absolute: roots.root@.absolute, parts: roots.root@.parts + rel }),
        call_ensures(ClassRoots::prunes, (&roots, Mount::Tree, &abs, v, name), pruned),
        call_ensures(ClassRoots::keeps, (&roots, Mount::Tree, &abs, v), kept_small),
        call_ensures(ClassRoots::keeps, (&roots, Mount::Bulk, &abs, v), kept_bulk),
    ensures
        forall|j: int|
            0 <= j < roots.bulk_dirs@.len() && (#[trigger] roots.bulk_dirs@[j])@ == name@
                ==> pruned,
        abs@ == roots.staging_dir@ || abs@ == roots.root@.child(".sealantd"@) ==> pruned,
        roots.harness_home is Some && abs@ == roots.harness_home->0@ ==> pruned,
        pruned ==> (exists|j: int|
            0 <= j < roots.bulk_dirs@.len() && (#[trigger] roots.bulk_dirs@[j])@ == name@) || abs@
            == roots.staging_dir@ || abs@ == roots.root@.child(".sealantd"@)
            || roots.harness_home is Some && abs@ == roots.harness_home->0@,
        kept_small,
        forall|i: int, j: int|
            0 <= i < rel.len() && 0 <= j < roots.bulk_dirs@.len() && #[trigger] rel[i] == (
            #[trigger] roots.bulk_dirs@[j])@ && rel[i] != ".."@ ==> kept_bulk,
        (forall|i: int, j: int|
            0 <= i < rel.len() && 0 <= j < roots.bulk_dirs@.len() ==> #[trigger] rel[i] != (
            #[trigger] roots.bulk_dirs@[j])@) ==> !kept_bulk,
{
    assert(abs@.parts.take(roots.root@.parts.len() as int) =~= roots.root@.parts);
    assert(abs@.below(roots.root@) =~= rel);
    assert forall|j: int|
        0 <= j < roots.bulk_dirs@.len() && (#[trigger] roots.bulk_dirs@[j])@
            == name@ implies pruned by {
        assert(text::among(roots.bulk_dirs@, name@));
    }
    assert forall|i: int, j: int|
        0 <= i < rel.len() && 0 <= j < roots.bulk_dirs@.len() && #[trigger] rel[i] == (
        #[trigger] roots.bulk_dirs@[j])@ && rel[i] != ".."@ implies kept_bulk by {
        assert(text::among(roots.bulk_dirs@, rel[i]));
        assert(index::component_in(rel, roots.bulk_dirs@));
    }
}

/// Of a git dir everything is captured but what the git class carries itself (objects, refs, `HEAD`)
/// and what ties a worktree to its repository.
pub proof fn law_the_git_dir_is_captured_but_for_objects_and_refs(
    roots: ClassRoots,
    abs: FsPath,
    v: &str,
    name: &str,
    pruned: bool,
    kept: bool,
    rest: Seq<char>,
)
    requires
        call_ensures(ClassRoots::prunes, (&roots, Mount::Git, &abs, v, name), pruned),
        call_ensures(ClassRoots::keeps, (&roots, Mount::Git, &abs, v), kept),
    ensures
        pruned <==> v@ == ".git/objects"@ || v@ == ".git/worktrees"@ || v@ == ".git/lfs"@,
        v@ == ".git/refs/"@ + rest ==> !kept,
        v@ == ".git/HEAD"@ || v@ == ".git/packed-refs"@ || v@ == ".git/commondir"@ || v@
            == ".git/gitdir"@ ==> !kept,
        !kept ==> v@ == ".git/HEAD"@ || v@ == ".git/packed-refs"@ || v@ == ".git/commondir"@ || v@
            == ".git/gitdir"@ || text::has_prefix(v@, ".git/refs/"@),
{
    if v@ == ".git/refs/"@ + rest {
        assert(v@.take(".git/refs/"@.len() as int) =~= ".git/refs/"@);
    }
}

/// Of the harness home everything is captured but its credential files, and a walk stays out of
/// nothing.
pub proof fn law_the_harness_home_is_captured_but_for_credentials(
    roots: ClassRoots,
    home: FsPath,
    abs: FsPath,
    v: &str,
    name: &str,
    pruned: bool,
    kept: bool,
    i: int,
)
    requires
        roots.harness_home == Some(home),
        call_ensures(ClassRoots::prunes, (&roots, Mount::Harness, &abs, v, name), pruned),
        call_ensures(ClassRoots::keeps, (&roots, Mount::Harness, &abs, v), kept),
    ensures
        !pruned,
        0 <= i < roots.credential_files@.len() && abs@ == home@.join(roots.credential_files@[i]@)
            ==> !kept,
        !kept ==> exists|k: int|
            0 <= k < roots.credential_files@.len() && abs@ == home@.join(
                (#[trigger] roots.credential_files@[k])@,
            ),
{
}

/// A walk for the bulk class goes everywhere but into the repository's own git dir and what is the
/// daemon's.
pub proof fn law_a_bulk_walk_goes_everywhere_else(
    roots: ClassRoots,
    abs: FsPath,
    v: &str,
    name: &str,
    pruned: bool,
    step: Step,
)
    requires
        call_ensures(ClassRoots::prunes, (&roots, Mount::Bulk, &abs, v, name), pruned),
        call_ensures(ClassRoots::bulk_listing, (&roots,), step),
    ensures
        pruned <==> v@ == ".git"@ || name@ == ".sealantd"@ || abs@ == roots.staging_dir@ || abs@
            == roots.root@.child(".sealantd"@) || roots.harness_home is Some && abs@
            == roots.harness_home->0@,
        step is Dir && step->mount == Mount::Bulk && step->dir@ == roots.root@
            && step->prefix@.len() == 0 && step->rel@.len() == 0,
{
}

/// A workspace is listed from its git dir, its common dir where that is another one, each untracked
/// path of the worktree that is neither bulk nor the daemon's, and its harness home.
pub proof fn law_a_workspace_is_listed_whole(
    roots: ClassRoots,
    git_dir: FsPath,
    common_dir: FsPath,
    tree: Vec<String>,
    r: Vec<Step>,
    i: int,
)
    requires
        call_ensures(ClassRoots::workspace_listing, (&roots, &git_dir, &common_dir, &tree), r),
    ensures
        order::views(r@).contains(StepModel::Dir(Mount::Git, ".git"@, git_dir@, Seq::empty())),
        order::views(r@).contains(StepModel::Dir(Mount::Git, ".git"@, common_dir@, Seq::empty())),
        roots.harness_home is Some ==> order::views(r@).contains(
            StepModel::Dir(Mount::Harness, "harness"@, roots.harness_home->0@, Seq::empty()),
        ),
        0 <= i < tree@.len() ==> {
            let rel = text::without_end(tree@[i]@, '/');
            let skipped = index::component_in(paths::components(rel), roots.bulk_dirs@) || rel
                == ".sealantd"@ || roots.daemon_path(roots.root@.join(rel));
            &&& !skipped && tree@[i]@.len() > 0 && tree@[i]@.last() == '/' ==> order::views(
                r@,
            ).contains(StepModel::Dir(Mount::Tree, "tree"@, roots.root@, rel))
            &&& !skipped && !(tree@[i]@.len() > 0 && tree@[i]@.last() == '/') ==> order::views(
                r@,
            ).contains(StepModel::File("tree/"@ + rel, roots.root@.join(rel)))
        },
{
    let rv = order::views(r@);
    let tv = order::views(tree@);
    let git = seq![StepModel::Dir(Mount::Git, ".git"@, git_dir@, Seq::empty())];
    let common = if common_dir@ == git_dir@ {
        Seq::empty()
    } else {
        seq![StepModel::Dir(Mount::Git, ".git"@, common_dir@, Seq::empty())]
    };
    let steps = roots.tree_steps(tv);
    assert(rv[0] == git[0]);
    if common_dir@ != git_dir@ {
        assert(rv[1] == common[0]);
    }
    if roots.harness_home is Some {
        assert(rv[rv.len() - 1] == StepModel::Dir(
            Mount::Harness,
            "harness"@,
            roots.harness_home->0@,
            Seq::empty(),
        ));
    }
    if 0 <= i < tree@.len() {
        assert(tv[i] == tree@[i]@);
        if !roots.skips_root(text::without_end(tv[i], '/')) {
            lemma_tree_steps(roots, tv, i);
            let want = tree_step(roots, tv[i]);
            let k = choose|k: int| 0 <= k < steps.len() && steps[k] == want;
            assert(rv[git.len() + common.len() + k] == steps[k]);
        }
    }
}

spec fn tree_step(roots: ClassRoots, root: Seq<char>) -> StepModel {
    let rel = text::without_end(root, '/');
    if root.len() > 0 && root.last() == '/' {
        StepModel::Dir(Mount::Tree, "tree"@, roots.root@, rel)
    } else {
        StepModel::File("tree/"@ + rel, roots.root@.join(rel))
    }
}

proof fn lemma_tree_steps(roots: ClassRoots, tree: Seq<Seq<char>>, i: int)
    requires
        0 <= i < tree.len(),
        !roots.skips_root(text::without_end(tree[i], '/')),
    ensures
        roots.tree_steps(tree).contains(tree_step(roots, tree[i])),
    decreases tree.len(),
{
    let all = roots.tree_steps(tree);
    let front = roots.tree_steps(tree.drop_last());
    let want = tree_step(roots, tree[i]);
    if i < tree.len() - 1 {
        lemma_tree_steps(roots, tree.drop_last(), i);
        let k = choose|k: int| 0 <= k < front.len() && front[k] == want;
        assert(all[k] == front[k]);
    } else {
        assert(all[front.len() as int] == want);
    }
}

/// The untracked paths of a worktree are those that git lists, and each nested repository whole.
pub proof fn law_untracked_paths_and_nested_repositories_are_roots(
    listed: &str,
    gitlinks: Vec<String>,
    r: Vec<String>,
    i: int,
)
    requires
        call_ensures(tree_roots, (listed, &gitlinks), r),
    ensures
        0 <= i < gitlinks@.len() ==> order::views(r@).contains(gitlinks@[i]@.push('/')),
        0 <= i < text::pieces(listed@, '\0').len() && text::pieces(listed@, '\0')[i].len() > 0
            ==> order::views(r@).contains(text::pieces(listed@, '\0')[i]),
        0 <= i < r@.len() ==> text::pieces(listed@, '\0').contains(r@[i]@) || exists|k: int|
            0 <= k < gitlinks@.len() && r@[i]@ == (#[trigger] gitlinks@[k])@.push('/'),
{
    let all = text::pieces(listed@, '\0');
    let f = |p: Seq<char>| p.len() > 0;
    let some = all.filter(f);
    let gv = order::views(gitlinks@);
    let g = |x: Seq<char>| x.push('/');
    let links = gv.map_values(g);
    let rv = order::views(r@);
    assert(gv.len() == gitlinks@.len());
    assert(rv =~= some + links);
    assert(rv.len() == r@.len());
    if 0 <= i < gitlinks@.len() {
        assert(links[i] == gv[i].push('/'));
        assert(rv[some.len() + i] == links[i]);
    }
    if 0 <= i < all.len() && all[i].len() > 0 {
        all.lemma_filter_contains(f, i);
        let k = choose|k: int| 0 <= k < some.len() && some[k] == all[i];
        assert(rv[k] == some[k]);
    }
    if 0 <= i < r@.len() {
        assert(rv[i] == r@[i]@);
        if i < some.len() {
            assert(some.contains(some[i]));
            all.lemma_filter_contains_rev(f, some[i]);
        } else {
            let k = i - some.len();
            assert(rv[i] == links[k]);
            assert(links[k] == gitlinks@[k]@.push('/'));
        }
    }
}

/// A file named as a credential of the harness is one, wherever in the list it stands, and a file
/// that no name leads to is none.
pub proof fn law_each_credential_name_counts(
    home: FsPath,
    names: Vec<String>,
    abs: FsPath,
    i: int,
    r: bool,
)
    requires
        call_ensures(is_credential_file, (&home, &names, &abs), r),
        0 <= i < names@.len(),
    ensures
        abs@ == home@.join(names@[i]@) ==> r,
        !r ==> abs@ != home@.join(names@[i]@),
        r ==> exists|j: int| 0 <= j < names@.len() && abs@ == home@.join(#[trigger] names@[j]@),
{
}

/// The daemon's own paths are its staging directory, its directory in the workspace and the home of
/// the harness.
pub proof fn law_the_daemon_knows_its_own_paths(roots: ClassRoots, abs: FsPath, r: bool)
    requires
        call_ensures(ClassRoots::is_daemon_path, (&roots, &abs), r),
    ensures
        abs@ == roots.staging_dir@ ==> r,
        abs@ == roots.root@.child(".sealantd"@) ==> r,
        roots.harness_home matches Some(home) && home@ == abs@ ==> r,
        r && abs@ != roots.staging_dir@ && abs@ != roots.root@.child(".sealantd"@) ==> (
        roots.harness_home matches Some(home) && home@ == abs@),
{
}

} // verus!
