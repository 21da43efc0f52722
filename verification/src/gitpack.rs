//! Git class: the closure of refs, `HEAD`, index, stash and reflog tips read first, packed with
//! `git pack-objects --revs` against the previous capture's tips as negatives (never `--thin`),
//! indexed with `git index-pack`, checked with `git fsck --connectivity-only`; bounded retries
//! when refs move or an object goes missing mid-pack. What git prints is read here, and what it
//! is told is made here. Also the materialize-side texts: `packed-refs` and `HEAD`.

use vstd::prelude::*;
use vstd::string::*;
use crate::chunk;
use crate::manifest::{FsckStatus, INDEX_TREE_REF, PSEUDO_REF_PREFIX, WORKTREE_TREE_REF};
use crate::order;
use crate::order::SortedMap;
use crate::paths::FsPath;
use crate::text;

verus! {

/// Bounded attempts when refs move or objects vanish between the read and the pack.
pub const PACK_ATTEMPTS: u32 = 3;

/// Git errors.
#[derive(Debug)]
pub enum GitError {
    /// A git command failed.
    Command {
        /// The arguments.
        args: String,
        /// Trimmed stderr.
        stderr: String,
    },
    /// Not a git repository: where it was looked for.
    NotARepo(FsPath),
    /// I/O.
    Io(String),
}

impl GitError {
    /// What the error says.
    pub open spec fn says(&self) -> Seq<char> {
        match self {
            GitError::Command { args, stderr } => "git "@ + args@ + ": "@ + stderr@,
            GitError::NotARepo(root) => root@.written() + " is not a git repository"@,
            GitError::Io(why) => why@,
        }
    }

    /// What the error says.
    pub fn message(&self) -> (r: String)
        ensures
            r@ == self.says(),
    {
        match self {
            GitError::Command { args, stderr } => {
                let mut out: String = "git ".to_owned();
                out.append(args.as_str());
                out.append(": ");
                out.append(stderr.as_str());
                out
            },
            GitError::NotARepo(root) => {
                let mut out: String = root.text();
                out.append(" is not a git repository");
                out
            },
            GitError::Io(why) => why.clone(),
        }
    }
}

/// A repository and its directories.
pub struct GitRepo {
    /// Working tree root.
    pub root: FsPath,
    /// `git rev-parse --git-dir`, absolute.
    pub git_dir: FsPath,
    /// `git rev-parse --git-common-dir`, absolute (differs from `git_dir` in a linked worktree).
    pub common_dir: FsPath,
}

/// The line at a position, or `.git` when there is none.
pub open spec fn line_or_git(lines: Seq<Seq<char>>, i: int) -> Seq<char> {
    if i < lines.len() {
        lines[i]
    } else {
        ".git"@
    }
}

/// The path that git printed, seen from the working tree.
pub fn abs(root: &FsPath, p: &str) -> (r: FsPath)
    ensures
        r@ == root@.join(p@),
{
    root.join(p)
}

/// A list of refs as git prints it: `<name> <sha>` in each line; a later line of the same name
/// takes the place of an earlier one, and a line without a space counts for nothing.
pub open spec fn listed_refs(lines: Seq<Seq<char>>) -> Map<Seq<char>, Seq<char>>
    decreases lines.len(),
{
    if lines.len() == 0 {
        Map::empty()
    } else {
        let front = listed_refs(lines.drop_last());
        let i = text::first_index(lines.last(), ' ');
        if i < 0 {
            front
        } else {
            front.insert(lines.last().take(i), lines.last().skip(i + 1))
        }
    }
}

/// The second word of each line that has one.
pub open spec fn second_words(lines: Seq<Seq<char>>) -> Seq<Seq<char>>
    decreases lines.len(),
{
    if lines.len() == 0 {
        Seq::empty()
    } else {
        let front = second_words(lines.drop_last());
        if text::words(lines.last()).len() > 1 {
            front.push(text::words(lines.last())[1])
        } else {
            front
        }
    }
}

/// The first word of each line that has one and does not end in ` missing`.
pub open spec fn found_objects(lines: Seq<Seq<char>>) -> Seq<Seq<char>>
    decreases lines.len(),
{
    if lines.len() == 0 {
        Seq::empty()
    } else {
        let front = found_objects(lines.drop_last());
        if !text::has_suffix(lines.last(), " missing"@) && text::words(lines.last()).len() > 0 {
            front.push(text::words(lines.last())[0])
        } else {
            front
        }
    }
}

/// The path that a line of `git add` reports as not indexed.
pub open spec fn unindexed_path(l: Seq<char>) -> Option<Seq<char>> {
    let intro = "error: unable to index file '"@;
    let rest = l.skip(intro.len() as int);
    if text::has_prefix(l, intro) && text::has_suffix(rest, "'"@) {
        Some(text::without_end(rest.take(rest.len() - "'"@.len()), '/'))
    } else {
        None
    }
}

/// The paths that `git add` reports as not indexed.
pub open spec fn unindexed_paths(lines: Seq<Seq<char>>) -> Seq<Seq<char>>
    decreases lines.len(),
{
    if lines.len() == 0 {
        Seq::empty()
    } else {
        let front = unindexed_paths(lines.drop_last());
        match unindexed_path(lines.last()) {
            Some(p) => front.push(p),
            None => front,
        }
    }
}

/// The path of an index entry that is a nested repository.
pub open spec fn gitlink_path(entry: Seq<char>) -> Option<Seq<char>> {
    let i = text::first_index(entry, '\t');
    if text::has_prefix(entry, "160000 "@) && i >= 0 {
        Some(entry.skip(i + 1))
    } else {
        None
    }
}

/// Whether `p` is a nested repository: a gitlink of the index, or a path that could not be
/// indexed.
pub open spec fn is_gitlink(entries: Seq<Seq<char>>, unindexed: Seq<String>, p: Seq<char>) -> bool {
    ||| exists|i: int| 0 <= i < entries.len() && gitlink_path(#[trigger] entries[i]) == Some(p)
    ||| text::among(unindexed, p)
}

/// The pathspec that leaves a path out.
pub open spec fn exclude_spec(path: Seq<char>) -> Seq<char> {
    ":(exclude)"@ + text::without_end(text::without_start(path, '/'), '/')
}

/// `HEAD` from what git says of it: a symbolic ref, else a sha, else what the file holds.
pub open spec fn head_text(
    symbolic: Option<Seq<char>>,
    sha: Option<Seq<char>>,
    file: Option<Seq<char>>,
) -> Seq<char> {
    match symbolic {
        Some(s) => text::stripped(s),
        None => match sha {
            Some(s) => text::stripped(s),
            None => match file {
                Some(s) => without_ref(text::stripped(s)),
                None => "refs/heads/main"@,
            },
        },
    }
}

/// `s` without `ref: ` at its start, however often it stands there.
pub open spec fn without_ref(s: Seq<char>) -> Seq<char>
    decreases s.len(),
    via without_ref_shrinks
{
    if text::has_prefix(s, "ref: "@) {
        without_ref(s.skip("ref: "@.len() as int))
    } else {
        s
    }
}

#[via_fn]
proof fn without_ref_shrinks(s: Seq<char>) {
    reveal_strlit("ref: ");
}

fn strip_ref(s: &str) -> (r: &str)
    ensures
        r@ == without_ref(s@),
    decreases s@.len(),
{
    proof {
        reveal_strlit("ref: ");
    }
    match text::strip_prefix(s, "ref: ") {
        Some(rest) => strip_ref(rest),
        None => s,
    }
}

impl GitRepo {
    /// The repository whose working tree is `root`, from what `git rev-parse --git-dir
    /// --git-common-dir` prints there; an error when the command fails.
    pub fn open(root: &FsPath, success: bool, stdout: &str) -> (r: Result<Self, GitError>)
        ensures
            match r {
                Ok(repo) => {
                    let lines = text::line_texts(stdout@);
                    &&& success
                    &&& repo.root@ == root@
                    &&& repo.git_dir@ == root@.join(line_or_git(lines, 0))
                    &&& repo.common_dir@ == root@.join(line_or_git(lines, 1))
                },
                Err(e) => !success && (e matches GitError::NotARepo(at) && at@ == root@),
            },
    {
        if !success {
            return Err(GitError::NotARepo(root.copy()));
        }
        let lines: Vec<String> = text::lines(stdout);
        let ghost lv = order::views(lines@);
        let git: FsPath = if lines.len() > 0 {
            assert(lv[0] == lines@[0]@);
            abs(root, lines[0].as_str())
        } else {
            abs(root, ".git")
        };
        let common: FsPath = if lines.len() > 1 {
            assert(lv[1] == lines@[1]@);
            abs(root, lines[1].as_str())
        } else {
            abs(root, ".git")
        };
        Ok(GitRepo { root: root.copy(), git_dir: git, common_dir: common })
    }

    /// Ref name → sha for every ref (including `refs/stash`), from what `git for-each-ref
    /// --format='%(refname) %(objectname)'` prints.
    pub fn refs(stdout: &str) -> (r: SortedMap<String, String>)
        ensures
            r.wf(),
            text::texts(r@) == listed_refs(text::line_texts(text::stripped(stdout@))),
    {
        let lines: Vec<String> = text::lines(text::trim(stdout));
        let ghost lv = order::views(lines@);
        let mut out: SortedMap<String, String> = SortedMap::new();
        let mut i: usize = 0;
        assert(lv.take(0) =~= Seq::empty());
        assert(text::texts(out@) =~= listed_refs(lv.take(0)));
        while i < lines.len()
            invariant
                0 <= i <= lines@.len(),
                lv == order::views(lines@),
                out.wf(),
                text::texts(out@) == listed_refs(lv.take(i as int)),
            decreases lines@.len() - i,
        {
            let ghost before = out@;
            proof {
                assert(lv.take(i + 1).drop_last() =~= lv.take(i as int));
                assert(lv.take(i + 1).last() == lines@[i as int]@);
            }
            match text::split_once(lines[i].as_str(), ' ') {
                Some((name, sha)) => {
                    let earlier: Option<String> = out.insert(name.to_owned(), sha.to_owned());
                    assert(text::texts(out@) =~= text::texts(before).insert(name@, sha@));
                },
                None => {},
            }
            i = i + 1;
        }
        assert(lv.take(lv.len() as int) =~= lv);
        out
    }

    /// `HEAD` as a ref name (symbolic) or a sha (detached): `symbolic` is what `git symbolic-ref
    /// -q HEAD` prints if it succeeds, `sha` what `git rev-parse --verify -q HEAD` does, `file`
    /// what the `HEAD` file holds.
    pub fn head(symbolic: Option<&str>, sha: Option<&str>, file: Option<&str>) -> (r: String)
        ensures
            r@ == head_text(
                match symbolic {
                    Some(s) => Some(s@),
                    None => None,
                },
                match sha {
                    Some(s) => Some(s@),
                    None => None,
                },
                match file {
                    Some(s) => Some(s@),
                    None => None,
                },
            ),
    {
        match symbolic {
            Some(s) => text::trim(s).to_owned(),
            None => match sha {
                Some(s) => text::trim(s).to_owned(),
                None => match file {
                    Some(s) => strip_ref(text::trim(s)).to_owned(),
                    None => "refs/heads/main".to_owned(),
                },
            },
        }
    }

    /// Every sha a reflog entry points at, from what `git rev-list --no-walk=unsorted --reflog`
    /// prints; empty when the repository has no reflog at all (a freshly materialized one), where
    /// the command has nothing to list.
    pub fn reflog_tips(has_reflog: bool, stdout: &str) -> (r: Vec<String>)
        ensures
            order::views(r@) == if has_reflog {
                text::line_texts(text::stripped(stdout@))
            } else {
                Seq::empty()
            },
    {
        if !has_reflog {
            let none: Vec<String> = Vec::new();
            assert(order::views(none@) =~= Seq::empty());
            return none;
        }
        text::lines(text::trim(stdout))
    }

    /// Blobs the index references (the fallback tips when `write-tree` refuses an unmerged
    /// index), from what `git ls-files -s` prints.
    pub fn index_blobs(stdout: &str) -> (r: Vec<String>)
        ensures
            order::views(r@) == second_words(text::line_texts(text::stripped(stdout@))),
    {
        let lines: Vec<String> = text::lines(text::trim(stdout));
        let ghost lv = order::views(lines@);
        let mut out: Vec<String> = Vec::new();
        let mut i: usize = 0;
        assert(lv.take(0) =~= Seq::empty());
        assert(order::views(out@) =~= second_words(lv.take(0)));
        while i < lines.len()
            invariant
                0 <= i <= lines@.len(),
                lv == order::views(lines@),
                order::views(out@) == second_words(lv.take(i as int)),
            decreases lines@.len() - i,
        {
            let ghost before = order::views(out@);
            proof {
                assert(lv.take(i + 1).drop_last() =~= lv.take(i as int));
                assert(lv.take(i + 1).last() == lines@[i as int]@);
            }
            let words: Vec<String> = text::split_words(lines[i].as_str());
            assert(order::views(words@).len() == words@.len());
            if words.len() > 1 {
                assert(order::views(words@)[1] == words@[1]@);
                out.push(words[1].clone());
                assert(order::views(out@) =~= before.push(words@[1]@));
            }
            i = i + 1;
        }
        assert(lv.take(lv.len() as int) =~= lv);
        out
    }

    /// The arguments of the `git add` that brings a throwaway index up to the working tree.
    /// `--ignore-errors` keeps going past paths git cannot index (a nested repository with no
    /// commit checked out).
    pub fn add_args(excludes: &Vec<String>) -> (r: Vec<String>)
        ensures
            r@.len() == 5 + excludes@.len(),
            r@[0]@ == "add"@ && r@[1]@ == "-A"@ && r@[2]@ == "--ignore-errors"@ && r@[3]@ == "--"@
                && r@[4]@ == "."@,
            forall|i: int|
                0 <= i < excludes@.len() ==> r@[5 + i]@ == exclude_spec((#[trigger] excludes@[i])@),
    {
        let mut out: Vec<String> = Vec::new();
        out.push("add".to_owned());
        out.push("-A".to_owned());
        out.push("--ignore-errors".to_owned());
        out.push("--".to_owned());
        out.push(".".to_owned());
        let mut i: usize = 0;
        while i < excludes.len()
            invariant
                0 <= i <= excludes@.len(),
                out@.len() == 5 + i,
                out@[0]@ == "add"@ && out@[1]@ == "-A"@ && out@[2]@ == "--ignore-errors"@
                    && out@[3]@ == "--"@ && out@[4]@ == "."@,
                forall|j: int|
                    0 <= j < i ==> out@[5 + j]@ == exclude_spec((#[trigger] excludes@[j])@),
            decreases excludes@.len() - i,
        {
            let inner: &str = text::trim_end_char(
                text::trim_start_char(excludes[i].as_str(), '/'),
                '/',
            );
            out.push(text::concat(":(exclude)", inner));
            i = i + 1;
        }
        out
    }

    /// The paths that `git add` could not index, from its stderr. It is an error when the
    /// command failed without naming any.
    pub fn unindexed(success: bool, args: &Vec<String>, stderr: &str) -> (r: Result<
        Vec<String>,
        GitError,
    >)
        ensures
            match r {
                Ok(paths) => {
                    &&& order::views(paths@) == unindexed_paths(text::line_texts(stderr@))
                    &&& success || paths@.len() > 0
                },
                Err(e) => {
                    &&& !success
                    &&& unindexed_paths(text::line_texts(stderr@)).len() == 0
                    &&& e matches GitError::Command { args: a, stderr: s } && s@ == text::stripped(
                        stderr@,
                    ) && a@ == spaced(order::views(args@))
                },
            },
    {
        let lines: Vec<String> = text::lines(stderr);
        let ghost lv = order::views(lines@);
        let mut out: Vec<String> = Vec::new();
        let mut i: usize = 0;
        assert(lv.take(0) =~= Seq::empty());
        assert(order::views(out@) =~= unindexed_paths(lv.take(0)));
        while i < lines.len()
            invariant
                0 <= i <= lines@.len(),
                lv == order::views(lines@),
                order::views(out@) == unindexed_paths(lv.take(i as int)),
            decreases lines@.len() - i,
        {
            let ghost before = order::views(out@);
            proof {
                assert(lv.take(i + 1).drop_last() =~= lv.take(i as int));
                assert(lv.take(i + 1).last() == lines@[i as int]@);
            }
            match text::strip_prefix(lines[i].as_str(), "error: unable to index file '") {
                Some(rest) => {
                    match text::strip_suffix(rest, "'") {
                        Some(p) => {
                            let path: String = text::trim_end_char(p, '/').to_owned();
                            out.push(path);
                            assert(order::views(out@) =~= before.push(path@));
                        },
                        None => {},
                    }
                },
                None => {},
            }
            i = i + 1;
        }
        assert(lv.take(lv.len() as int) =~= lv);
        assert(order::views(out@).len() == out@.len());
        if !success && out.len() == 0 {
            return Err(
                GitError::Command { args: join_spaces(args), stderr: text::trim(stderr).to_owned() },
            );
        }
        Ok(out)
    }

    /// The nested repositories: the gitlinks of the throwaway index, from what `git ls-files -s
    /// -z` prints, and the paths that could not be indexed; each once, in order.
    pub fn gitlinks(stdout: &str, unindexed: &Vec<String>) -> (r: Vec<String>)
        ensures
            order::ascending(r@),
            forall|p: Seq<char>| #[trigger]
                text::among(r@, p) <==> is_gitlink(text::pieces(stdout@, '\0'), unindexed@, p),
    {
        let entries: Vec<String> = text::split(stdout, '\0');
        let ghost ev = order::views(entries@);
        let mut found: Vec<String> = text::copy_all(unindexed);
        let mut i: usize = 0;
        while i < entries.len()
            invariant
                0 <= i <= entries@.len(),
                ev == order::views(entries@),
                forall|p: Seq<char>| #[trigger]
                    text::among(found@, p) <==> is_gitlink(ev.take(i as int), unindexed@, p),
            decreases entries@.len() - i,
        {
            let ghost before = found@;
            let e: &str = entries[i].as_str();
            proof {
                assert(ev.take(i + 1) =~= ev.take(i as int).push(e@));
            }
            if text::starts_with(e, "160000 ") {
                match text::split_once(e, '\t') {
                    Some((mode, path)) => {
                        found.push(path.to_owned());
                    },
                    None => {},
                }
            }
            proof {
                assert forall|p: Seq<char>| #[trigger] text::among(found@, p) <==> is_gitlink(
                    ev.take(i + 1),
                    unindexed@,
                    p,
                ) by {
                    lemma_gitlink_push(ev.take(i as int), e@, unindexed@, p);
                    assert(text::among(before, p) <==> is_gitlink(
                        ev.take(i as int),
                        unindexed@,
                        p,
                    ));
                    if found@.len() > before.len() {
                        text::lemma_among_push(before, found@.last(), p);
                        assert(found@ =~= before.push(found@.last()));
                    }
                }
            }
            i = i + 1;
        }
        assert(ev.take(ev.len() as int) =~= ev);
        let r: Vec<String> = text::sorted_unique(&found);
        assert forall|p: Seq<char>| #[trigger] text::among(r@, p) <==> is_gitlink(
            text::pieces(stdout@, '\0'),
            unindexed@,
            p,
        ) by {
            assert(text::among(found@, p) <==> is_gitlink(ev, unindexed@, p));
        }
        r
    }

    /// What `git cat-file --batch-check` is asked: one sha a line.
    pub fn existing_input(shas: &Vec<String>) -> (r: String)
        ensures
            r@ == lined(order::views(shas@)),
    {
        line_up(shas)
    }

    /// The shas that the object store holds, from what `git cat-file --batch-check` prints.
    pub fn existing(stdout: &str) -> (r: Vec<String>)
        ensures
            order::views(r@) == found_objects(text::line_texts(text::stripped(stdout@))),
    {
        let lines: Vec<String> = text::lines(text::trim(stdout));
        let ghost lv = order::views(lines@);
        let mut out: Vec<String> = Vec::new();
        let mut i: usize = 0;
        assert(lv.take(0) =~= Seq::empty());
        assert(order::views(out@) =~= found_objects(lv.take(0)));
        while i < lines.len()
            invariant
                0 <= i <= lines@.len(),
                lv == order::views(lines@),
                order::views(out@) == found_objects(lv.take(i as int)),
            decreases lines@.len() - i,
        {
            let ghost before = order::views(out@);
            proof {
                assert(lv.take(i + 1).drop_last() =~= lv.take(i as int));
                assert(lv.take(i + 1).last() == lines@[i as int]@);
            }
            if !text::ends_with(lines[i].as_str(), " missing") {
                let words: Vec<String> = text::split_words(lines[i].as_str());
                assert(order::views(words@).len() == words@.len());
                if words.len() > 0 {
                    assert(order::views(words@)[0] == words@[0]@);
                    out.push(words[0].clone());
                    assert(order::views(out@) =~= before.push(words@[0]@));
                }
            }
            i = i + 1;
        }
        assert(lv.take(lv.len() as int) =~= lv);
        out
    }

    /// What `git fsck --connectivity-only --no-dangling` comes to.
    pub fn fsck(success: bool) -> (r: FsckStatus)
        ensures
            r == if success {
                FsckStatus::Verified
            } else {
                FsckStatus::Failed
            },
    {
        if success {
            FsckStatus::Verified
        } else {
            FsckStatus::Failed
        }
    }

    /// `git status --porcelain`, without white space at its ends.
    pub fn status_porcelain(stdout: &str) -> (r: String)
        ensures
            r@ == text::stripped(stdout@),
    {
        text::trim(stdout).to_owned()
    }
}

proof fn lemma_gitlink_push(
    entries: Seq<Seq<char>>,
    e: Seq<char>,
    unindexed: Seq<String>,
    p: Seq<char>,
)
    ensures
        is_gitlink(entries.push(e), unindexed, p) <==> is_gitlink(entries, unindexed, p)
            || gitlink_path(e) == Some(p),
{
    let all = entries.push(e);
    if exists|i: int| 0 <= i < entries.len() && gitlink_path(#[trigger] entries[i]) == Some(p) {
        let i = choose|i: int|
            0 <= i < entries.len() && gitlink_path(#[trigger] entries[i]) == Some(p);
        assert(all[i] == entries[i]);
    }
    assert(all[entries.len() as int] == e);
    if exists|i: int| 0 <= i < all.len() && gitlink_path(#[trigger] all[i]) == Some(p) {
        let i = choose|i: int| 0 <= i < all.len() && gitlink_path(#[trigger] all[i]) == Some(p);
        if i < entries.len() {
            assert(entries[i] == all[i]);
        }
    }
}

/// The texts with a space between each two.
pub open spec fn spaced(items: Seq<Seq<char>>) -> Seq<char>
    decreases items.len(),
{
    if items.len() == 0 {
        Seq::empty()
    } else if items.len() == 1 {
        items[0]
    } else {
        spaced(items.drop_last()) + " "@ + items.last()
    }
}

fn join_spaces(items: &Vec<String>) -> (r: String)
    ensures
        r@ == spaced(order::views(items@)),
{
    let ghost iv = order::views(items@);
    let mut out: String = String::new();
    let mut i: usize = 0;
    assert(iv.take(0) =~= Seq::empty());
    while i < items.len()
        invariant
            0 <= i <= items@.len(),
            iv == order::views(items@),
            out@ == spaced(iv.take(i as int)),
        decreases items@.len() - i,
    {
        proof {
            assert(iv.take(i + 1).drop_last() =~= iv.take(i as int));
            assert(iv.take(i + 1).last() == items@[i as int]@);
        }
        if i > 0 {
            out.append(" ");
        }
        out.append(items[i].as_str());
        i = i + 1;
        assert(out@ =~= spaced(iv.take(i as int)));
    }
    assert(iv.take(iv.len() as int) =~= iv);
    out
}

/// The texts, each in a line of its own.
pub open spec fn lined(items: Seq<Seq<char>>) -> Seq<char>
    decreases items.len(),
{
    if items.len() == 0 {
        Seq::empty()
    } else {
        lined(items.drop_last()) + items.last() + "\n"@
    }
}

fn line_up(items: &Vec<String>) -> (r: String)
    ensures
        r@ == lined(order::views(items@)),
{
    let ghost iv = order::views(items@);
    let mut out: String = String::new();
    let mut i: usize = 0;
    assert(iv.take(0) =~= Seq::empty());
    while i < items.len()
        invariant
            0 <= i <= items@.len(),
            iv == order::views(items@),
            out@ == lined(iv.take(i as int)),
        decreases items@.len() - i,
    {
        proof {
            assert(iv.take(i + 1).drop_last() =~= iv.take(i as int));
            assert(iv.take(i + 1).last() == items@[i as int]@);
        }
        out.append(items[i].as_str());
        out.append("\n");
        i = i + 1;
    }
    assert(iv.take(iv.len() as int) =~= iv);
    out
}


/// The closure read before packing.
pub struct Closure {
    /// Refs plus the two pseudo-refs.
    pub refs: SortedMap<String, String>,
    /// `HEAD`.
    pub head: String,
    /// Every positive tip: ref values, `HEAD`, reflog entries, index and worktree trees (or the
    /// index blobs when the index is unmerged).
    pub tips: Vec<String>,
    /// Paths of nested repositories (gitlinks in the worktree tree).
    pub gitlinks: Vec<String>,
}

impl Closure {
    /// Whether the refs are in order.
    pub open spec fn wf(&self) -> bool {
        self.refs.wf()
    }
}

/// What was read for a closure.
pub struct ClosureParts {
    /// The repository's refs.
    pub refs: SortedMap<String, String>,
    /// `HEAD`.
    pub head: String,
    /// The tree written from the index; `None` when there is no index or it is unmerged.
    pub index_tree: Option<String>,
    /// The blobs of the index, read when there is no tree of it.
    pub index_blobs: Vec<String>,
    /// The tips of the reflog.
    pub reflog: Vec<String>,
    /// The tree of the working tree.
    pub worktree: String,
    /// Paths of nested repositories.
    pub gitlinks: Vec<String>,
}

impl ClosureParts {
    /// Whether `s` is a tip of the closure.
    pub open spec fn is_tip(&self, s: Seq<char>) -> bool {
        ||| text::among(self.refs.values@, s)
        ||| !text::has_prefix(self.head@, "refs/"@) && s == self.head@
        ||| match self.index_tree {
            Some(tree) => s == tree@,
            None => text::among(self.index_blobs@, s),
        }
        ||| text::among(self.reflog@, s)
        ||| s == self.worktree@
    }

    /// The refs of the closure: the repository's, and the pseudo-refs.
    pub open spec fn closure_refs(&self) -> Map<Seq<char>, Seq<char>> {
        let with_index = match self.index_tree {
            Some(tree) => text::texts(self.refs@).insert(INDEX_TREE_REF@, tree@),
            None => text::texts(self.refs@),
        };
        with_index.insert(WORKTREE_TREE_REF@, self.worktree@)
    }
}

/// Put a closure (refs, `HEAD`, index, stash, reflog, worktree) together.
pub fn read_closure(parts: ClosureParts) -> (r: Closure)
    requires
        parts.refs.wf(),
    ensures
        r.wf(),
        text::texts(r.refs@) == parts.closure_refs(),
        r.head == parts.head,
        order::ascending(r.tips@),
        forall|s: Seq<char>| #[trigger] text::among(r.tips@, s) <==> parts.is_tip(s),
        r.gitlinks == parts.gitlinks,
{
    let ghost given = parts;
    let ClosureParts { refs, head, index_tree, index_blobs, reflog, worktree, gitlinks } = parts;
    let mut refs: SortedMap<String, String> = refs;
    let ghost refs0 = refs@;
    let mut tips: Vec<String> = text::copy_all(&refs.values);
    if !text::starts_with(head.as_str(), "refs/") {
        tips.push(head.clone());
    }
    let ghost tips1 = tips@;
    match index_tree {
        Some(tree) => {
            let earlier: Option<String> = refs.insert(INDEX_TREE_REF.to_owned(), tree.clone());
            assert(text::texts(refs@) =~= text::texts(refs0).insert(INDEX_TREE_REF@, tree@));
            tips.push(tree);
        },
        None => {
            let mut blobs: Vec<String> = text::copy_all(&index_blobs);
            tips.append(&mut blobs);
        },
    }
    let ghost tips2 = tips@;
    let ghost refs1 = refs@;
    let mut more: Vec<String> = text::copy_all(&reflog);
    tips.append(&mut more);
    let ghost tips3 = tips@;
    let earlier: Option<String> = refs.insert(WORKTREE_TREE_REF.to_owned(), worktree.clone());
    assert(text::texts(refs@) =~= text::texts(refs1).insert(WORKTREE_TREE_REF@, worktree@));
    tips.push(worktree);
    let r: Vec<String> = text::sorted_unique(&tips);
    assert forall|s: Seq<char>| #[trigger] text::among(r@, s) <==> given.is_tip(s) by {
        assert(text::among(r@, s) <==> text::among(tips@, s));
        text::lemma_among_push(given.refs.values@, given.head, s);
        match given.index_tree {
            Some(tree) => {
                text::lemma_among_push(tips1, tree, s);
            },
            None => {
                text::lemma_among_concat(tips1, given.index_blobs@, s);
            },
        }
        text::lemma_among_concat(tips2, given.reflog@, s);
        text::lemma_among_push(tips3, given.worktree, s);
    }
    Closure { refs, head, tips: r, gitlinks }
}

/// A finished, self-contained git pack with its index.
pub struct FinishedGitPack {
    /// sha256 of the pack bytes.
    pub sha256: String,
    /// Pack size.
    pub bytes: u64,
    /// Object count.
    pub objects: u32,
}

/// Result of building the git class.
pub struct GitPackResult {
    /// The pack, or `None` when nothing is new since the previous tips.
    pub pack: Option<FinishedGitPack>,
    /// The closure the pack corresponds to.
    pub closure: Closure,
    /// fsck outcome.
    pub fsck: FsckStatus,
    /// Attempts used.
    pub attempts: u32,
}

/// A big-endian number.
pub open spec fn big_endian(b: Seq<u8>) -> nat
    decreases b.len(),
{
    if b.len() == 0 {
        0
    } else {
        big_endian(b.drop_last()) * 256 + b.last() as nat
    }
}

/// Why the first bytes are no pack header (`PACK`, version, count): there are too few of them, or
/// the magic is another.
pub open spec fn refuses_header(header: Seq<u8>, e: GitError) -> bool {
    if header.len() < 12 {
        e matches GitError::Io(why) && why@ == "failed to fill whole buffer"@
    } else {
        &&& e matches GitError::Io(why) && why@ == "not a git pack"@
        &&& header.take(4) != seq![80u8, 65u8, 67u8, 75u8]
    }
}

/// Object count from a pack header (`PACK`, version, count; big-endian).
pub fn pack_object_count(header: &[u8]) -> (r: Result<u32, GitError>)
    ensures
        match r {
            Ok(n) => header@.len() >= 12 && header@.take(4) == seq![80u8, 65u8, 67u8, 75u8] && n
                == big_endian(header@.subrange(8, 12)),
            Err(e) => refuses_header(header@, e),
        },
{
    if header.len() < 12 {
        return Err(GitError::Io("failed to fill whole buffer".to_owned()));
    }
    if header[0] != 80 || header[1] != 65 || header[2] != 67 || header[3] != 75 {
        proof {
            let t = header@.take(4);
            let m = seq![80u8, 65u8, 67u8, 75u8];
            assert(t[0] == header@[0] && t[1] == header@[1] && t[2] == header@[2] && t[3]
                == header@[3]);
            if t == m {
                assert(t[0] == m[0] && t[1] == m[1] && t[2] == m[2] && t[3] == m[3]);
            }
        }
        return Err(GitError::Io("not a git pack".to_owned()));
    }
    assert(header@.take(4) =~= seq![80u8, 65u8, 67u8, 75u8]);
    proof {
        let b = header@.subrange(8, 12);
        reveal_with_fuel(big_endian, 5);
        assert(b.drop_last() =~= header@.subrange(8, 11));
        assert(b.drop_last().drop_last() =~= header@.subrange(8, 10));
        assert(b.drop_last().drop_last().drop_last() =~= header@.subrange(8, 9));
        assert(b.drop_last().drop_last().drop_last().drop_last() =~= Seq::empty());
    }
    Ok(
        ((header[8] as u32 * 256 + header[9] as u32) * 256 + header[10] as u32) * 256
            + header[11] as u32,
    )
}

/// The pack that `git pack-objects` wrote: none when it holds no object.
pub fn finished(pack: &[u8]) -> (r: Result<Option<FinishedGitPack>, GitError>)
    ensures
        ({
            let objects = big_endian(pack@.subrange(8, 12));
            match r {
                Ok(None) => pack@.len() >= 12 && pack@.take(4) == seq![80u8, 65u8, 67u8, 75u8]
                    && objects == 0,
                Ok(Some(p)) => {
                    &&& pack@.len() >= 12
                    &&& pack@.take(4) == seq![80u8, 65u8, 67u8, 75u8]
                    &&& objects > 0
                    &&& p.sha256@ == chunk::content_name(pack@)
                    &&& p.bytes == pack@.len()
                    &&& p.objects == objects
                },
                Err(e) => refuses_header(pack@, e),
            }
        }),
{
    let objects: u32 = match pack_object_count(pack) {
        Ok(n) => n,
        Err(e) => {
            return Err(e);
        },
    };
    if objects == 0 {
        return Ok(None);
    }
    Ok(
        Some(
            FinishedGitPack {
                sha256: chunk::sha256_hex(pack),
                bytes: pack.len() as u64,
                objects,
            },
        ),
    )
}

/// What `git pack-objects --revs` is told: the tips, and the negatives behind a caret.
pub open spec fn pack_request(tips: Seq<Seq<char>>, negatives: Seq<Seq<char>>) -> Seq<char> {
    lined(tips) + lined(negatives.map_values(|n: Seq<char>| "^"@ + n))
}

/// What `git pack-objects --revs` is told.
pub fn pack_input(tips: &Vec<String>, negatives: &Vec<String>) -> (r: String)
    ensures
        r@ == pack_request(order::views(tips@), order::views(negatives@)),
{
    let mut out: String = line_up(tips);
    let mut careted: Vec<String> = Vec::new();
    let mut i: usize = 0;
    while i < negatives.len()
        invariant
            0 <= i <= negatives@.len(),
            careted@.len() == i,
            forall|j: int| 0 <= j < i ==> (#[trigger] careted@[j])@ == "^"@ + negatives@[j]@,
        decreases negatives@.len() - i,
    {
        careted.push(text::concat("^", negatives[i].as_str()));
        i = i + 1;
    }
    assert(order::views(careted@) =~= order::views(negatives@).map_values(
        |n: Seq<char>| "^"@ + n,
    ));
    out.append(line_up(&careted).as_str());
    out
}

/// Whether refs or `HEAD` moved since a closure was read: a ref of the closure, pseudo-refs
/// aside, has another value or is gone, there is a new ref, or `HEAD` is another.
pub open spec fn has_moved(
    closure_refs: Map<Seq<char>, Seq<char>>,
    closure_head: Seq<char>,
    refs_after: Map<Seq<char>, Seq<char>>,
    head_after: Seq<char>,
) -> bool {
    ||| exists|k: Seq<char>| #[trigger]
        closure_refs.dom().contains(k) && !text::has_prefix(k, PSEUDO_REF_PREFIX@) && !(
        refs_after.dom().contains(k) && refs_after[k] == closure_refs[k])
    ||| exists|k: Seq<char>| #[trigger]
        refs_after.dom().contains(k) && !closure_refs.dom().contains(k)
    ||| head_after != closure_head
}

/// Whether refs or `HEAD` moved since a closure was read.
pub fn moved(closure: &Closure, refs_after: &SortedMap<String, String>, head_after: &str) -> (r: bool)
    requires
        closure.wf(),
        refs_after.wf(),
    ensures
        r == has_moved(
            text::texts(closure.refs@),
            closure.head@,
            text::texts(refs_after@),
            head_after@,
        ),
{
    let ghost cm = text::texts(closure.refs@);
    let ghost am = text::texts(refs_after@);
    let mut i: usize = 0;
    while i < closure.refs.keys.len()
        invariant
            0 <= i <= closure.refs.keys@.len(),
            closure.wf(),
            refs_after.wf(),
            cm == text::texts(closure.refs@),
            am == text::texts(refs_after@),
            forall|j: int|
                0 <= j < i ==> text::has_prefix(
                    (#[trigger] closure.refs.keys@[j])@,
                    PSEUDO_REF_PREFIX@,
                ) || (am.dom().contains(closure.refs.keys@[j]@) && am[closure.refs.keys@[j]@]
                    == cm[closure.refs.keys@[j]@]),
        decreases closure.refs.keys@.len() - i,
    {
        let k: &String = &closure.refs.keys[i];
        proof {
            closure.refs.lemma_entry(i as int);
            assert(cm.dom().contains(k@));
        }
        if !text::starts_with(k.as_str(), PSEUDO_REF_PREFIX) {
            match refs_after.get(k) {
                Some(v) => {
                    if !text::str_eq(v.as_str(), closure.refs.values[i].as_str()) {
                        assert(has_moved(cm, closure.head@, am, head_after@));
                        return true;
                    }
                },
                None => {
                    assert(has_moved(cm, closure.head@, am, head_after@));
                    return true;
                },
            }
        }
        i = i + 1;
    }
    let mut j: usize = 0;
    while j < refs_after.keys.len()
        invariant
            0 <= j <= refs_after.keys@.len(),
            closure.wf(),
            refs_after.wf(),
            cm == text::texts(closure.refs@),
            am == text::texts(refs_after@),
            forall|x: int|
                0 <= x < j ==> cm.dom().contains((#[trigger] refs_after.keys@[x])@),
        decreases refs_after.keys@.len() - j,
    {
        let k: &String = &refs_after.keys[j];
        proof {
            refs_after.lemma_entry(j as int);
            assert(am.dom().contains(k@));
        }
        if !closure.refs.contains(k) {
            assert(has_moved(cm, closure.head@, am, head_after@));
            return true;
        }
        j = j + 1;
    }
    if !text::str_eq(head_after, closure.head.as_str()) {
        return true;
    }
    proof {
        if has_moved(cm, closure.head@, am, head_after@) {
            if exists|k: Seq<char>| #[trigger]
                cm.dom().contains(k) && !text::has_prefix(k, PSEUDO_REF_PREFIX@) && !(
                am.dom().contains(k) && am[k] == cm[k]) {
                let k = choose|k: Seq<char>| #[trigger]
                    cm.dom().contains(k) && !text::has_prefix(k, PSEUDO_REF_PREFIX@) && !(
                    am.dom().contains(k) && am[k] == cm[k]);
                let at = order::spot(closure.refs.keys@, k);
                assert(0 <= at < closure.refs.keys@.len() && closure.refs.keys@[at]@ == k);
            } else {
                let k = choose|k: Seq<char>| #[trigger]
                    am.dom().contains(k) && !cm.dom().contains(k);
                let at = order::spot(refs_after.keys@, k);
                assert(0 <= at < refs_after.keys@.len() && refs_after.keys@[at]@ == k);
            }
            assert(false);
        }
    }
    false
}

/// What a build of the git class does next.
#[derive(Debug, Clone, Copy, PartialEq, Eq, Structural)]
pub enum PackAction {
    /// Read the closure and pack it.
    Attempt(u32),
    /// The attempts are used up: pack the last closure once more (or a new one, if none was
    /// packed), and ship it unverified.
    GiveUp(u32),
}

/// A build of the git class: which attempt comes next, and the last closure that was packed.
pub struct PackRun {
    /// Number of the next attempt, from 1.
    pub attempt: u32,
    /// The last closure that was packed and then found to have moved.
    pub last: Option<Closure>,
}

impl PackRun {
    /// Whether the attempt is one that can come.
    pub open spec fn wf(&self) -> bool {
        1 <= self.attempt <= PACK_ATTEMPTS + 1
    }

    /// A build at its start.
    pub fn new() -> (r: Self)
        ensures
            r.wf(),
            r.attempt == 1,
            r.last is None,
    {
        PackRun { attempt: 1, last: None }
    }

    /// What comes next: [`PACK_ATTEMPTS`] attempts, and one pack more.
    pub fn next(&self) -> (r: PackAction)
        requires
            self.wf(),
        ensures
            r == if self.attempt <= PACK_ATTEMPTS {
                PackAction::Attempt(self.attempt)
            } else {
                PackAction::GiveUp((PACK_ATTEMPTS + 1) as u32)
            },
    {
        if self.attempt <= PACK_ATTEMPTS {
            PackAction::Attempt(self.attempt)
        } else {
            PackAction::GiveUp(PACK_ATTEMPTS + 1)
        }
    }

    /// Packing failed (an object went missing): read everything again.
    pub fn failed(&mut self)
        requires
            old(self).wf(),
            old(self).attempt <= PACK_ATTEMPTS,
        ensures
            final(self).wf(),
            final(self).attempt == old(self).attempt + 1,
            final(self).last == old(self).last,
    {
        self.attempt = self.attempt + 1;
    }

    /// The closure was packed; refs and `HEAD` were read again. Gives the closure back if nothing
    /// moved: the pack is then a pack of the repository as it was.
    pub fn packed(
        &mut self,
        closure: Closure,
        refs_after: &SortedMap<String, String>,
        head_after: &str,
    ) -> (r: Option<Closure>)
        requires
            old(self).wf(),
            old(self).attempt <= PACK_ATTEMPTS,
            closure.wf(),
            refs_after.wf(),
        ensures
            ({
                let changed = has_moved(
                    text::texts(closure.refs@),
                    closure.head@,
                    text::texts(refs_after@),
                    head_after@,
                );
                match r {
                    Some(c) => !changed && c == closure && *final(self) == *old(self),
                    None => {
                        &&& changed
                        &&& final(self).wf()
                        &&& final(self).attempt == old(self).attempt + 1
                        &&& final(self).last == Some(closure)
                    },
                }
            }),
    {
        if moved(&closure, refs_after, head_after) {
            self.last = Some(closure);
            self.attempt = self.attempt + 1;
            None
        } else {
            Some(closure)
        }
    }
}

/// Nothing moved means that every ref of the repository has in the closure the value it has now.
pub proof fn law_an_unmoved_closure_holds_the_refs(
    closure_refs: Map<Seq<char>, Seq<char>>,
    head: Seq<char>,
    refs_after: Map<Seq<char>, Seq<char>>,
    head_after: Seq<char>,
    k: Seq<char>,
)
    requires
        !has_moved(closure_refs, head, refs_after, head_after),
        !text::has_prefix(k, PSEUDO_REF_PREFIX@),
    ensures
        head == head_after,
        closure_refs.dom().contains(k) <==> refs_after.dom().contains(k),
        refs_after.dom().contains(k) ==> closure_refs[k] == refs_after[k],
{
}

/// The lines of `packed-refs`: `<sha> <name>`, without the pseudo-refs.
pub open spec fn packed_lines(names: Seq<String>, shas: Seq<String>) -> Seq<char>
    decreases names.len(),
{
    if names.len() == 0 {
        Seq::empty()
    } else {
        let front = packed_lines(names.drop_last(), shas.drop_last());
        if text::has_prefix(names.last()@, PSEUDO_REF_PREFIX@) {
            front
        } else {
            front + shas.last()@ + " "@ + names.last()@ + "\n"@
        }
    }
}

/// The text of `packed-refs` from `refs`, skipping the pseudo-refs.
pub fn write_packed_refs(refs: &SortedMap<String, String>) -> (r: String)
    requires
        refs.wf(),
    ensures
        r@ == "# pack-refs with: peeled fully-peeled sorted \n"@ + packed_lines(
            refs.keys@,
            refs.values@,
        ),
{
    let mut out: String = "# pack-refs with: peeled fully-peeled sorted \n".to_owned();
    let ghost intro = out@;
    let mut i: usize = 0;
    assert(refs.keys@.take(0) =~= Seq::empty());
    assert(intro + packed_lines(refs.keys@.take(0), refs.values@.take(0)) =~= intro);
    while i < refs.keys.len()
        invariant
            0 <= i <= refs.keys@.len(),
            refs.wf(),
            out@ == intro + packed_lines(refs.keys@.take(i as int), refs.values@.take(i as int)),
        decreases refs.keys@.len() - i,
    {
        proof {
            let (k1, v1) = (refs.keys@.take(i + 1), refs.values@.take(i + 1));
            assert(k1.drop_last() =~= refs.keys@.take(i as int));
            assert(v1.drop_last() =~= refs.values@.take(i as int));
            assert(k1.last() == refs.keys@[i as int] && v1.last() == refs.values@[i as int]);
        }
        if !text::starts_with(refs.keys[i].as_str(), PSEUDO_REF_PREFIX) {
            out.append(refs.values[i].as_str());
            out.append(" ");
            out.append(refs.keys[i].as_str());
            out.append("\n");
        }
        i = i + 1;
        assert(out@ =~= intro + packed_lines(
            refs.keys@.take(i as int),
            refs.values@.take(i as int),
        ));
    }
    assert(refs.keys@.take(refs.keys@.len() as int) =~= refs.keys@);
    assert(refs.values@.take(refs.values@.len() as int) =~= refs.values@);
    out
}

/// The text of `HEAD` (a symbolic ref or a detached sha).
pub fn write_head(head: &str) -> (r: String)
    ensures
        r@ == if text::has_prefix(head@, "refs/"@) {
            "ref: "@ + head@ + "\n"@
        } else {
            head@ + "\n"@
        },
{
    let mut out: String = String::new();
    if text::starts_with(head, "refs/") {
        out.append("ref: ");
        out.append(head);
    } else {
        out.append(head);
    }
    out.append("\n");
    proof {
        assert(Seq::<char>::empty() + "ref: "@ =~= "ref: "@);
        assert(Seq::<char>::empty() + head@ =~= head@);
    }
    out
}

/// The text of the repository's local exclude file with `line` in it: nothing to write where it
/// has the line already. The user's `.gitignore` is never touched.
pub fn exclude_locally(text_now: &str, line: &str) -> (r: Option<String>)
    ensures
        match r {
            None => text::line_texts(text_now@).contains(line@),
            Some(t) => {
                &&& !text::line_texts(text_now@).contains(line@)
                &&& t@ == (if text_now@.len() == 0 || text_now@.last() == '\n' {
                    text_now@
                } else {
                    text_now@ + "\n"@
                }) + line@ + "\n"@
            },
        },
{
    let lines: Vec<String> = text::lines(text_now);
    let ghost all = order::views(lines@);
    let mut i: usize = 0;
    while i < lines.len()
        invariant
            0 <= i <= lines@.len(),
            all == order::views(lines@),
            all == text::line_texts(text_now@),
            forall|j: int| 0 <= j < i ==> #[trigger] all[j] != line@,
        decreases lines@.len() - i,
    {
        if text::str_eq(lines[i].as_str(), line) {
            assert(all[i as int] == line@);
            return None;
        }
        i = i + 1;
    }
    let n: usize = text_now.unicode_len();
    let mut out: String = text_now.to_owned();
    if n > 0 && text_now.get_char(n - 1) != '\n' {
        out.append("\n");
    }
    out.append(line);
    out.append("\n");
    Some(out)
}

/// Everything that was read for a closure is packed, and nothing else: each ref, each entry of the
/// reflog, the tree of the index (or, where there is none, each blob of it), the tree of the working
/// tree, and `HEAD` where it is a sha of its own.
pub proof fn law_everything_read_is_packed(parts: ClosureParts, r: Closure)
    requires
        call_ensures(read_closure, (parts,), r),
    ensures
        forall|i: int|
            0 <= i < parts.refs.values@.len() ==> order::views(r.tips@).contains(
                (#[trigger] parts.refs.values@[i])@,
            ),
        forall|i: int|
            0 <= i < parts.reflog@.len() ==> order::views(r.tips@).contains(
                (#[trigger] parts.reflog@[i])@,
            ),
        parts.index_tree matches Some(tree) ==> order::views(r.tips@).contains(tree@),
        parts.index_tree is None ==> forall|i: int|
            0 <= i < parts.index_blobs@.len() ==> order::views(r.tips@).contains(
                (#[trigger] parts.index_blobs@[i])@,
            ),
        order::views(r.tips@).contains(parts.worktree@),
        !text::has_prefix(parts.head@, "refs/"@) ==> order::views(r.tips@).contains(parts.head@),
        forall|k: int|
            0 <= k < r.tips@.len() ==> {
                let s = (#[trigger] r.tips@[k])@;
                ||| order::views(parts.refs.values@).contains(s)
                ||| order::views(parts.reflog@).contains(s)
                ||| parts.index_tree is Some && s == parts.index_tree->0@
                ||| parts.index_tree is None && order::views(parts.index_blobs@).contains(s)
                ||| s == parts.worktree@
                ||| s == parts.head@
            },
{
    let tips = order::views(r.tips@);
    assert forall|s: Seq<char>| parts.is_tip(s) implies tips.contains(s) by {
        assert(text::among(r.tips@, s));
        let k = choose|k: int| 0 <= k < r.tips@.len() && #[trigger] r.tips@[k]@ == s;
        assert(tips[k] == s);
    }
    assert forall|i: int| 0 <= i < parts.refs.values@.len() implies tips.contains(
        (#[trigger] parts.refs.values@[i])@,
    ) by {
        assert(text::among(parts.refs.values@, parts.refs.values@[i]@));
        assert(parts.is_tip(parts.refs.values@[i]@));
    }
    assert forall|i: int| 0 <= i < parts.reflog@.len() implies tips.contains(
        (#[trigger] parts.reflog@[i])@,
    ) by {
        assert(text::among(parts.reflog@, parts.reflog@[i]@));
        assert(parts.is_tip(parts.reflog@[i]@));
    }
    if let Some(tree) = parts.index_tree {
        assert(parts.is_tip(tree@));
    } else {
        assert forall|i: int| 0 <= i < parts.index_blobs@.len() implies tips.contains(
            (#[trigger] parts.index_blobs@[i])@,
        ) by {
            assert(text::among(parts.index_blobs@, parts.index_blobs@[i]@));
            assert(parts.is_tip(parts.index_blobs@[i]@));
        }
    }
    assert(parts.is_tip(parts.worktree@));
    if !text::has_prefix(parts.head@, "refs/"@) {
        assert(parts.is_tip(parts.head@));
    }
    assert forall|k: int| 0 <= k < r.tips@.len() implies {
        let s = (#[trigger] r.tips@[k])@;
        ||| order::views(parts.refs.values@).contains(s)
        ||| order::views(parts.reflog@).contains(s)
        ||| parts.index_tree is Some && s == parts.index_tree->0@
        ||| parts.index_tree is None && order::views(parts.index_blobs@).contains(s)
        ||| s == parts.worktree@
        ||| s == parts.head@
    } by {
        let s = r.tips@[k]@;
        assert(text::among(r.tips@, s));
        assert(parts.is_tip(s));
        lemma_among_is_contained(parts.refs.values@, s);
        lemma_among_is_contained(parts.reflog@, s);
        lemma_among_is_contained(parts.index_blobs@, s);
    }
}

proof fn lemma_among_is_contained(items: Seq<String>, s: Seq<char>)
    ensures
        text::among(items, s) ==> order::views(items).contains(s),
{
    if text::among(items, s) {
        let i = choose|i: int| 0 <= i < items.len() && #[trigger] items[i]@ == s;
        assert(order::views(items)[i] == s);
    }
}

/// A closure names every ref of the repository with its value, the working tree's tree and, where
/// there is one, the index's, under names of their own, and keeps `HEAD` and the nested
/// repositories.
pub proof fn law_a_closure_names_every_ref(parts: ClosureParts, r: Closure, name: Seq<char>)
    requires
        call_ensures(read_closure, (parts,), r),
    ensures
        parts.refs@.dom().contains(name) && name != "refs/sealant/capture/worktree"@ && name
            != "refs/sealant/capture/index"@ ==> r.refs@.dom().contains(name) && r.refs@[name]@
            == parts.refs@[name]@,
        r.refs@.dom().contains(name) ==> parts.refs@.dom().contains(name) || name
            == "refs/sealant/capture/worktree"@ || name == "refs/sealant/capture/index"@
            && parts.index_tree is Some,
        r.refs@.dom().contains("refs/sealant/capture/worktree"@),
        r.refs@["refs/sealant/capture/worktree"@]@ == parts.worktree@,
        parts.index_tree matches Some(tree) ==> r.refs@.dom().contains(
            "refs/sealant/capture/index"@,
        ) && r.refs@["refs/sealant/capture/index"@]@ == tree@,
        r.head@ == parts.head@,
        order::views(r.gitlinks@) == order::views(parts.gitlinks@),
{
    reveal_strlit("refs/sealant/capture/worktree");
    reveal_strlit("refs/sealant/capture/index");
    assert("refs/sealant/capture/worktree"@.len() != "refs/sealant/capture/index"@.len());
    let m = text::texts(r.refs@);
    assert(m == parts.closure_refs());
    assert(m.dom().contains(name) <==> r.refs@.dom().contains(name));
    assert(m.dom().contains("refs/sealant/capture/worktree"@));
    assert(m["refs/sealant/capture/worktree"@]
        == r.refs@["refs/sealant/capture/worktree"@]@);
    let own = text::texts(parts.refs@);
    assert(own.dom().contains(name) <==> parts.refs@.dom().contains(name));
    if parts.refs@.dom().contains(name) {
        assert(own[name] == parts.refs@[name]@);
    }
    if m.dom().contains(name) {
        assert(m[name] == r.refs@[name]@);
    }
    if parts.index_tree is Some {
        assert(m.dom().contains("refs/sealant/capture/index"@));
        assert(m["refs/sealant/capture/index"@] == r.refs@["refs/sealant/capture/index"@]@);
    }
}

/// A pack stands only for a repository that did not move while it was made: a closure is given back
/// just if `HEAD` and every ref are as they were, none gone and none new. Otherwise the build goes
/// on to its next attempt with the closure kept.
pub proof fn law_a_moved_repository_is_packed_again(
    run: &mut PackRun,
    closure: Closure,
    refs_after: SortedMap<String, String>,
    head_after: &str,
    r: Option<Closure>,
    name: Seq<char>,
)
    requires
        old(run).wf(),
        old(run).attempt <= PACK_ATTEMPTS,
        closure.wf(),
        refs_after.wf(),
        call_ensures(PackRun::packed, (run, closure, &refs_after, head_after), r),
        !text::has_prefix(name, "refs/sealant/capture/"@),
    ensures
        r is Some ==> r == Some(closure) && head_after@ == closure.head@ && (
        refs_after@.dom().contains(name) <==> closure.refs@.dom().contains(name)) && (
        refs_after@.dom().contains(name) ==> refs_after@[name]@ == closure.refs@[name]@),
        r is Some ==> *final(run) == *old(run),
        head_after@ != closure.head@ ==> r is None,
        closure.refs@.dom().contains(name) && !refs_after@.dom().contains(name) ==> r is None,
        refs_after@.dom().contains(name) && !closure.refs@.dom().contains(name) ==> r is None,
        refs_after@.dom().contains(name) && closure.refs@.dom().contains(name)
            && refs_after@[name]@ != closure.refs@[name]@ ==> r is None,
        r is None ==> final(run).attempt == old(run).attempt + 1 && final(run).last == Some(
            closure,
        ),
{
    let (cm, am) = (text::texts(closure.refs@), text::texts(refs_after@));
    assert(cm.dom().contains(name) <==> closure.refs@.dom().contains(name));
    assert(am.dom().contains(name) <==> refs_after@.dom().contains(name));
    assert(cm.dom().contains(name) ==> cm[name] == closure.refs@[name]@);
    assert(am.dom().contains(name) ==> am[name] == refs_after@[name]@);
}

/// A repository that stands still is packed at the first attempt: where refs and `HEAD` read again
/// are those of the closure, the closure's own names aside, it is given back.
pub proof fn law_an_unmoved_repository_is_packed(
    run: &mut PackRun,
    parts: ClosureParts,
    closure: Closure,
    head_after: &str,
    r: Option<Closure>,
)
    requires
        parts.refs.wf(),
        call_ensures(read_closure, (parts,), closure),
        head_after@ == parts.head@,
        call_ensures(PackRun::packed, (run, closure, &parts.refs, head_after), r),
    ensures
        r == Some(closure),
{
    reveal_strlit("refs/sealant/capture/worktree");
    reveal_strlit("refs/sealant/capture/index");
    reveal_strlit("refs/sealant/capture/");
    let (cm, am) = (text::texts(closure.refs@), text::texts(parts.refs@));
    assert(cm == parts.closure_refs());
    assert(text::has_prefix(WORKTREE_TREE_REF@, PSEUDO_REF_PREFIX@)) by {
        assert(WORKTREE_TREE_REF@.take(PSEUDO_REF_PREFIX@.len() as int) =~= PSEUDO_REF_PREFIX@);
    }
    assert(text::has_prefix(INDEX_TREE_REF@, PSEUDO_REF_PREFIX@)) by {
        assert(INDEX_TREE_REF@.take(PSEUDO_REF_PREFIX@.len() as int) =~= PSEUDO_REF_PREFIX@);
    }
}

/// A build makes its attempts one after the other, numbered from 1, and gives up once they are used
/// up, with one pack more.
pub proof fn law_attempts_are_numbered(
    run: PackRun,
    fresh: PackRun,
    first: PackAction,
    now: PackAction,
    failing: &mut PackRun,
    then: PackAction,
)
    requires
        call_ensures(PackRun::new, (), fresh),
        call_ensures(PackRun::next, (&fresh,), first),
        run.wf(),
        call_ensures(PackRun::next, (&run,), now),
        *old(failing) == run,
        now is Attempt ==> call_ensures(PackRun::failed, (failing,), ()),
        now is Attempt ==> call_ensures(PackRun::next, (&*final(failing),), then),
    ensures
        first == PackAction::Attempt(1),
        fresh.last is None,
        now matches PackAction::Attempt(k) ==> k <= 3 && then == if k
            < 3 {
            PackAction::Attempt((k + 1) as u32)
        } else {
            PackAction::GiveUp((k + 1) as u32)
        },
        now matches PackAction::Attempt(k) ==> final(failing).last == run.last,
        now matches PackAction::GiveUp(k) ==> k == 3 + 1,
{
}

/// What `git pack-objects` is told, line by line: every tip, then what the pack leaves out, each
/// behind a caret. One tip or one negative more is one line more.
pub proof fn law_a_pack_request_lists_tips_and_negatives(
    tips: Vec<String>,
    more: Vec<String>,
    none: Vec<String>,
    x: String,
    a: String,
    b: String,
    c: String,
    d: String,
    e: String,
)
    requires
        none@.len() == 0,
        more@ == tips@.push(x),
        call_ensures(pack_input, (&none, &none), a),
        call_ensures(pack_input, (&tips, &none), b),
        call_ensures(pack_input, (&more, &none), c),
        call_ensures(pack_input, (&none, &tips), d),
        call_ensures(pack_input, (&none, &more), e),
    ensures
        a@.len() == 0,
        c@ == b@ + x@ + "\n"@,
        e@ == d@ + "^"@ + x@ + "\n"@,
{
    let caret = |n: Seq<char>| "^"@ + n;
    let (tv, mv, nv) = (order::views(tips@), order::views(more@), order::views(none@));
    assert(nv =~= Seq::empty());
    assert(nv.map_values(caret) =~= Seq::empty());
    assert(mv =~= tv.push(x@));
    assert(mv.drop_last() =~= tv);
    assert(lined(Seq::empty()) =~= Seq::empty());
    assert(a@ =~= Seq::empty());
    assert(b@ =~= lined(tv));
    assert(c@ =~= b@ + x@ + "\n"@);
    let (tc, mc) = (tv.map_values(caret), mv.map_values(caret));
    assert(mc =~= tc.push("^"@ + x@));
    assert(mc.drop_last() =~= tc);
    assert(d@ =~= lined(tc));
    assert(e@ =~= d@ + ("^"@ + x@) + "\n"@);
    assert(e@ =~= d@ + "^"@ + x@ + "\n"@);
}

/// A request is its tips' lines and then its negatives'.
pub proof fn law_a_pack_request_is_tips_then_negatives(
    tips: Vec<String>,
    negatives: Vec<String>,
    none: Vec<String>,
    a: String,
    b: String,
    all: String,
)
    requires
        none@.len() == 0,
        call_ensures(pack_input, (&tips, &none), a),
        call_ensures(pack_input, (&none, &negatives), b),
        call_ensures(pack_input, (&tips, &negatives), all),
    ensures
        all@ == a@ + b@,
{
    let caret = |n: Seq<char>| "^"@ + n;
    let nv = order::views(none@);
    assert(nv =~= Seq::empty());
    assert(nv.map_values(caret) =~= Seq::empty());
    assert(lined(Seq::empty()) =~= Seq::empty());
    assert(a@ =~= lined(order::views(tips@)));
    assert(b@ =~= lined(order::views(negatives@).map_values(caret)));
    assert(all@ =~= a@ + b@);
}

/// `packed-refs` has a line `<sha> <name>` for each ref, in their order, and none for a pseudo-ref:
/// one ref more, behind the others, is one line more.
pub proof fn law_packed_refs_list_every_ref(
    refs: SortedMap<String, String>,
    more: SortedMap<String, String>,
    name: String,
    sha: String,
    a: String,
    b: String,
)
    requires
        refs.wf(),
        more.keys@ == refs.keys@.push(name),
        more.values@ == refs.values@.push(sha),
        call_ensures(write_packed_refs, (&refs,), a),
        call_ensures(write_packed_refs, (&more,), b),
    ensures
        refs.keys@.len() == 0 ==> a@ == "# pack-refs with: peeled fully-peeled sorted \n"@,
        b@ == if text::has_prefix(name@, "refs/sealant/capture/"@) {
            a@
        } else {
            a@ + sha@ + " "@ + name@ + "\n"@
        },
{
    assert(more.keys@.drop_last() =~= refs.keys@);
    assert(more.values@.drop_last() =~= refs.values@);
    let intro = "# pack-refs with: peeled fully-peeled sorted \n"@;
    let lines = packed_lines(refs.keys@, refs.values@);
    if refs.keys@.len() == 0 {
        assert(a@ =~= intro);
    }
    assert(b@ =~= if text::has_prefix(name@, "refs/sealant/capture/"@) {
        a@
    } else {
        a@ + sha@ + " "@ + name@ + "\n"@
    });
}

/// `HEAD` is written as git reads it: a ref behind `ref: `, a sha as it is.
pub proof fn law_head_is_written_as_git_reads_it(head: &str, r: String)
    requires
        call_ensures(write_head, (head,), r),
    ensures
        text::has_prefix(head@, "refs/"@) ==> r@ == "ref: "@ + head@ + "\n"@,
        !text::has_prefix(head@, "refs/"@) ==> r@ == head@ + "\n"@,
{
}

/// Excluding a line locally keeps what the file holds and adds the line at its end, unless the file
/// has it already.
pub proof fn law_excluding_locally_loses_nothing(text_now: &str, line: &str, r: Option<String>)
    requires
        call_ensures(exclude_locally, (text_now, line), r),
    ensures
        r is None <==> text::line_texts(text_now@).contains(line@),
        r matches Some(t) ==> text::has_prefix(t@, text_now@) && text::has_suffix(
            t@,
            line@ + "\n"@,
        ) && t@.len() <= text_now@.len() + line@.len() + 2,
        r matches Some(t) ==> (text_now@.len() > 0 && text_now@.last() != '\n' ==> t@[
            text_now@.len() as int
        ] == '\n'),
{
    reveal_strlit("\n");
    if let Some(t) = r {
        assert(t@.take(text_now@.len() as int) =~= text_now@);
        let end = line@ + "\n"@;
        assert(t@.skip(t@.len() - end.len()) =~= end);
    }
}

/// A pack is told by its header: bytes that do not begin like one are an error, an empty pack is
/// none, and any other has the digest and size of its bytes and the count of its header.
pub proof fn law_a_finished_pack_is_told_by_its_header(
    pack: &[u8],
    r: Result<Option<FinishedGitPack>, GitError>,
)
    requires
        call_ensures(finished, (pack,), r),
    ensures
        r is Err <==> pack@.len() < 12 || !(pack@[0] == 0x50 && pack@[1] == 0x41 && pack@[2] == 0x43
            && pack@[3] == 0x4b),
        r is Ok ==> (r->Ok_0 is None <==> pack@[8] == 0 && pack@[9] == 0 && pack@[10] == 0
            && pack@[11] == 0),
        r matches Ok(Some(p)) ==> p.sha256@ == chunk::content_name(pack@) && p.bytes
            == pack@.len() && p.objects == pack@[8] * 0x1000000 + pack@[9] * 0x10000 + pack@[10]
            * 0x100 + pack@[11],
{
    if pack@.len() >= 12 {
        let t = pack@.take(4);
        let m = seq![80u8, 65u8, 67u8, 75u8];
        assert(t[0] == pack@[0] && t[1] == pack@[1] && t[2] == pack@[2] && t[3] == pack@[3]);
        assert(t == m <==> (t[0] == m[0] && t[1] == m[1] && t[2] == m[2] && t[3] == m[3])) by {
            if t[0] == m[0] && t[1] == m[1] && t[2] == m[2] && t[3] == m[3] {
                assert(t =~= m);
            }
        }
        let b = pack@.subrange(8, 12);
        reveal_with_fuel(big_endian, 5);
        assert(b.drop_last() =~= pack@.subrange(8, 11));
        assert(b.drop_last().drop_last() =~= pack@.subrange(8, 10));
        assert(b.drop_last().drop_last().drop_last() =~= pack@.subrange(8, 9));
        assert(b.drop_last().drop_last().drop_last().drop_last() =~= Seq::empty());
    }
}

/// The refs of a repository are those that git lists, each with the sha of the last line that names
/// it.
pub proof fn law_listed_refs_are_read(
    stdout: &str,
    r: SortedMap<String, String>,
    i: int,
    name: Seq<char>,
    sha: Seq<char>,
)
    requires
        call_ensures(GitRepo::refs, (stdout,), r),
        0 <= i < text::line_texts(text::stripped(stdout@)).len(),
        text::line_texts(text::stripped(stdout@))[i] == name + seq![' '] + sha,
        !name.contains(' '),
    ensures
        r@.dom().contains(name),
        (forall|k: int|
            i < k < text::line_texts(text::stripped(stdout@)).len() ==> !text::has_prefix(
                #[trigger] text::line_texts(text::stripped(stdout@))[k],
                name + seq![' '],
            )) ==> r@[name]@ == sha,
{
    let lines = text::line_texts(text::stripped(stdout@));
    lemma_listed_refs(lines, i, name, sha);
    let m = text::texts(r@);
    assert(m.dom().contains(name));
    assert(m[name] == r@[name]@);
}

proof fn lemma_ref_line(name: Seq<char>, sha: Seq<char>)
    requires
        !name.contains(' '),
    ensures
        text::first_index(name + seq![' '] + sha, ' ') == name.len(),
        (name + seq![' '] + sha).take(name.len() as int) == name,
        (name + seq![' '] + sha).skip(name.len() as int + 1) == sha,
{
    let l = name + seq![' '] + sha;
    assert forall|k: int| 0 <= k < name.len() implies l[k] != ' ' by {
        assert(l[k] == name[k]);
        if name[k] == ' ' {
            assert(name.contains(name[k]));
        }
    }
    assert(l[name.len() as int] == ' ');
    text::lemma_first_index_is(l, ' ', name.len() as int);
    assert(l.take(name.len() as int) =~= name);
    assert(l.skip(name.len() as int + 1) =~= sha);
}

proof fn lemma_listed_refs(lines: Seq<Seq<char>>, i: int, name: Seq<char>, sha: Seq<char>)
    requires
        0 <= i < lines.len(),
        lines[i] == name + seq![' '] + sha,
        !name.contains(' '),
    ensures
        listed_refs(lines).dom().contains(name),
        (forall|k: int|
            i < k < lines.len() ==> !text::has_prefix(#[trigger] lines[k], name + seq![' ']))
            ==> listed_refs(lines)[name] == sha,
    decreases lines.len(),
{
    if i == lines.len() - 1 {
        lemma_ref_line(name, sha);
    } else {
        let front = lines.drop_last();
        lemma_listed_refs(front, i, name, sha);
        let last = lines.last();
        text::lemma_first_index(last, ' ');
        let at = text::first_index(last, ' ');
        if forall|k: int|
            i < k < lines.len() ==> !text::has_prefix(#[trigger] lines[k], name + seq![' ']) {
            assert forall|k: int| i < k < front.len() implies !text::has_prefix(
                #[trigger] front[k],
                name + seq![' '],
            ) by {
                assert(front[k] == lines[k]);
            }
            assert(!text::has_prefix(lines[lines.len() - 1], name + seq![' ']));
            if at >= 0 && last.take(at) == name {
                assert(last.take((name + seq![' ']).len() as int) =~= name + seq![' ']);
            }
        }
    }
}

/// `HEAD` is the branch that git says it is, else the sha, else what its file holds, and the main
/// branch of a repository that has none.
pub proof fn law_head_is_what_git_says(
    symbolic: Option<&str>,
    sha: Option<&str>,
    file: Option<&str>,
    r: String,
)
    requires
        call_ensures(GitRepo::head, (symbolic, sha, file), r),
    ensures
        symbolic matches Some(s) ==> r@ == text::stripped(s@),
        symbolic is None ==> (sha matches Some(s) ==> r@ == text::stripped(s@)),
        symbolic is None && sha is None && file is None ==> r@ == "refs/heads/main"@,
        symbolic is None && sha is None && file is Some && !text::has_prefix(
            text::stripped(file->0@),
            "ref: "@,
        ) ==> r@ == text::stripped(file->0@),
{
}

/// A `HEAD` that was written is read back from its file, as long as it has no white space at its
/// ends and does not look like a file's content itself.
pub proof fn law_a_written_head_is_read_back(head: &str, written: String, file: &str, r: String)
    requires
        head@.len() > 0,
        !text::is_white(head@[0]),
        !text::is_white(head@.last()),
        !text::has_prefix(head@, "ref: "@),
        call_ensures(write_head, (head,), written),
        file@ == written@,
        call_ensures(GitRepo::head, (None, None, Some(file)), r),
    ensures
        r@ == head@,
{
    reveal_strlit("ref: ");
    reveal_strlit("\n");
    reveal_strlit("refs/");
    let h = head@;
    let body = if text::has_prefix(h, "refs/"@) {
        "ref: "@ + h
    } else {
        h
    };
    assert(written@ =~= body.push('\n'));
    assert(body.last() == h.last());
    assert(!text::is_white(body[0])) by {
        if text::has_prefix(h, "refs/"@) {
            assert(body[0] == 'r');
        }
    }
    lemma_stripped_line(body);
    if text::has_prefix(h, "refs/"@) {
        assert(body.take("ref: "@.len() as int) =~= "ref: "@);
        assert(body.skip("ref: "@.len() as int) =~= h);
        assert(without_ref(body) == without_ref(h));
    }
    assert(without_ref(h) == h);
}

proof fn lemma_stripped_line(body: Seq<char>)
    requires
        body.len() > 0,
        !text::is_white(body[0]),
        !text::is_white(body.last()),
    ensures
        text::stripped(body.push('\n')) == body,
{
    let s = body.push('\n');
    assert(s[0] == body[0]);
    assert(text::without_white_start(s) == s);
    assert(s.last() == '\n');
    assert(s.drop_last() =~= body);
    assert(text::without_white_end(body) == body);
}

/// Of the objects that were asked for, those that git does not call missing are there.
pub proof fn law_missing_objects_are_not_there(
    stdout: &str,
    r: Vec<String>,
    i: int,
)
    requires
        call_ensures(GitRepo::existing, (stdout,), r),
        0 <= i < text::line_texts(text::stripped(stdout@)).len(),
    ensures
        ({
            let l = text::line_texts(text::stripped(stdout@))[i];
            &&& !text::has_suffix(l, " missing"@) && text::words(l).len() > 0 ==> order::views(
                r@,
            ).contains(text::words(l)[0])
        }),
        r@.len() <= text::line_texts(text::stripped(stdout@)).len(),
        (forall|k: int|
            0 <= k < text::line_texts(text::stripped(stdout@)).len() ==> text::has_suffix(
                #[trigger] text::line_texts(text::stripped(stdout@))[k],
                " missing"@,
            )) ==> r@.len() == 0,
{
    let lines = text::line_texts(text::stripped(stdout@));
    lemma_found(lines, i);
    assert(order::views(r@).len() == r@.len());
}

proof fn lemma_found(lines: Seq<Seq<char>>, i: int)
    requires
        0 <= i < lines.len(),
    ensures
        !text::has_suffix(lines[i], " missing"@) && text::words(lines[i]).len() > 0
            ==> found_objects(lines).contains(text::words(lines[i])[0]),
        found_objects(lines).len() <= lines.len(),
        (forall|k: int| 0 <= k < lines.len() ==> text::has_suffix(#[trigger] lines[k], " missing"@))
            ==> found_objects(lines).len() == 0,
    decreases lines.len(),
{
    let all = found_objects(lines);
    let front = lines.drop_last();
    let before = found_objects(front);
    if lines.len() > 1 {
        lemma_found(front, if i < front.len() {
            i
        } else {
            0
        });
    } else {
        assert(front =~= Seq::empty());
    }
    if !text::has_suffix(lines[i], " missing"@) && text::words(lines[i]).len() > 0 {
        let w = text::words(lines[i])[0];
        if i < front.len() {
            let k = choose|k: int| 0 <= k < before.len() && before[k] == w;
            assert(all[k] == w);
        } else {
            assert(all[before.len() as int] == w);
        }
    }
    if forall|k: int| 0 <= k < lines.len() ==> text::has_suffix(#[trigger] lines[k], " missing"@) {
        assert forall|k: int| 0 <= k < front.len() implies text::has_suffix(
            #[trigger] front[k],
            " missing"@,
        ) by {
            assert(front[k] == lines[k]);
        }
        assert(text::has_suffix(lines[lines.len() - 1], " missing"@));
    }
}

/// Every nested repository is found: a gitlink of the index under its path, and each path that could
/// not be indexed; and nothing else is taken for one.
pub proof fn law_nested_repositories_are_found(
    stdout: &str,
    unindexed: Vec<String>,
    r: Vec<String>,
    i: int,
    mid: Seq<char>,
    path: Seq<char>,
)
    requires
        call_ensures(GitRepo::gitlinks, (stdout, &unindexed), r),
    ensures
        0 <= i < unindexed@.len() ==> text::among(r@, unindexed@[i]@),
        0 <= i < text::pieces(stdout@, '\0').len() && text::pieces(stdout@, '\0')[i] == "160000 "@
            + mid + seq!['\t'] + path && !mid.contains('\t') ==> text::among(r@, path),
        forall|p: Seq<char>| #[trigger]
            text::among(r@, p) ==> text::among(unindexed@, p) || exists|k: int|
                0 <= k < text::pieces(stdout@, '\0').len() && text::has_prefix(
                    #[trigger] text::pieces(stdout@, '\0')[k],
                    "160000 "@,
                ),
{
    reveal_strlit("160000 ");
    let entries = text::pieces(stdout@, '\0');
    if 0 <= i < unindexed@.len() {
        assert(text::among(unindexed@, unindexed@[i]@));
        assert(is_gitlink(entries, unindexed@, unindexed@[i]@));
    }
    if 0 <= i < entries.len() && entries[i] == "160000 "@ + mid + seq!['\t'] + path
        && !mid.contains('\t') {
        let e = entries[i];
        let at = ("160000 "@ + mid).len() as int;
        assert(e[at] == '\t');
        assert forall|k: int| 0 <= k < at implies e[k] != '\t' by {
            if k >= "160000 "@.len() {
                assert(e[k] == mid[k - "160000 "@.len()]);
                if e[k] == '\t' {
                    assert(mid.contains(mid[k - "160000 "@.len()]));
                }
            } else {
                assert(e[k] == "160000 "@[k]);
            }
        }
        text::lemma_first_index_is(e, '\t', at);
        assert(e.take("160000 "@.len() as int) =~= "160000 "@);
        assert(e.skip(at + 1) =~= path);
        assert(gitlink_path(e) == Some(path));
        assert(is_gitlink(entries, unindexed@, path));
    }
    assert forall|p: Seq<char>| #[trigger] text::among(r@, p) implies text::among(unindexed@, p)
        || exists|k: int|
        0 <= k < entries.len() && text::has_prefix(#[trigger] entries[k], "160000 "@) by {
        assert(is_gitlink(entries, unindexed@, p));
        if !text::among(unindexed@, p) {
            let k = choose|k: int|
                0 <= k < entries.len() && gitlink_path(#[trigger] entries[k]) == Some(p);
            assert(text::has_prefix(entries[k], "160000 "@));
        }
    }
}

/// The tips of the reflog are all that git lists of it; a repository that fails its check is told
/// apart from one that passes; and a place that is no repository is told as such.
pub proof fn law_git_is_taken_at_its_word(
    stdout: &str,
    tips: Vec<String>,
    success: bool,
    status: FsckStatus,
    root: FsPath,
    opened: Result<GitRepo, GitError>,
)
    requires
        call_ensures(GitRepo::reflog_tips, (true, stdout), tips),
        call_ensures(GitRepo::fsck, (success,), status),
        call_ensures(GitRepo::open, (&root, success, stdout), opened),
    ensures
        order::views(tips@) == text::line_texts(text::stripped(stdout@)),
        status == FsckStatus::Verified <==> success,
        opened is Ok <==> success,
        opened is Err ==> opened->Err_0 is NotARepo,
        opened is Ok && text::line_texts(stdout@).len() >= 2 ==> opened->Ok_0.git_dir@
            == root@.join(text::line_texts(stdout@)[0]) && opened->Ok_0.common_dir@ == root@.join(
            text::line_texts(stdout@)[1],
        ),
{
}

/// The blobs of an index are the second words of its lines.
pub proof fn law_index_blobs_are_read(stdout: &str, r: Vec<String>, i: int)
    requires
        call_ensures(GitRepo::index_blobs, (stdout,), r),
        0 <= i < text::line_texts(text::stripped(stdout@)).len(),
        text::words(text::line_texts(text::stripped(stdout@))[i]).len() > 1,
    ensures
        order::views(r@).contains(text::words(text::line_texts(text::stripped(stdout@))[i])[1]),
{
    lemma_second_words(text::line_texts(text::stripped(stdout@)), i);
}

proof fn lemma_second_words(lines: Seq<Seq<char>>, i: int)
    requires
        0 <= i < lines.len(),
        text::words(lines[i]).len() > 1,
    ensures
        second_words(lines).contains(text::words(lines[i])[1]),
    decreases lines.len(),
{
    let all = second_words(lines);
    let front = second_words(lines.drop_last());
    let w = text::words(lines[i])[1];
    if i < lines.len() - 1 {
        lemma_second_words(lines.drop_last(), i);
        let k = choose|k: int| 0 <= k < front.len() && front[k] == w;
        assert(all[k] == w);
    } else {
        assert(all[front.len() as int] == w);
    }
}

/// What git could not index is taken from its complaints, each path without a slash at its end; a
/// failure without any is an error.
pub proof fn law_unindexed_paths_are_read(
    success: bool,
    args: Vec<String>,
    stderr: &str,
    r: Result<Vec<String>, GitError>,
    i: int,
    path: Seq<char>,
)
    requires
        call_ensures(GitRepo::unindexed, (success, &args, stderr), r),
    ensures
        success ==> r is Ok,
        r is Err ==> r->Err_0 is Command,
        !success && r is Ok ==> r->Ok_0@.len() > 0,
        0 <= i < text::line_texts(stderr@).len() && text::line_texts(stderr@)[i]
            == "error: unable to index file '"@ + path + "'"@ ==> r is Ok && order::views(
            r->Ok_0@,
        ).contains(text::without_end(path, '/')),
{
    let lines = text::line_texts(stderr@);
    let intro = "error: unable to index file '"@;
    if 0 <= i < lines.len() && lines[i] == intro + path + "'"@ {
        let l = lines[i];
        assert(l.take(intro.len() as int) =~= intro);
        let rest = l.skip(intro.len() as int);
        assert(rest =~= path + "'"@);
        assert(rest.skip(rest.len() - "'"@.len()) =~= "'"@);
        assert(rest.take(rest.len() - "'"@.len()) =~= path);
        assert(unindexed_path(l) == Some(text::without_end(path, '/')));
        lemma_unindexed(lines, i);
    }
}

proof fn lemma_unindexed(lines: Seq<Seq<char>>, i: int)
    requires
        0 <= i < lines.len(),
        unindexed_path(lines[i]) is Some,
    ensures
        unindexed_paths(lines).contains(unindexed_path(lines[i])->0),
    decreases lines.len(),
{
    let all = unindexed_paths(lines);
    let front = unindexed_paths(lines.drop_last());
    let p = unindexed_path(lines[i])->0;
    if i < lines.len() - 1 {
        lemma_unindexed(lines.drop_last(), i);
        let k = choose|k: int| 0 <= k < front.len() && front[k] == p;
        assert(all[k] == p);
    } else {
        assert(all[front.len() as int] == p);
    }
}

/// The working tree is added whole, errors aside, but for what is excluded; and git is asked for
/// each object on a line of its own.
pub proof fn law_git_is_told_what_to_add_and_to_look_for(
    excludes: Vec<String>,
    args: Vec<String>,
    i: int,
    shas: Vec<String>,
    more: Vec<String>,
    sha: String,
    a: String,
    b: String,
)
    requires
        call_ensures(GitRepo::add_args, (&excludes,), args),
        more@ == shas@.push(sha),
        call_ensures(GitRepo::existing_input, (&shas,), a),
        call_ensures(GitRepo::existing_input, (&more,), b),
    ensures
        args@.len() == excludes@.len() + 5,
        args@[0]@ == "add"@ && args@[1]@ == "-A"@ && args@[2]@ == "--ignore-errors"@ && args@[3]@
            == "--"@ && args@[4]@ == "."@,
        0 <= i < excludes@.len() ==> args@[5 + i]@ == ":(exclude)"@ + text::without_end(
            text::without_start(excludes@[i]@, '/'),
            '/',
        ),
        b@ == a@ + sha@ + "\n"@,
        shas@.len() == 0 ==> a@.len() == 0,
{
    let (sv, mv) = (order::views(shas@), order::views(more@));
    assert(mv =~= sv.push(sha@));
    assert(mv.drop_last() =~= sv);
    if 0 <= i < excludes@.len() {
        assert(args@[5 + i]@ == exclude_spec(excludes@[i]@));
    }
    if shas@.len() == 0 {
        assert(sv =~= Seq::empty());
    }
}

/// Whether a repository moved: just if `HEAD` or one of its refs is not as the closure has it.
pub proof fn law_a_repository_has_moved_if_a_ref_has(
    closure: Closure,
    refs_after: SortedMap<String, String>,
    head_after: &str,
    r: bool,
    name: Seq<char>,
)
    requires
        closure.wf(),
        refs_after.wf(),
        call_ensures(moved, (&closure, &refs_after, head_after), r),
        !text::has_prefix(name, "refs/sealant/capture/"@),
    ensures
        head_after@ != closure.head@ ==> r,
        closure.refs@.dom().contains(name) != refs_after@.dom().contains(name) ==> r,
        closure.refs@.dom().contains(name) && refs_after@.dom().contains(name)
            && closure.refs@[name]@ != refs_after@[name]@ ==> r,
{
    let (cm, am) = (text::texts(closure.refs@), text::texts(refs_after@));
    assert(cm.dom().contains(name) <==> closure.refs@.dom().contains(name));
    assert(am.dom().contains(name) <==> refs_after@.dom().contains(name));
    assert(cm.dom().contains(name) ==> cm[name] == closure.refs@[name]@);
    assert(am.dom().contains(name) ==> am[name] == refs_after@[name]@);
}

} // verus!
