use sealant_capture::chunk::sha256_hex;
use sealant_capture::gitpack::{
    abs, exclude_locally, finished, moved, pack_input, pack_object_count, read_closure, write_head,
    write_packed_refs, ClosureParts, GitError, GitRepo, PackAction, PackRun, PACK_ATTEMPTS,
};
use sealant_capture::manifest::{FsckStatus, INDEX_TREE_REF, WORKTREE_TREE_REF};
use sealant_capture::order::SortedMap;
use sealant_capture::paths::FsPath;

const A: &str = "1111111111111111111111111111111111111111";
const B: &str = "2222222222222222222222222222222222222222";
const C: &str = "3333333333333333333333333333333333333333";

fn parts() -> ClosureParts {
    ClosureParts {
        refs: GitRepo::refs(&format!("refs/heads/main {A}\nrefs/tags/v1 {B}\n")),
        head: "refs/heads/main".into(),
        index_tree: Some(C.into()),
        index_blobs: Vec::new(),
        reflog: vec![B.into()],
        worktree: "4444444444444444444444444444444444444444".into(),
        gitlinks: vec!["vendor/x".into()],
    }
}

/// A repository with no reflog (nothing ever updated a ref through git) has no tips, and asking is
/// not an error.
#[test]
fn reflog_tips_of_a_repo_without_a_reflog_is_empty() {
    assert!(GitRepo::reflog_tips(false, "").is_empty());
    assert_eq!(GitRepo::reflog_tips(true, &format!("{A}\n")).len(), 1);
}

#[test]
fn a_repository_is_where_git_says() {
    let root = FsPath::of("/ws");
    let repo = GitRepo::open(&root, true, ".git\n/main/.git\n").unwrap();
    assert_eq!(repo.git_dir.parts, ["ws", ".git"]);
    assert_eq!(repo.common_dir.parts, ["main", ".git"]);
    let error = GitRepo::open(&root, false, "").err().expect("no repository");
    assert_eq!(error.message(), format!("{} is not a git repository", root.text()));
    assert!(matches!(error, GitError::NotARepo(at) if at.same(&root)));
    assert_eq!(abs(&root, "sub/.git").parts, ["ws", "sub", ".git"]);
}

#[test]
fn a_closure_names_both_trees_beside_the_refs() {
    let closure = read_closure(parts());
    let get = |name: &str| closure.refs.get(&name.to_owned()).map(|s| s.as_str());
    assert_eq!(get("refs/heads/main"), Some(A));
    assert_eq!(get(INDEX_TREE_REF), Some(C));
    assert!(get(WORKTREE_TREE_REF).is_some());
    assert_eq!(closure.tips.len(), 4);
    assert_eq!(closure.gitlinks, ["vendor/x"]);
}

#[test]
fn a_repository_that_moved_is_packed_again() {
    let closure = read_closure(parts());
    let same = GitRepo::refs(&format!("refs/heads/main {A}\nrefs/tags/v1 {B}"));
    assert!(!moved(&closure, &same, "refs/heads/main"));
    assert!(moved(&closure, &same, "refs/heads/other"));
    let other = GitRepo::refs(&format!("refs/heads/main {B}\nrefs/tags/v1 {B}"));
    assert!(moved(&closure, &other, "refs/heads/main"));
    let fewer = GitRepo::refs(&format!("refs/heads/main {A}"));
    assert!(moved(&closure, &fewer, "refs/heads/main"));
}

#[test]
fn attempts_end_with_an_unverified_pack() {
    let mut run = PackRun::new();
    for n in 1..=PACK_ATTEMPTS {
        assert!(matches!(run.next(), PackAction::Attempt(k) if k == n));
        let other = GitRepo::refs(&format!("refs/heads/main {C}"));
        assert!(run.packed(read_closure(parts()), &other, "refs/heads/main").is_none());
    }
    assert!(matches!(run.next(), PackAction::GiveUp(4)));
    assert!(run.last.is_some());
    let mut lucky = PackRun::new();
    lucky.failed();
    let same = GitRepo::refs(&format!("refs/heads/main {A}\nrefs/tags/v1 {B}"));
    assert!(lucky.packed(read_closure(parts()), &same, "refs/heads/main").is_some());
}

#[test]
fn a_pack_header_counts_its_objects() {
    let mut header = b"PACK".to_vec();
    header.extend_from_slice(&[0, 0, 0, 2, 0, 1, 0, 2]);
    assert_eq!(pack_object_count(&header).unwrap(), 65_538);
    let error = pack_object_count(b"JACK\0\0\0\x02\0\0\0\x01").err().expect("no pack");
    assert!(matches!(&error, GitError::Io(why) if why == "not a git pack"));
    assert!(matches!(pack_object_count(b"PACK"), Err(GitError::Io(_))));
}

#[test]
fn git_is_told_what_to_pack() {
    assert_eq!(
        pack_input(&vec![A.into(), B.into()], &vec![C.into()]),
        format!("{A}\n{B}\n^{C}\n")
    );
    assert_eq!(GitRepo::existing_input(&vec![A.into()]), format!("{A}\n"));
    assert_eq!(
        GitRepo::existing(&format!("{A} commit 12\n{B} missing\n{C} tree 3\n")),
        [A, C]
    );
}

#[test]
fn refs_and_head_are_written_as_git_reads_them() {
    let mut refs = SortedMap::new();
    for (name, sha) in
        [("refs/tags/v1", B), ("refs/heads/main", A), (WORKTREE_TREE_REF, C), (INDEX_TREE_REF, C)]
    {
        refs.insert(name.to_owned(), sha.to_owned());
    }
    assert_eq!(
        write_packed_refs(&refs),
        format!(
            "# pack-refs with: peeled fully-peeled sorted \n{A} refs/heads/main\n{B} refs/tags/v1\n"
        )
    );
    assert_eq!(write_head("refs/heads/main"), "ref: refs/heads/main\n");
    assert_eq!(write_head(A), format!("{A}\n"));
}

#[test]
fn a_line_is_excluded_once() {
    assert_eq!(exclude_locally("a\n", "/x/").as_deref(), Some("a\n/x/\n"));
    assert_eq!(exclude_locally("a", "/x/").as_deref(), Some("a\n/x/\n"));
    assert_eq!(exclude_locally("", "/x/").as_deref(), Some("/x/\n"));
    assert_eq!(exclude_locally("a\n/x/\n", "/x/"), None);
}

#[test]
fn head_is_a_branch_a_commit_or_what_the_file_says() {
    assert_eq!(GitRepo::head(Some("refs/heads/main\n"), None, None), "refs/heads/main");
    assert_eq!(GitRepo::head(None, Some(&format!("{A}\n")), None), A);
    assert_eq!(
        GitRepo::head(None, None, Some("ref: refs/heads/new\n")),
        "refs/heads/new"
    );
}

#[test]
fn output_of_git_is_read_line_by_line() {
    let staged = format!("100644 {A} 0\ta.txt\n100644 {B} 1\tb.txt\n");
    assert_eq!(GitRepo::index_blobs(&staged), [A, B]);
    assert_eq!(GitRepo::fsck(true), FsckStatus::Verified);
    assert_eq!(GitRepo::fsck(false), FsckStatus::Failed);
    assert_eq!(GitRepo::status_porcelain(" M a.txt\n"), "M a.txt");
    let args = GitRepo::add_args(&vec![".sealantd".into()]);
    assert_eq!(&args[..5], ["add", "-A", "--ignore-errors", "--", "."]);
    assert_eq!(args.len(), 6);
}

#[test]
fn gitlinks_are_the_commits_of_a_tree() {
    let listed = format!("160000 commit {A}\tvendor/x\0100644 blob {B}\ta.txt\0");
    assert_eq!(GitRepo::gitlinks(&listed, &vec!["bare".into()]), ["bare", "vendor/x"]);
}

#[test]
fn a_pack_without_objects_is_no_pack() {
    let header = |n: u8| [b"PACK".to_vec(), vec![0, 0, 0, 2, 0, 0, 0, n]].concat();
    assert!(finished(&header(0)).unwrap().is_none());
    let pack = finished(&header(3)).unwrap().unwrap();
    assert_eq!((pack.objects, pack.bytes), (3, 12));
    assert_eq!(pack.sha256, sha256_hex(&header(3)));
    let error = finished(b"JACK00000000").err().unwrap();
    assert_eq!(error.message(), "not a git pack");
    let failed = GitError::Command { args: "fsck".into(), stderr: "bad".into() };
    assert_eq!(failed.message(), "git fsck: bad");
}
