//! What a materialize does as a whole, and what a second one does over it.
//!
//! A run is told by what it finds: for each directory what is on disk for its entries, for each pack
//! whether it is there already, for each hardlink what is under both names, and what the sweep
//! lists. What is done follows from that by the decisions of [`crate::materialize`], and so does the
//! report. A run that finds what another one left finds nothing to do.

use vstd::prelude::*;
use vstd::string::*;
use crate::count;
use crate::index;
use crate::index::{IndexedFile, FileKind, Listing, Meta, MODE_BITS};
use crate::manifest::{FsckStatus, Manifest, WORKTREE_TREE_REF};
use crate::materialize;
use crate::materialize::{
    Checkout, ClassStep, DiskState, EntryStep, MaterializeClass, MaterializeReport, OnDisk,
    SweepStep,
};
use crate::paths;
use crate::text;
use crate::tree::{DirEntry, EntryKind};

verus! {

/// What carrying out the step of an entry leaves: on disk, and in the index.
pub open spec fn is_left(
    v: Seq<char>,
    entry: DirEntry,
    step: EntryStep,
    before: (OnDisk, Map<Seq<char>, IndexedFile>),
    after: (OnDisk, Map<Seq<char>, IndexedFile>),
) -> bool {
    let same_file = before.1.dom().contains(v) ==> after.1.dom().contains(v) && after.1[v]
        == before.1[v];
    match step {
        EntryStep::Keep => {
            &&& match before.0 {
                OnDisk::There(m) => after.0 matches OnDisk::There(n) && n == (Meta {
                    nlink: n.nlink,
                    ..m
                }),
                _ => after.0 == before.0,
            }
            &&& same_file
        },
        EntryStep::SetMode => {
            &&& before.0 matches OnDisk::There(m)
            &&& after.0 matches OnDisk::There(n)
            &&& n.kind == m.kind && n.stat == m.stat && n.mode & MODE_BITS == entry.mode
            &&& same_file
        },
        EntryStep::Write => {
            &&& after.0 matches OnDisk::There(n)
            &&& n.kind == FileKind::File && n.mode & MODE_BITS == entry.mode
            &&& n.stat.size == entry.size && n.stat.mtime == entry.mtime
            &&& after.1.dom().contains(v) && after.1[v].stat == n.stat
            &&& entry.chunks is Some ==> after.1[v].chunks@ == entry.chunks->0@
        },
        EntryStep::Symlink(t) => after.0 matches OnDisk::Link(u) && u@ == t@,
        _ => true,
    }
}

/// An entry that a materialize has dealt with is kept by the next one, as long as nothing changed:
/// no file is written, no mode set and no symlink created. A file entry has its chunks.
pub proof fn law_what_was_restored_is_kept(
    v: Seq<char>,
    entry: DirEntry,
    before: (OnDisk, Map<Seq<char>, IndexedFile>),
    step: EntryStep,
    after: (OnDisk, Map<Seq<char>, IndexedFile>),
    again: EntryStep,
)
    requires
        entry.kind == EntryKind::File ==> entry.chunks is Some,
        materialize::is_step(v, entry, before.0, before.1, step),
        is_left(v, entry, step, before, after),
        materialize::is_step(v, entry, after.0, after.1, again),
    ensures
        entry.kind == EntryKind::File || entry.kind == EntryKind::Symlink ==> again is Keep,
        !(again is Write || again is SetMode || again is Symlink),
{
}

/// Whether a report tells of nothing done beyond another, but for what was skipped.
pub open spec fn adds_nothing(before: MaterializeReport, after: MaterializeReport) -> bool {
    after == (MaterializeReport {
        files_skipped: after.files_skipped,
        bytes_skipped: after.bytes_skipped,
        ..before
    })
}

proof fn lemma_kept_adds_nothing(
    report: MaterializeReport,
    entries: Seq<DirEntry>,
    steps: Seq<EntryStep>,
)
    requires
        steps.len() == entries.len(),
        forall|i: int| 0 <= i < steps.len() ==> !((#[trigger] steps[i]) is Symlink),
    ensures
        adds_nothing(report, materialize::counted_all(report, entries, steps)),
    decreases entries.len(),
{
    if entries.len() > 0 {
        assert forall|i: int| 0 <= i < steps.drop_last().len() implies !((
        #[trigger] steps.drop_last()[i]) is Symlink) by {
            assert(steps.drop_last()[i] == steps[i]);
        }
        lemma_kept_adds_nothing(report, entries.drop_last(), steps.drop_last());
        assert(steps[steps.len() - 1] == steps.last());
    }
}

/// A directory that a materialize brings to disk: where it is, its entries, what was there and what
/// was decided.
pub struct Visit {
    /// The virtual path.
    pub vdir: Seq<char>,
    /// The entries.
    pub entries: Seq<DirEntry>,
    /// What was on disk for each.
    pub disk: Seq<OnDisk>,
    /// What was done for each.
    pub steps: Seq<EntryStep>,
    /// How many bytes each came to, where it was written.
    pub bytes: Seq<u64>,
}

impl Visit {
    /// Whether the steps are those that the disk and the index ask for.
    pub open spec fn is_planned(self, files: Map<Seq<char>, IndexedFile>) -> bool {
        &&& self.disk.len() == self.entries.len()
        &&& self.steps.len() == self.entries.len()
        &&& self.bytes.len() == self.entries.len()
        &&& forall|i: int|
            0 <= i < self.entries.len() ==> materialize::is_step(
                paths::joined(self.vdir, self.entries[i].name@),
                self.entries[i],
                self.disk[i],
                files,
                #[trigger] self.steps[i],
            )
    }

    /// Whether `again` visits the directory as this visit left it.
    pub open spec fn leaves(
        self,
        files: Map<Seq<char>, IndexedFile>,
        again: Visit,
        files_again: Map<Seq<char>, IndexedFile>,
    ) -> bool {
        &&& again.vdir == self.vdir
        &&& again.entries == self.entries
        &&& forall|i: int|
            0 <= i < self.entries.len() ==> is_left(
                paths::joined(self.vdir, self.entries[i].name@),
                self.entries[i],
                #[trigger] self.steps[i],
                (self.disk[i], files),
                (again.disk[i], files_again),
            )
    }
}

/// The report after the files of a directory were written, as [`crate::materialize::written`]
/// counts them.
pub open spec fn wrote_all(
    report: MaterializeReport,
    steps: Seq<EntryStep>,
    bytes: Seq<u64>,
) -> MaterializeReport
    decreases steps.len(),
{
    if steps.len() == 0 {
        report
    } else {
        let front = wrote_all(report, steps.drop_last(), bytes);
        if steps.last() is Write {
            MaterializeReport {
                files: count::capped((front.files + 1) as nat) as u64,
                bytes: count::capped((front.bytes + bytes[steps.len() - 1]) as nat) as u64,
                ..front
            }
        } else {
            front
        }
    }
}

proof fn lemma_unwritten(report: MaterializeReport, steps: Seq<EntryStep>, bytes: Seq<u64>)
    requires
        forall|i: int| 0 <= i < steps.len() ==> !((#[trigger] steps[i]) is Write),
    ensures
        wrote_all(report, steps, bytes) == report,
    decreases steps.len(),
{
    if steps.len() > 0 {
        assert forall|i: int| 0 <= i < steps.drop_last().len() implies !((
        #[trigger] steps.drop_last()[i]) is Write) by {
            assert(steps.drop_last()[i] == steps[i]);
        }
        lemma_unwritten(report, steps.drop_last(), bytes);
        assert(steps[steps.len() - 1] == steps.last());
    }
}

/// The report after some directories were visited one after the other.
pub open spec fn visited(report: MaterializeReport, visits: Seq<Visit>) -> MaterializeReport
    decreases visits.len(),
{
    if visits.len() == 0 {
        report
    } else {
        let v = visits.last();
        wrote_all(
            materialize::counted_all(visited(report, visits.drop_last()), v.entries, v.steps),
            v.steps,
            v.bytes,
        )
    }
}

/// Directories that are visited as a first visit left them have every file and symlink kept, and the
/// report tells of nothing but what was skipped.
proof fn lemma_second_visits(
    first: Seq<Visit>,
    files: Map<Seq<char>, IndexedFile>,
    second: Seq<Visit>,
    files_again: Map<Seq<char>, IndexedFile>,
    report: MaterializeReport,
)
    requires
        second.len() == first.len(),
        forall|k: int|
            0 <= k < first.len() ==> {
                &&& (#[trigger] first[k]).is_planned(files)
                &&& second[k].is_planned(files_again)
                &&& first[k].leaves(files, second[k], files_again)
                &&& forall|i: int|
                    0 <= i < first[k].entries.len() && (
                    #[trigger] first[k].entries[i]).kind == EntryKind::File
                        ==> first[k].entries[i].chunks is Some
            },
    ensures
        adds_nothing(report, visited(report, second)),
        forall|k: int, i: int|
            0 <= k < second.len() && 0 <= i < second[k].steps.len() ==> !(
            #[trigger] second[k].steps[i] is Write || second[k].steps[i] is SetMode
                || second[k].steps[i] is Symlink),
    decreases first.len(),
{
    assert forall|k: int, i: int|
        0 <= k < second.len() && 0 <= i < second[k].steps.len() implies !(
    #[trigger] second[k].steps[i] is Write || second[k].steps[i] is SetMode
        || second[k].steps[i] is Symlink) by {
        let (a, b) = (first[k], second[k]);
        assert(a.is_planned(files) && b.is_planned(files_again));
        assert(a.entries[i] == b.entries[i]);
        assert(is_left(
            paths::joined(a.vdir, a.entries[i].name@),
            a.entries[i],
            a.steps[i],
            (a.disk[i], files),
            (b.disk[i], files_again),
        ));
        law_what_was_restored_is_kept(
            paths::joined(a.vdir, a.entries[i].name@),
            a.entries[i],
            (a.disk[i], files),
            a.steps[i],
            (b.disk[i], files_again),
            b.steps[i],
        );
    }
    if first.len() > 0 {
        assert forall|k: int| 0 <= k < first.drop_last().len() implies {
            &&& (#[trigger] first.drop_last()[k]).is_planned(files)
            &&& second.drop_last()[k].is_planned(files_again)
            &&& first.drop_last()[k].leaves(files, second.drop_last()[k], files_again)
            &&& forall|i: int|
                0 <= i < first.drop_last()[k].entries.len() && (
                #[trigger] first.drop_last()[k].entries[i]).kind == EntryKind::File
                    ==> first.drop_last()[k].entries[i].chunks is Some
        } by {
            assert(first.drop_last()[k] == first[k] && second.drop_last()[k] == second[k]);
        }
        lemma_second_visits(
            first.drop_last(),
            files,
            second.drop_last(),
            files_again,
            report,
        );
        let last = second.last();
        assert(second[second.len() - 1] == last);
        assert(first[first.len() - 1].is_planned(files));
        assert forall|i: int| 0 <= i < last.steps.len() implies !((
        #[trigger] last.steps[i]) is Symlink) by {
            assert(last.steps[i] == second[second.len() - 1].steps[i]);
        }
        assert forall|i: int| 0 <= i < last.steps.len() implies !((
        #[trigger] last.steps[i]) is Write) by {
            assert(last.steps[i] == second[second.len() - 1].steps[i]);
        }
        let before = visited(report, second.drop_last());
        lemma_kept_adds_nothing(before, last.entries, last.steps);
        lemma_unwritten(
            materialize::counted_all(before, last.entries, last.steps),
            last.steps,
            last.bytes,
        );
    }
}

/// A chunked class that is brought to disk.
pub struct ClassRun {
    /// The index at the start.
    pub files: Map<Seq<char>, IndexedFile>,
    /// For each pack that the section lists, whether it is in the cache.
    pub cached: Seq<bool>,
    /// The directories, one after the other.
    pub visits: Seq<Visit>,
    /// For each member that asks to be linked, what is under the name of its canonical file and
    /// under its own when the links' turn comes; nothing where the canonical name is outside the
    /// class.
    pub links: Seq<Option<(OnDisk, OnDisk)>>,
    /// What the class would capture when the sweep's turn comes.
    pub listing: Listing,
    /// The bulk directories, if this is the bulk class.
    pub bulk_dirs: Option<Seq<String>>,
    /// The roots of the class among what it would capture.
    pub roots: Set<Seq<char>>,
    /// What is swept, in order.
    pub swept: Seq<String>,
}

/// The report after packs were fetched that were not there.
pub open spec fn fetched(report: MaterializeReport, cached: Seq<bool>) -> MaterializeReport
    decreases cached.len(),
{
    if cached.len() == 0 {
        report
    } else {
        let front = fetched(report, cached.drop_last());
        if cached.last() {
            front
        } else {
            MaterializeReport {
                packs_fetched: count::capped((front.packs_fetched + 1) as nat) as u64,
                ..front
            }
        }
    }
}

/// The report after git packs were installed that were not there.
pub open spec fn installed(report: MaterializeReport, present: Seq<bool>) -> MaterializeReport
    decreases present.len(),
{
    if present.len() == 0 {
        report
    } else {
        let front = installed(report, present.drop_last());
        if present.last() {
            front
        } else {
            MaterializeReport {
                git_packs: count::capped((front.git_packs + 1) as nat) as u64,
                ..front
            }
        }
    }
}

/// Whether a member has to be linked.
pub open spec fn links_up(link: Option<(OnDisk, OnDisk)>) -> bool {
    link matches Some((canonical, member)) && !materialize::are_linked(canonical, member)
}

/// The report after members were linked that were not.
pub open spec fn linked(
    report: MaterializeReport,
    links: Seq<Option<(OnDisk, OnDisk)>>,
) -> MaterializeReport
    decreases links.len(),
{
    if links.len() == 0 {
        report
    } else {
        let front = linked(report, links.drop_last());
        if links_up(links.last()) {
            MaterializeReport {
                hardlinks: count::capped((front.hardlinks + 1) as nat) as u64,
                ..front
            }
        } else {
            front
        }
    }
}

/// What the entries of the directories ask to be linked.
pub open spec fn all_links(visits: Seq<Visit>) -> Seq<(Seq<char>, Seq<char>, u32)>
    decreases visits.len(),
{
    if visits.len() == 0 {
        Seq::empty()
    } else {
        all_links(visits.drop_last()) + materialize::links_of(
            visits.last().vdir,
            visits.last().entries,
        )
    }
}

/// Whether a directory or one of its entries is at the path.
pub open spec fn is_named(visit: Visit, v: Seq<char>) -> bool {
    (visit.vdir.len() > 0 && v == visit.vdir) || materialize::is_entry(
        visit.vdir,
        visit.entries,
        v,
    )
}

impl ClassRun {
    /// Whether the plan names the path.
    pub open spec fn plans(self, v: Seq<char>) -> bool {
        exists|k: int| 0 <= k < self.visits.len() && is_named(#[trigger] self.visits[k], v)
    }

    /// Whether the sweep leaves the path alone: the plan names it, or it is in no bulk directory
    /// while only those are swept.
    pub open spec fn keeps(self, v: Seq<char>) -> bool {
        self.plans(v) || (self.bulk_dirs matches Some(dirs) && self.listing.entries@.dom().contains(
            v,
        ) && !index::component_in(paths::components(v), dirs))
    }

    /// What the sweep does at a path.
    pub open spec fn sweeps(self, v: Seq<char>) -> SweepStep {
        materialize::step_of_sweep(self.listing.entries@[v], self.roots.contains(v))
    }

    /// Whether what is done is what the disk, the index and the plan ask for.
    pub open spec fn is_run(self) -> bool {
        &&& forall|k: int|
            0 <= k < self.visits.len() ==> (#[trigger] self.visits[k]).is_planned(self.files)
        &&& self.links.len() == all_links(self.visits).len()
        &&& forall|v: Seq<char>| #[trigger]
            text::among(self.swept, v) <==> self.listing.entries@.dom().contains(v)
                && !self.keeps(v)
        &&& materialize::in_sweep_order(self.swept)
    }

    /// The report after what is swept went.
    pub open spec fn swept_report(
        self,
        report: MaterializeReport,
        some: Seq<String>,
    ) -> MaterializeReport
        decreases some.len(),
    {
        if some.len() == 0 {
            report
        } else {
            let front = self.swept_report(report, some.drop_last());
            if self.sweeps(some.last()@) is RemoveFile {
                MaterializeReport {
                    removed: count::capped((front.removed + 1) as nat) as u64,
                    ..front
                }
            } else {
                front
            }
        }
    }

    /// The report after the run.
    pub open spec fn report(self, report: MaterializeReport) -> MaterializeReport {
        self.swept_report(
            linked(visited(fetched(report, self.cached), self.visits), self.links),
            self.swept,
        )
    }

    /// Whether `again` finds what this run left: packs stay in the cache, entries and index are as
    /// their steps left them, a linked member is its canonical file under another name, what was
    /// swept is gone, but for directories that did not empty, and nothing else came.
    pub open spec fn leaves(self, again: ClassRun) -> bool {
        &&& again.cached.len() == self.cached.len()
        &&& forall|k: int| 0 <= k < again.cached.len() ==> #[trigger] again.cached[k]
        &&& again.visits.len() == self.visits.len()
        &&& forall|k: int|
            0 <= k < self.visits.len() ==> (#[trigger] self.visits[k]).leaves(
                self.files,
                again.visits[k],
                again.files,
            )
        &&& again.links.len() == self.links.len()
        &&& forall|k: int|
            0 <= k < self.links.len() ==> is_linked_by(#[trigger] self.links[k], again.links[k])
        &&& again.bulk_dirs == self.bulk_dirs
        &&& again.roots == self.roots
        &&& forall|w: Seq<char>| #[trigger]
            again.listing.entries@.dom().contains(w) ==> self.plans(w) || (
            self.listing.entries@.dom().contains(w) && again.listing.entries@[w].kind
                == self.listing.entries@[w].kind && !(text::among(self.swept, w)
                && self.sweeps(w) is RemoveFile))
    }

    /// Whether nothing is fetched, written, linked or removed.
    pub open spec fn does_nothing(self) -> bool {
        &&& forall|k: int| 0 <= k < self.cached.len() ==> #[trigger] self.cached[k]
        &&& forall|k: int, i: int|
            0 <= k < self.visits.len() && 0 <= i < self.visits[k].steps.len() ==> !(
            #[trigger] self.visits[k].steps[i] is Write || self.visits[k].steps[i] is SetMode
                || self.visits[k].steps[i] is Symlink)
        &&& forall|k: int| 0 <= k < self.links.len() ==> !links_up(#[trigger] self.links[k])
        &&& forall|k: int|
            0 <= k < self.swept.len() ==> !(self.sweeps((#[trigger] self.swept[k])@) is RemoveFile)
    }

    /// Whether every file of the plan has its chunks.
    pub open spec fn is_whole(self) -> bool {
        forall|k: int, i: int|
            0 <= k < self.visits.len() && 0 <= i < self.visits[k].entries.len() && (
            #[trigger] self.visits[k].entries[i]).kind == EntryKind::File
                ==> self.visits[k].entries[i].chunks is Some
    }
}

/// Whether linking a member leaves it as `after` has it, on a disk that takes hardlinks.
pub open spec fn is_linked_by(
    before: Option<(OnDisk, OnDisk)>,
    after: Option<(OnDisk, OnDisk)>,
) -> bool {
    match before {
        None => after is None,
        Some((canonical, member)) => {
            &&& after matches Some((OnDisk::There(a), OnDisk::There(b)))
            &&& a.kind == FileKind::File && b.kind == a.kind && b.stat == a.stat
        },
    }
}

proof fn lemma_all_cached(report: MaterializeReport, cached: Seq<bool>)
    requires
        forall|k: int| 0 <= k < cached.len() ==> #[trigger] cached[k],
    ensures
        fetched(report, cached) == report,
        installed(report, cached) == report,
    decreases cached.len(),
{
    if cached.len() > 0 {
        assert forall|k: int| 0 <= k < cached.drop_last().len() implies
            #[trigger] cached.drop_last()[k] by {
            assert(cached.drop_last()[k] == cached[k]);
        }
        lemma_all_cached(report, cached.drop_last());
        assert(cached[cached.len() - 1]);
    }
}

proof fn lemma_all_linked(report: MaterializeReport, links: Seq<Option<(OnDisk, OnDisk)>>)
    requires
        forall|k: int| 0 <= k < links.len() ==> !links_up(#[trigger] links[k]),
    ensures
        linked(report, links) == report,
    decreases links.len(),
{
    if links.len() > 0 {
        assert forall|k: int| 0 <= k < links.drop_last().len() implies !links_up(
            #[trigger] links.drop_last()[k],
        ) by {
            assert(links.drop_last()[k] == links[k]);
        }
        lemma_all_linked(report, links.drop_last());
        assert(!links_up(links[links.len() - 1]));
    }
}

proof fn lemma_none_swept(run: ClassRun, report: MaterializeReport, some: Seq<String>)
    requires
        forall|k: int| 0 <= k < some.len() ==> !(run.sweeps((#[trigger] some[k])@) is RemoveFile),
    ensures
        run.swept_report(report, some) == report,
    decreases some.len(),
{
    if some.len() > 0 {
        assert forall|k: int| 0 <= k < some.drop_last().len() implies !(run.sweeps(
            (#[trigger] some.drop_last()[k])@,
        ) is RemoveFile) by {
            assert(some.drop_last()[k] == some[k]);
        }
        lemma_none_swept(run, report, some.drop_last());
        assert(!(run.sweeps(some[some.len() - 1]@) is RemoveFile));
    }
}

proof fn lemma_second_class(first: ClassRun, second: ClassRun, report: MaterializeReport)
    requires
        first.is_run(),
        first.is_whole(),
        second.is_run(),
        first.leaves(second),
    ensures
        second.does_nothing(),
        adds_nothing(report, second.report(report)),
{
    assert forall|k: int| 0 <= k < first.visits.len() implies {
        &&& (#[trigger] first.visits[k]).is_planned(first.files)
        &&& second.visits[k].is_planned(second.files)
        &&& first.visits[k].leaves(first.files, second.visits[k], second.files)
        &&& forall|i: int|
            0 <= i < first.visits[k].entries.len() && (
            #[trigger] first.visits[k].entries[i]).kind == EntryKind::File
                ==> first.visits[k].entries[i].chunks is Some
    } by {}
    lemma_second_visits(first.visits, first.files, second.visits, second.files, report);
    lemma_all_cached(report, second.cached);
    let seen = visited(report, second.visits);
    assert forall|k: int| 0 <= k < second.links.len() implies !links_up(
        #[trigger] second.links[k],
    ) by {
        assert(is_linked_by(first.links[k], second.links[k]));
    }
    lemma_all_linked(seen, second.links);
    assert forall|v: Seq<char>| #[trigger] second.plans(v) <==> first.plans(v) by {
        if second.plans(v) {
            let k = choose|k: int|
                0 <= k < second.visits.len() && is_named(#[trigger] second.visits[k], v);
            assert(is_named(first.visits[k], v));
        }
        if first.plans(v) {
            let k = choose|k: int|
                0 <= k < first.visits.len() && is_named(#[trigger] first.visits[k], v);
            assert(is_named(second.visits[k], v));
        }
    }
    assert forall|k: int| 0 <= k < second.swept.len() implies !(second.sweeps(
        (#[trigger] second.swept[k])@,
    ) is RemoveFile) by {
        let v = second.swept[k]@;
        assert(text::among(second.swept, v));
        assert(second.listing.entries@.dom().contains(v) && !second.keeps(v));
        assert(!second.plans(v));
        assert(!first.keeps(v));
        assert(text::among(first.swept, v));
    }
    lemma_none_swept(second, seen, second.swept);
}

/// The git class that is brought to disk.
pub struct GitRun {
    /// What is known about the disk at the start.
    pub state: DiskState,
    /// For each pack that the section lists, whether it is installed.
    pub present: Seq<bool>,
    /// Whether the repository still has the tree last checked out.
    pub still_here: bool,
    /// In how many paths the trees differ, where the worktree moves from one to another.
    pub changed: u64,
    /// How many files the worktree holds that the tree checked out does not, nor git ignores.
    pub untracked: nat,
    /// What a check of the repository would say.
    pub fsck: FsckStatus,
}

impl GitRun {
    /// How the worktree is brought to the manifest.
    pub open spec fn checkout(self, manifest: Manifest) -> Checkout {
        materialize::checkout_of(manifest, self.state, self.still_here)
    }

    /// Whether what is told of git can be: a tree differs from itself in no path.
    pub open spec fn is_run(self, manifest: Manifest) -> bool {
        self.checkout(manifest) matches Checkout::Delta(from, to) ==> (from@ == to@ ==> self.changed
            == 0)
    }

    /// The state after the run.
    pub open spec fn state_after(self, manifest: Manifest) -> DiskState {
        let moved = self.state.moved(self.checkout(manifest));
        moved.indexed(materialize::index_wanted(manifest, moved))
    }

    /// The report after the run.
    pub open spec fn report(self, manifest: Manifest, report: MaterializeReport) -> MaterializeReport {
        let packs = installed(report, self.present);
        let swept = match self.checkout(manifest) {
            Checkout::Nothing => packs,
            _ => MaterializeReport {
                removed: count::capped(packs.removed as nat + self.untracked) as u64,
                ..packs
            },
        };
        let moved = match self.checkout(manifest) {
            Checkout::Delta(..) => MaterializeReport {
                git_paths_changed: Some(self.changed),
                ..swept
            },
            _ => swept,
        };
        if moved.git_packs > 0 || moved.git_paths_changed is None {
            MaterializeReport { fsck: Some(self.fsck), ..moved }
        } else {
            moved
        }
    }

    /// Whether `again` finds what this run left: the packs are installed, the trees are those last
    /// checked out and read and are still there, and no file is in the way.
    pub open spec fn leaves(self, manifest: Manifest, again: GitRun) -> bool {
        &&& again.state.worktree_tree == self.state_after(manifest).worktree_tree
        &&& again.state.index_tree == self.state_after(manifest).index_tree
        &&& forall|k: int| 0 <= k < again.present.len() ==> #[trigger] again.present[k]
        &&& again.still_here
        &&& again.untracked == 0
    }

    /// Whether nothing is installed, moved, removed or read into the index.
    pub open spec fn does_nothing(self, manifest: Manifest) -> bool {
        let tree = manifest.sections.git.refs@[WORKTREE_TREE_REF@];
        &&& forall|k: int| 0 <= k < self.present.len() ==> #[trigger] self.present[k]
        &&& self.checkout(manifest) == if has_worktree(manifest) {
            Checkout::Delta(tree, tree)
        } else {
            Checkout::Nothing
        }
        &&& materialize::index_wanted(manifest, self.state.moved(self.checkout(manifest))) is None
        &&& self.untracked == 0
    }
}

/// Whether a manifest names a worktree tree.
pub open spec fn has_worktree(manifest: Manifest) -> bool {
    manifest.sections.git.refs@.dom().contains(WORKTREE_TREE_REF@)
}

/// A materialize: what it finds for each class that it brings to disk.
pub struct Run {
    /// The git class.
    pub git: GitRun,
    /// The workspace class.
    pub workspace: ClassRun,
    /// The bulk class.
    pub bulk: ClassRun,
}

impl Run {
    /// Whether what a step does is what it finds asks for.
    pub open spec fn is_run(self, manifest: Manifest, step: ClassStep) -> bool {
        match step {
            ClassStep::Git => self.git.is_run(manifest),
            ClassStep::Workspace => self.workspace.is_run() && self.workspace.is_whole(),
            ClassStep::Bulk => self.bulk.is_run() && self.bulk.is_whole(),
            ClassStep::Exclude => true,
        }
    }

    /// Whether `again` finds what a step left.
    pub open spec fn leaves(self, manifest: Manifest, step: ClassStep, again: Run) -> bool {
        match step {
            ClassStep::Git => self.git.leaves(manifest, again.git),
            ClassStep::Workspace => self.workspace.leaves(again.workspace),
            ClassStep::Bulk => self.bulk.leaves(again.bulk),
            ClassStep::Exclude => true,
        }
    }

    /// Whether a step does nothing.
    pub open spec fn does_nothing(self, manifest: Manifest, step: ClassStep) -> bool {
        match step {
            ClassStep::Git => self.git.does_nothing(manifest),
            ClassStep::Workspace => self.workspace.does_nothing(),
            ClassStep::Bulk => self.bulk.does_nothing(),
            ClassStep::Exclude => true,
        }
    }

    /// The report after some steps.
    pub open spec fn report(self, manifest: Manifest, some: Seq<ClassStep>) -> MaterializeReport
        decreases some.len(),
    {
        if some.len() == 0 {
            MaterializeReport::blank()
        } else {
            let front = self.report(manifest, some.drop_last());
            match some.last() {
                ClassStep::Git => self.git.report(manifest, front),
                ClassStep::Workspace => self.workspace.report(front),
                ClassStep::Bulk => self.bulk.report(front),
                ClassStep::Exclude => front,
            }
        }
    }
}

proof fn lemma_second_run(
    manifest: Manifest,
    some: Seq<ClassStep>,
    first: Run,
    second: Run,
)
    requires
        forall|i: int|
            0 <= i < some.len() ==> first.is_run(manifest, #[trigger] some[i]) && second.is_run(
                manifest,
                some[i],
            ) && first.leaves(manifest, some[i], second),
    ensures
        forall|i: int|
            0 <= i < some.len() ==> second.does_nothing(manifest, #[trigger] some[i]),
        ({
            let r = second.report(manifest, some);
            &&& r.files == 0 && r.bytes == 0 && r.symlinks == 0 && r.hardlinks == 0
            &&& r.removed == 0 && r.packs_fetched == 0 && r.git_packs == 0
            &&& has_worktree(manifest) ==> r.fsck is None
            &&& has_worktree(manifest) && some.contains(ClassStep::Git) ==> r.git_paths_changed
                == Some(0u64)
        }),
    decreases some.len(),
{
    if some.len() > 0 {
        let front = some.drop_last();
        let step = some[some.len() - 1];
        assert forall|i: int| 0 <= i < front.len() implies first.is_run(
            manifest,
            #[trigger] front[i],
        ) && second.is_run(manifest, front[i]) && first.leaves(manifest, front[i], second) by {
            assert(front[i] == some[i]);
        }
        lemma_second_run(manifest, front, first, second);
        let r = second.report(manifest, front);
        assert(first.is_run(manifest, step) && second.is_run(manifest, step));
        assert(first.leaves(manifest, step, second));
        match step {
            ClassStep::Git => {
                lemma_all_cached(r, second.git.present);
            },
            ClassStep::Workspace => {
                lemma_second_class(first.workspace, second.workspace, r);
            },
            ClassStep::Bulk => {
                lemma_second_class(first.bulk, second.bulk, r);
            },
            ClassStep::Exclude => {},
        }
        assert forall|i: int| 0 <= i < some.len() implies second.does_nothing(
            manifest,
            #[trigger] some[i],
        ) by {
            if i < front.len() {
                assert(some[i] == front[i]);
            }
        }
        if some.contains(ClassStep::Git) && step != ClassStep::Git {
            let i = choose|i: int| 0 <= i < some.len() && some[i] == ClassStep::Git;
            assert(front[i] == ClassStep::Git);
        }
    }
}

/// A second materialize over the first does nothing: where it finds what the first one left, on a
/// disk that takes hardlinks and of a plan whose files have their chunks, nothing is fetched,
/// written, linked or removed, the worktree stays at its tree, and every counter but those of what
/// was skipped is 0. A manifest without a worktree tree has its repository checked again, which
/// changes nothing either.
pub proof fn law_a_second_materialize_writes_nothing(
    manifest: Manifest,
    class: MaterializeClass,
    first: Run,
    second: Run,
)
    requires
        forall|step: ClassStep| #[trigger]
            materialize::steps(class, manifest.sections.bulk).contains(step) ==> first.is_run(
                manifest,
                step,
            ) && second.is_run(manifest, step) && first.leaves(manifest, step, second),
    ensures
        forall|step: ClassStep| #[trigger]
            materialize::steps(class, manifest.sections.bulk).contains(step)
                ==> second.does_nothing(manifest, step),
        ({
            let all = materialize::steps(class, manifest.sections.bulk);
            let r = second.report(manifest, all);
            &&& r.files == 0 && r.bytes == 0 && r.symlinks == 0 && r.hardlinks == 0
            &&& r.removed == 0 && r.packs_fetched == 0 && r.git_packs == 0
            &&& has_worktree(manifest) ==> r.fsck is None
            &&& has_worktree(manifest) && all.contains(ClassStep::Git) ==> r.git_paths_changed
                == Some(0u64)
        }),
{
    let all = materialize::steps(class, manifest.sections.bulk);
    assert forall|i: int| 0 <= i < all.len() implies first.is_run(manifest, #[trigger] all[i])
        && second.is_run(manifest, all[i]) && first.leaves(manifest, all[i], second) by {
        assert(all.contains(all[i]));
    }
    lemma_second_run(manifest, all, first, second);
    assert forall|step: ClassStep| #[trigger] all.contains(step) implies second.does_nothing(
        manifest,
        step,
    ) by {
        let i = choose|i: int| 0 <= i < all.len() && all[i] == step;
        assert(second.does_nothing(manifest, all[i]));
    }
}

} // verus!
