//! The tree index and the listings of chunked classes: which of the entries that a walk finds
//! are captured, change detection by `(size, mtime, inode)` with chunk-hash confirmation, and
//! the dir-object builder (file groups, hardlink groups, bounded re-reads of files that change
//! underneath the reader).

use vstd::prelude::*;
use vstd::string::*;
use crate::chunk::ChunkId;
use crate::order;
use crate::order::SortedMap;
use crate::paths;
use crate::text;

verus! {

/// Bounded attempts for a file (or file group) that changes underneath the reader.
pub const READ_ATTEMPTS: u32 = 3;

/// The daemon's own directory under the workspace root (staging lives beneath it).
pub const DAEMON_DIR: &'static str = ".sealantd";

/// The permission bits of a mode.
pub const MODE_BITS: u32 = 0o7777;

/// The names of the directories of dependencies and build outputs, by default.
pub open spec fn default_bulk_names() -> Seq<Seq<char>> {
    seq![
        "node_modules"@,
        "dist"@,
        "build"@,
        "target"@,
        ".turbo"@,
        ".next"@,
        ".output"@,
        ".cache"@,
        "coverage"@,
    ]
}

/// Directory names treated as bulk (dependencies and build outputs) wherever they appear.
pub fn default_bulk_dirs() -> (r: Vec<String>)
    ensures
        order::views(r@) == default_bulk_names(),
{
    let mut out: Vec<String> = Vec::new();
    out.push("node_modules".to_owned());
    out.push("dist".to_owned());
    out.push("build".to_owned());
    out.push("target".to_owned());
    out.push(".turbo".to_owned());
    out.push(".next".to_owned());
    out.push(".output".to_owned());
    out.push(".cache".to_owned());
    out.push("coverage".to_owned());
    assert(order::views(out@) =~= default_bulk_names());
    out
}

/// Whether a file name is always excluded.
pub open spec fn excluded(name: Seq<char>, parent_name: Option<Seq<char>>) -> bool {
    ||| text::has_suffix(name, ".lock"@)
    ||| name == "gc.pid"@
    ||| text::has_suffix(name, "-shm"@)
    ||| text::has_suffix(name, ".pid"@)
    ||| parent_name == Some("objects"@) && (text::has_prefix(name, "tmp_"@) || text::has_prefix(
        name,
        "incoming-"@,
    ))
}

/// Whether a file name is always excluded: `*.lock`, `gc.pid`, SQLite `-shm`, pid files, and
/// `tmp_*` / `incoming-*` under an `objects` directory.
pub fn is_excluded_name(name: &str, parent_name: Option<&str>) -> (r: bool)
    ensures
        r == excluded(
            name@,
            match parent_name {
                Some(p) => Some(p@),
                None => None,
            },
        ),
{
    if text::ends_with(name, ".lock") || text::str_eq(name, "gc.pid") || text::ends_with(
        name,
        "-shm",
    ) || text::ends_with(name, ".pid") {
        return true;
    }
    match parent_name {
        Some(p) => text::str_eq(p, "objects") && (text::starts_with(name, "tmp_")
            || text::starts_with(name, "incoming-")),
        None => false,
    }
}

/// What kind of file an entry on disk is.
#[derive(Debug, Clone, Copy, PartialEq, Eq, Structural)]
pub enum FileKind {
    /// Regular file.
    File,
    /// Directory.
    Dir,
    /// Symbolic link.
    Symlink,
    /// A socket, a fifo or a device.
    Other,
}

/// Whether a file type is captured at all (sockets, fifos and devices are not).
pub fn is_capturable_type(kind: FileKind) -> (r: bool)
    ensures
        r == (kind != FileKind::Other),
{
    match kind {
        FileKind::Other => false,
        _ => true,
    }
}

/// The nearest `i64`.
pub open spec fn clamped(n: int) -> int {
    if n > i64::MAX {
        i64::MAX as int
    } else if n < i64::MIN {
        i64::MIN as int
    } else {
        n
    }
}

fn clamp(n: i128) -> (r: i64)
    ensures
        r == clamped(n as int),
{
    if n > i64::MAX as i128 {
        i64::MAX
    } else if n < i64::MIN as i128 {
        i64::MIN
    } else {
        n as i64
    }
}

/// Modification time as nanoseconds since the Unix epoch, from its seconds and nanoseconds; a
/// time out of range becomes the nearest one in range.
pub fn mtime_ns(secs: i64, nsec: i64) -> (r: i64)
    ensures
        r == clamped(clamped(secs * 1_000_000_000) + nsec),
{
    let whole: i64 = clamp(secs as i128 * 1_000_000_000i128);
    clamp(whole as i128 + nsec as i128)
}

/// Stat fields that decide whether a file must be re-read.
#[derive(Debug, Clone, Copy, PartialEq, Eq, Structural)]
pub struct FileStat {
    /// Size.
    pub size: u64,
    /// mtime in nanoseconds.
    pub mtime: i64,
    /// Inode.
    pub ino: u64,
    /// Device.
    pub dev: u64,
}

/// What lstat says of an entry.
#[derive(Debug, Clone, Copy, PartialEq, Eq, Structural)]
pub struct Meta {
    /// Kind.
    pub kind: FileKind,
    /// `st_mode`.
    pub mode: u32,
    /// Size, times and identity.
    pub stat: FileStat,
    /// Number of hard links.
    pub nlink: u64,
}

/// A file's last known stat and chunk list.
pub struct IndexedFile {
    /// Stat at the last read.
    pub stat: FileStat,
    /// Chunks at the last read.
    pub chunks: Vec<ChunkId>,
}

/// The tree index: virtual path → last known stat and chunks. Kept between snaps so an
/// unchanged file is never re-read.
pub struct TreeIndex {
    /// Files by virtual path.
    pub files: SortedMap<String, IndexedFile>,
}

impl TreeIndex {
    /// Whether the paths are in order.
    pub open spec fn wf(&self) -> bool {
        self.files.wf()
    }

    /// An index without files.
    pub fn empty() -> (r: Self)
        ensures
            r.wf(),
            r.files@ == Map::<Seq<char>, IndexedFile>::empty(),
    {
        TreeIndex { files: SortedMap::new() }
    }

    /// Whether `other` is a copy of this index.
    pub open spec fn copied(&self, other: &Self) -> bool {
        &&& self.files.keys@ == other.files.keys@
        &&& self.files.values@.len() == other.files.values@.len()
        &&& forall|i: int|
            0 <= i < self.files.values@.len() ==> (#[trigger] self.files.values@[i]).stat
                == other.files.values@[i].stat && self.files.values@[i].chunks@
                == other.files.values@[i].chunks@
    }

    /// A copy.
    pub fn copy(&self) -> (r: Self)
        requires
            self.wf(),
        ensures
            r.wf(),
            self.copied(&r),
    {
        let mut values: Vec<IndexedFile> = Vec::new();
        let mut i: usize = 0;
        while i < self.files.values.len()
            invariant
                0 <= i <= self.files.values@.len(),
                values@.len() == i,
                forall|j: int|
                    0 <= j < i ==> (#[trigger] self.files.values@[j]).stat == values@[j].stat
                        && self.files.values@[j].chunks@ == values@[j].chunks@,
            decreases self.files.values@.len() - i,
        {
            values.push(
                IndexedFile {
                    stat: self.files.values[i].stat,
                    chunks: self.files.values[i].chunks.clone(),
                },
            );
            assert(self.files.values@[i as int].chunks@ =~= values@[i as int].chunks@);
            i = i + 1;
        }
        TreeIndex { files: SortedMap { keys: text::copy_all(&self.files.keys), values } }
    }
}

/// One entry that a walk found below a mounted directory.
pub struct Found {
    /// Path relative to the mounted directory, `/`-separated.
    pub rel: String,
    /// Name of the directory that holds the entry.
    pub parent_name: Option<String>,
    /// Whether a sibling has the entry's name with `.idx` in place of `.pack`.
    pub has_idx: bool,
    /// Whether the class keeps the entry, if it is not a directory.
    pub included: bool,
    /// lstat metadata.
    pub meta: Meta,
}

impl Found {
    /// Whether the entry is listed: directories always are; other entries are when they are
    /// capturable, not excluded by name, not a `.pack` without its `.idx`, and kept by the class.
    pub open spec fn kept(&self) -> bool {
        let name = paths::name(self.rel@);
        &&& self.meta.kind != FileKind::Other
        &&& self.meta.kind == FileKind::Dir || {
            &&& !excluded(name, text::opt_view(self.parent_name))
            &&& text::has_suffix(name, ".pack"@) ==> self.has_idx
            &&& self.included
        }
    }

    fn is_kept(&self) -> (r: bool)
        ensures
            r == self.kept(),
    {
        if !is_capturable_type(self.meta.kind) {
            return false;
        }
        if self.meta.kind == FileKind::Dir {
            return true;
        }
        let name: &str = paths::name_of(self.rel.as_str());
        let parent: Option<&str> = match &self.parent_name {
            Some(p) => Some(p.as_str()),
            None => None,
        };
        if is_excluded_name(name, parent) {
            return false;
        }
        if text::ends_with(name, ".pack") && !self.has_idx {
            return false;
        }
        self.included
    }
}

/// The set of paths a class captures, keyed by virtual path (`/`-separated, relative to the
/// class root), directories included.
pub struct Listing {
    /// Entries.
    pub entries: SortedMap<String, Meta>,
}

/// Those of the pieces between slashes that are not empty.
pub open spec fn names_of(all: Seq<Seq<char>>) -> Seq<Seq<char>> {
    all.filter(|s: Seq<char>| s.len() > 0)
}

/// The names on the way from `base` to `v`.
pub open spec fn way(v: Seq<char>, base: Seq<char>) -> Seq<Seq<char>> {
    names_of(text::pieces(v.skip(base.len() as int), '/'))
}

/// The path that the first `i` names on the way from `base` to `v` lead to.
pub open spec fn rung(v: Seq<char>, base: Seq<char>, i: int) -> Seq<char> {
    paths::joined(base, paths::slashed(way(v, base).take(i)))
}

/// Whether the first `i` names on the way have led to `v` already.
pub open spec fn is_reached(v: Seq<char>, base: Seq<char>, i: int) -> bool {
    exists|j: int| 0 < j <= i && #[trigger] rung(v, base, j) == v
}

/// Whether `a` lies on the way from `base` down to `v`, short of both. There is none where `v` does
/// not begin with `base`.
pub open spec fn is_ancestor(a: Seq<char>, v: Seq<char>, base: Seq<char>) -> bool {
    text::has_prefix(v, base) && exists|i: int|
        0 < i <= way(v, base).len() && a == #[trigger] rung(v, base, i) && !is_reached(v, base, i)
}

/// The names on the way from `base` to `v`.
fn names_below(v: &str, base: usize) -> (r: Vec<String>)
    requires
        base <= v@.len(),
    ensures
        order::views(r@) == names_of(text::pieces(v@.skip(base as int), '/')),
{
    let rest: &str = v.substring_char(base, v.unicode_len());
    assert(rest@ =~= v@.skip(base as int));
    let all: Vec<String> = text::split(rest, '/');
    let ghost vs = order::views(all@);
    let mut out: Vec<String> = Vec::new();
    let mut i: usize = 0;
    proof {
        reveal(Seq::filter);
        assert(vs.take(0) =~= Seq::empty());
        assert(order::views(out@) =~= names_of(vs.take(0)));
    }
    while i < all.len()
        invariant
            0 <= i <= all@.len(),
            vs == order::views(all@),
            order::views(out@) == names_of(vs.take(i as int)),
        decreases all@.len() - i,
    {
        proof {
            let t = vs.take(i + 1);
            assert(t.drop_last() =~= vs.take(i as int));
            assert(t.last() == all@[i as int]@);
            reveal(Seq::filter);
        }
        if all[i].as_str().unicode_len() > 0 {
            let ghost before = order::views(out@);
            out.push(all[i].clone());
            assert(order::views(out@) =~= before.push(all@[i as int]@));
        }
        i = i + 1;
    }
    assert(vs.take(vs.len() as int) =~= vs);
    out
}

/// What lies on the way to a virtual path is a virtual path.
proof fn lemma_rung_is_virtual(v: Seq<char>, base: Seq<char>, i: int)
    requires
        paths::is_virtual(v),
        text::has_prefix(v, base),
        0 < i <= way(v, base).len(),
    ensures
        paths::is_virtual(rung(v, base, i)),
{
    let names = way(v, base);
    let part = names.take(i);
    let all = text::pieces(v.skip(base.len() as int), '/');
    lemma_names(all);
    assert(names[0].len() > 0);
    lemma_slashed_begins(part);
    if base.len() > 0 {
        assert(v.take(base.len() as int) == base);
        assert(base[0] == v[0]);
        assert(rung(v, base, i)[0] == base[0]);
    } else {
        assert(v.skip(0) =~= v);
        text::lemma_pieces_lack(v, '/');
        let k = choose|k: int| 0 <= k < all.len() && all[k] == names[0];
        assert(!all[k].contains('/'));
        assert(names[0].contains(names[0][0]));
    }
}

/// Whether one of the first `i` names on the way leads to `a`.
spec fn is_rung(a: Seq<char>, v: Seq<char>, base: Seq<char>, i: int) -> bool {
    exists|j: int| 0 < j <= i && a == #[trigger] rung(v, base, j)
}

/// Where the first `i` names do not lead to `v`, and the next one does or there is none, they are
/// all that lie short of it.
proof fn lemma_rungs(a: Seq<char>, v: Seq<char>, base: Seq<char>, i: int)
    requires
        text::has_prefix(v, base),
        0 <= i <= way(v, base).len(),
        !is_reached(v, base, i),
        i == way(v, base).len() || rung(v, base, i + 1) == v,
    ensures
        is_ancestor(a, v, base) <==> is_rung(a, v, base, i),
{
    if is_ancestor(a, v, base) {
        let j = choose|j: int|
            0 < j <= way(v, base).len() && a == #[trigger] rung(v, base, j) && !is_reached(
                v,
                base,
                j,
            );
        if j > i {
            assert(0 < i + 1 <= j && rung(v, base, i + 1) == v);
        }
        assert(0 < j <= i && a == rung(v, base, j));
    }
    if is_rung(a, v, base, i) {
        let j = choose|j: int| 0 < j <= i && a == #[trigger] rung(v, base, j);
        if is_reached(v, base, j) {
            let k = choose|k: int| 0 < k <= j && #[trigger] rung(v, base, k) == v;
            assert(0 < k <= i && rung(v, base, k) == v);
        }
        assert(0 < j <= way(v, base).len() && a == rung(v, base, j) && !is_reached(v, base, j));
    }
}

proof fn lemma_names(all: Seq<Seq<char>>)
    ensures
        forall|i: int|
            0 <= i < names_of(all).len() ==> (#[trigger] names_of(all)[i]).len() > 0
                && all.contains(names_of(all)[i]),
    decreases all.len(),
{
    reveal(Seq::filter);
    if all.len() > 0 {
        let front = all.drop_last();
        lemma_names(front);
        assert forall|i: int| 0 <= i < names_of(all).len() implies (
        #[trigger] names_of(all)[i]).len() > 0 && all.contains(names_of(all)[i]) by {
            if i < names_of(front).len() {
                let x = names_of(front)[i];
                assert(names_of(all)[i] == x);
                let k = choose|k: int| 0 <= k < front.len() && front[k] == x;
                assert(all[k] == x);
            } else {
                assert(names_of(all)[i] == all[all.len() - 1]);
            }
        }
    }
}

proof fn lemma_slashed_begins(parts: Seq<Seq<char>>)
    requires
        parts.len() > 0,
        parts[0].len() > 0,
    ensures
        paths::slashed(parts).len() > 0,
        paths::slashed(parts)[0] == parts[0][0],
    decreases parts.len(),
{
    if parts.len() > 1 {
        lemma_slashed_begins(parts.drop_last());
    }
}

/// The entries with every directory above `v` and below `base` that lstat knows.
pub open spec fn with_ancestors(
    m: Map<Seq<char>, Meta>,
    v: Seq<char>,
    base: Seq<char>,
    above: Map<Seq<char>, Meta>,
) -> Map<Seq<char>, Meta> {
    Map::new(
        |a: Seq<char>| m.dom().contains(a) || is_ancestor(a, v, base) && above.dom().contains(a),
        |a: Seq<char>|
            if m.dom().contains(a) {
                m[a]
            } else {
                above[a]
            },
    )
}

/// The entries after one more found entry: the first mount of a path wins.
pub open spec fn with_found(
    m: Map<Seq<char>, Meta>,
    prefix: Seq<char>,
    f: Found,
    above: Map<Seq<char>, Meta>,
) -> Map<Seq<char>, Meta> {
    let v = paths::joined(prefix, f.rel@);
    if f.kept() && !m.dom().contains(v) {
        with_ancestors(m, v, prefix, above).insert(v, f.meta)
    } else {
        m
    }
}

/// The entries after all found entries, in order.
pub open spec fn with_all_found(
    m: Map<Seq<char>, Meta>,
    prefix: Seq<char>,
    found: Seq<Found>,
    above: Map<Seq<char>, Meta>,
) -> Map<Seq<char>, Meta>
    decreases found.len(),
{
    if found.len() == 0 {
        m
    } else {
        with_found(
            with_all_found(m, prefix, found.drop_last(), above),
            prefix,
            found.last(),
            above,
        )
    }
}

/// The entries after a directory is mounted.
pub open spec fn with_mount(
    m: Map<Seq<char>, Meta>,
    prefix: Seq<char>,
    root: Option<Meta>,
    found: Seq<Found>,
    above: Map<Seq<char>, Meta>,
) -> Map<Seq<char>, Meta> {
    match root {
        Some(meta) => if meta.kind == FileKind::Dir {
            let base = if prefix.len() > 0 && !m.dom().contains(prefix) {
                m.insert(prefix, meta)
            } else {
                m
            };
            with_all_found(base, prefix, found, above)
        } else {
            m
        },
        None => m,
    }
}

impl Listing {
    /// Whether the paths are in order and lie below the class root.
    pub open spec fn wf(&self) -> bool {
        &&& self.entries.wf()
        &&& forall|v: Seq<char>| #[trigger] self.entries@.dom().contains(v) ==> paths::is_virtual(v)
    }

    /// An empty listing.
    pub fn new() -> (r: Self)
        ensures
            r.wf(),
            r.entries@ == Map::<Seq<char>, Meta>::empty(),
    {
        Listing { entries: SortedMap::new() }
    }

    /// Number of entries.
    pub fn len(&self) -> (r: usize)
        ensures
            r == self.entries.keys@.len(),
    {
        self.entries.len()
    }

    /// Whether the listing is empty.
    pub fn is_empty(&self) -> (r: bool)
        ensures
            r == (self.entries.keys@.len() == 0),
    {
        self.entries.len() == 0
    }

    /// Make sure every ancestor of `virtual_path` below `virtual_base` is present, as far as
    /// lstat (`above`) knows it.
    fn ensure_ancestors(
        &mut self,
        virtual_path: &str,
        virtual_base: &str,
        above: &SortedMap<String, Meta>,
    )
        requires
            old(self).wf(),
            above.wf(),
            paths::is_virtual(virtual_path@),
        ensures
            final(self).wf(),
            final(self).entries@ == with_ancestors(
                old(self).entries@,
                virtual_path@,
                virtual_base@,
                above@,
            ),
    {
        let ghost m = self.entries@;
        let ghost (v, base) = (virtual_path@, virtual_base@);
        if !text::starts_with(virtual_path, virtual_base) {
            assert(self.entries@ =~= with_ancestors(m, v, base, above@));
            return;
        }
        let names: Vec<String> = names_below(virtual_path, virtual_base.unicode_len());
        let ghost nv = order::views(names@);
        let mut acc: String = String::new();
        let mut i: usize = 0;
        assert(nv.take(0) =~= Seq::empty());
        assert(nv == way(v, base));
        while i < names.len()
            invariant
                0 <= i <= names@.len(),
                v == virtual_path@,
                base == virtual_base@,
                nv == order::views(names@),
                nv == way(v, base),
                acc@ == paths::slashed(nv.take(i as int)),
                text::has_prefix(v, base),
                paths::is_virtual(v),
                above.wf(),
                self.wf(),
                m == old(self).entries@,
                !is_reached(v, base, i as int),
                forall|a: Seq<char>| #[trigger]
                    self.entries@.dom().contains(a) <==> m.dom().contains(a) || is_rung(
                        a,
                        v,
                        base,
                        i as int,
                    ) && above@.dom().contains(a),
                forall|a: Seq<char>| #[trigger]
                    self.entries@.dom().contains(a) ==> self.entries@[a] == if m.dom().contains(
                        a,
                    ) {
                        m[a]
                    } else {
                        above@[a]
                    },
            decreases names@.len() - i,
        {
            let ghost before = self.entries@;
            proof {
                let t = nv.take(i + 1);
                assert(t.drop_last() =~= nv.take(i as int));
                assert(t.last() == names@[i as int]@);
                lemma_names(text::pieces(v.skip(base.len() as int), '/'));
                if i > 0 {
                    lemma_slashed_begins(nv.take(i as int));
                }
            }
            acc = paths::join_virtual(acc.as_str(), names[i].as_str());
            assert(acc@ =~= paths::slashed(nv.take(i + 1)));
            let a: String = paths::join_virtual(virtual_base, acc.as_str());
            assert(a@ == rung(v, base, i + 1));
            if text::str_eq(a.as_str(), virtual_path) {
                proof {
                    let goal = with_ancestors(m, v, base, above@);
                    assert forall|x: Seq<char>| #[trigger]
                        self.entries@.dom().contains(x) <==> goal.dom().contains(x) by {
                        lemma_rungs(x, v, base, i as int);
                    }
                    assert(self.entries@ =~= goal);
                }
                return;
            }
            if !self.entries.contains(&a) {
                match above.get(&a) {
                    Some(meta) => {
                        proof {
                            lemma_rung_is_virtual(v, base, i + 1);
                        }
                        let earlier: Option<Meta> = self.entries.insert(a, *meta);
                    },
                    None => {},
                }
            }
            proof {
                assert(!is_reached(v, base, i + 1)) by {
                    if is_reached(v, base, i + 1) {
                        let j = choose|j: int| 0 < j <= i + 1 && #[trigger] rung(v, base, j) == v;
                        assert(j <= i);
                        assert(is_reached(v, base, i as int));
                    }
                }
                assert forall|x: Seq<char>| #[trigger] is_rung(x, v, base, i + 1) <==> is_rung(
                    x,
                    v,
                    base,
                    i as int,
                ) || x == rung(v, base, i + 1) by {
                    if is_rung(x, v, base, i as int) {
                        let j = choose|j: int| 0 < j <= i && x == #[trigger] rung(v, base, j);
                        assert(0 < j <= i + 1 && x == rung(v, base, j));
                    }
                    if is_rung(x, v, base, i + 1) && x != rung(v, base, i + 1) {
                        let j = choose|j: int| 0 < j <= i + 1 && x == #[trigger] rung(v, base, j);
                        assert(0 < j <= i && x == rung(v, base, j));
                    }
                }
            }
            i = i + 1;
        }
        proof {
            let goal = with_ancestors(m, v, base, above@);
            assert forall|x: Seq<char>| #[trigger]
                self.entries@.dom().contains(x) <==> goal.dom().contains(x) by {
                lemma_rungs(x, v, base, i as int);
            }
            assert(self.entries@ =~= goal);
        }
    }

    /// Mount a directory at `virtual_prefix`: `root` is what lstat says of it, `found` what a
    /// full walk found below it in the order of the walk, `above` what lstat says of the
    /// directories in between. Exclusions from [`is_excluded_name`], uncapturable types and
    /// `.pack` files without their `.idx` are applied here. Entries already present are not
    /// overwritten (the first mount wins, so overlays are expressed by mount order).
    pub fn mount(
        &mut self,
        virtual_prefix: &str,
        root: Option<Meta>,
        found: &Vec<Found>,
        above: &SortedMap<String, Meta>,
    )
        requires
            old(self).wf(),
            above.wf(),
            virtual_prefix@.len() > 0 ==> paths::is_virtual(virtual_prefix@),
            forall|i: int| 0 <= i < found@.len() ==> paths::is_virtual(#[trigger] found@[i].rel@),
        ensures
            final(self).wf(),
            final(self).entries@ == with_mount(
                old(self).entries@,
                virtual_prefix@,
                root,
                found@,
                above@,
            ),
    {
        let meta: Meta = match root {
            Some(m) => m,
            None => {
                return;
            },
        };
        if meta.kind != FileKind::Dir {
            return;
        }
        let prefix: String = virtual_prefix.to_owned();
        if !virtual_prefix.is_empty() && !self.entries.contains(&prefix) {
            let earlier: Option<Meta> = self.entries.insert(prefix, meta);
        }
        let ghost base = self.entries@;
        let mut i: usize = 0;
        assert(found@.take(0) =~= Seq::empty());
        while i < found.len()
            invariant
                0 <= i <= found@.len(),
                self.wf(),
                above.wf(),
                virtual_prefix@.len() > 0 ==> paths::is_virtual(virtual_prefix@),
                forall|j: int|
                    0 <= j < found@.len() ==> paths::is_virtual(#[trigger] found@[j].rel@),
                self.entries@ == with_all_found(
                    base,
                    virtual_prefix@,
                    found@.take(i as int),
                    above@,
                ),
            decreases found@.len() - i,
        {
            let f: &Found = &found[i];
            proof {
                let t = found@.take(i + 1);
                assert(t.drop_last() =~= found@.take(i as int));
                assert(t.last() == found@[i as int]);
                assert(paths::is_virtual(found@[i as int].rel@));
            }
            if f.is_kept() {
                let v: String = paths::join_virtual(virtual_prefix, f.rel.as_str());
                if !self.entries.contains(&v) {
                    self.ensure_ancestors(v.as_str(), virtual_prefix, above);
                    let earlier: Option<Meta> = self.entries.insert(v, f.meta);
                }
            }
            i = i + 1;
        }
        assert(found@.take(found@.len() as int) =~= found@);
    }

    /// Mount a single file at `virtual_path`: `meta` is what lstat says of it.
    pub fn mount_file(
        &mut self,
        virtual_path: &str,
        virtual_base: &str,
        meta: Option<Meta>,
        name: &str,
        parent_name: Option<&str>,
        above: &SortedMap<String, Meta>,
    )
        requires
            old(self).wf(),
            above.wf(),
            paths::is_virtual(virtual_path@),
        ensures
            final(self).wf(),
            final(self).entries@ == match meta {
                Some(m) => if m.kind != FileKind::Other && !old(self).entries@.dom().contains(
                    virtual_path@,
                ) && !excluded(
                    name@,
                    match parent_name {
                        Some(p) => Some(p@),
                        None => None,
                    },
                ) {
                    with_ancestors(old(self).entries@, virtual_path@, virtual_base@, above@).insert(
                        virtual_path@,
                        m,
                    )
                } else {
                    old(self).entries@
                },
                None => old(self).entries@,
            },
    {
        let m: Meta = match meta {
            Some(m) => m,
            None => {
                return;
            },
        };
        let v: String = virtual_path.to_owned();
        if !is_capturable_type(m.kind) || self.entries.contains(&v) {
            return;
        }
        if is_excluded_name(name, parent_name) {
            return;
        }
        self.ensure_ancestors(virtual_path, virtual_base, above);
        let earlier: Option<Meta> = self.entries.insert(v, m);
    }
}

/// Whether any component of a relative path is in `names`; `..` is no name.
pub open spec fn component_in(rel: Seq<Seq<char>>, names: Seq<String>) -> bool {
    exists|i: int| 0 <= i < rel.len() && #[trigger] rel[i] != ".."@ && text::among(names, rel[i])
}

/// Whether any component of a relative path is in `names`.
pub fn has_component_in(rel: &Vec<String>, names: &Vec<String>) -> (r: bool)
    ensures
        r == component_in(order::views(rel@), names@),
{
    let mut i: usize = 0;
    while i < rel.len()
        invariant
            0 <= i <= rel@.len(),
            forall|j: int|
                0 <= j < i ==> !((#[trigger] order::views(rel@)[j]) != ".."@ && text::among(
                    names@,
                    order::views(rel@)[j],
                )),
        decreases rel@.len() - i,
    {
        assert(order::views(rel@)[i as int] == rel@[i as int]@);
        if !text::str_eq(rel[i].as_str(), "..") && text::contains(names, rel[i].as_str()) {
            return true;
        }
        i = i + 1;
    }
    false
}

/// No listing gains an entry that is always excluded: whatever a mount adds and is not a
/// directory has a name that is not.
pub proof fn law_a_mount_never_lists_an_excluded_file(
    m: Map<Seq<char>, Meta>,
    prefix: Seq<char>,
    f: Found,
    above: Map<Seq<char>, Meta>,
)
    requires
        f.meta.kind != FileKind::Dir,
        excluded(paths::name(f.rel@), text::opt_view(f.parent_name)),
    ensures
        with_found(m, prefix, f, above) == m,
{
}

/// A path that is listed keeps its metadata whatever is mounted later.
pub proof fn law_the_first_mount_wins(
    m: Map<Seq<char>, Meta>,
    prefix: Seq<char>,
    root: Option<Meta>,
    found: Seq<Found>,
    above: Map<Seq<char>, Meta>,
    v: Seq<char>,
)
    requires
        m.dom().contains(v),
    ensures
        with_mount(m, prefix, root, found, above).dom().contains(v),
        with_mount(m, prefix, root, found, above)[v] == m[v],
{
    match root {
        Some(meta) => {
            if meta.kind == FileKind::Dir {
                let base = if prefix.len() > 0 && !m.dom().contains(prefix) {
                    m.insert(prefix, meta)
                } else {
                    m
                };
                lemma_found_keep(base, prefix, found, above, v);
            }
        },
        None => {},
    }
}

proof fn lemma_found_keep(
    m: Map<Seq<char>, Meta>,
    prefix: Seq<char>,
    found: Seq<Found>,
    above: Map<Seq<char>, Meta>,
    v: Seq<char>,
)
    requires
        m.dom().contains(v),
    ensures
        with_all_found(m, prefix, found, above).dom().contains(v),
        with_all_found(m, prefix, found, above)[v] == m[v],
    decreases found.len(),
{
    if found.len() > 0 {
        lemma_found_keep(m, prefix, found.drop_last(), above, v);
    }
}

/// What is never captured by its name: lock files, pid files and SQLite's `-shm`, whatever they are
/// called otherwise, and git's temporary objects; and nothing else.
pub proof fn law_only_transient_names_are_excluded(
    name: &str,
    parent: Option<&str>,
    r: bool,
    stem: Seq<char>,
)
    requires
        call_ensures(is_excluded_name, (name, parent), r),
    ensures
        name@ == stem + ".lock"@ ==> r,
        name@ == stem + ".pid"@ ==> r,
        name@ == stem + "-shm"@ ==> r,
        name@ == "gc.pid"@ ==> r,
        parent is Some && parent->0@ == "objects"@ && (name@ == "tmp_"@ + stem || name@
            == "incoming-"@ + stem) ==> r,
        r ==> {
            ||| text::has_suffix(name@, ".lock"@)
            ||| text::has_suffix(name@, ".pid"@)
            ||| text::has_suffix(name@, "-shm"@)
            ||| parent is Some && parent->0@ == "objects"@ && (text::has_prefix(name@, "tmp_"@)
                || text::has_prefix(name@, "incoming-"@))
        },
{
    let n = name@;
    if n == stem + ".lock"@ {
        assert(n.skip(n.len() - ".lock"@.len()) =~= ".lock"@);
    }
    if n == stem + ".pid"@ {
        assert(n.skip(n.len() - ".pid"@.len()) =~= ".pid"@);
    }
    if n == stem + "-shm"@ {
        assert(n.skip(n.len() - "-shm"@.len()) =~= "-shm"@);
    }
    if n == "tmp_"@ + stem {
        assert(n.take("tmp_"@.len() as int) =~= "tmp_"@);
    }
    if n == "incoming-"@ + stem {
        assert(n.take("incoming-"@.len() as int) =~= "incoming-"@);
    }
    if n == "gc.pid"@ {
        reveal_strlit("gc.pid");
        reveal_strlit(".pid");
        assert(n.skip(n.len() - ".pid"@.len()) =~= ".pid"@);
    }
}

/// A modification time is nanoseconds, exact wherever they can be told.
pub proof fn law_times_are_exact_in_range(secs: i64, nsec: i64, r: i64)
    requires
        call_ensures(mtime_ns, (secs, nsec), r),
        i64::MIN <= secs * 1_000_000_000 <= i64::MAX,
        i64::MIN <= secs * 1_000_000_000 + nsec <= i64::MAX,
    ensures
        r == secs * 1_000_000_000 + nsec,
{
}

/// Whether a relative path goes through one of some directories: just if one of its components has
/// such a name.
pub proof fn law_a_path_goes_through_its_components(
    rel: Vec<String>,
    names: Vec<String>,
    r: bool,
    i: int,
    j: int,
)
    requires
        call_ensures(has_component_in, (&rel, &names), r),
    ensures
        0 <= i < rel@.len() && 0 <= j < names@.len() && rel@[i]@ == names@[j]@ && rel@[i]@ != ".."@
            ==> r,
        r ==> exists|a: int, b: int|
            0 <= a < rel@.len() && 0 <= b < names@.len() && (#[trigger] rel@[a])@ == (
            #[trigger] names@[b])@,
{
    let rv = order::views(rel@);
    assert(rv.len() == rel@.len());
    if 0 <= i < rel@.len() && 0 <= j < names@.len() && rel@[i]@ == names@[j]@ && rel@[i]@ != ".."@ {
        assert(rv[i] == rel@[i]@);
        assert(text::among(names@, rv[i]));
        assert(component_in(rv, names@));
    }
    if r {
        let a = choose|a: int|
            0 <= a < rv.len() && #[trigger] rv[a] != ".."@ && text::among(names@, rv[a]);
        let b = choose|b: int| 0 <= b < names@.len() && #[trigger] names@[b]@ == rv[a];
        assert(rel@[a]@ == names@[b]@);
    }
}

/// A mount lists all that was found in it and may be captured, under the mount's prefix, and its
/// root; nothing that was listed before is lost or changed, and nothing else comes in but
/// directories above what was found.
pub proof fn law_a_mount_lists_what_it_found(
    listing: &mut Listing,
    prefix: &str,
    root: Meta,
    found: Vec<Found>,
    above: SortedMap<String, Meta>,
    i: int,
    v: Seq<char>,
)
    requires
        old(listing).wf(),
        above.wf(),
        root.kind == FileKind::Dir,
        call_ensures(Listing::mount, (listing, prefix, Some(root), &found, &above), ()),
    ensures
        old(listing).entries@.dom().contains(v) ==> final(listing).entries@.dom().contains(v)
            && final(listing).entries@[v] == old(listing).entries@[v],
        prefix@.len() > 0 ==> final(listing).entries@.dom().contains(prefix@),
        0 <= i < found@.len() && found@[i].meta.kind == FileKind::Dir ==> final(listing).entries@.dom().contains(paths::joined(prefix@, found@[i].rel@)),
        0 <= i < found@.len() && (found@[i].meta.kind == FileKind::File || found@[i].meta.kind
            == FileKind::Symlink) && found@[i].included && !excluded(
            paths::name(found@[i].rel@),
            text::opt_view(found@[i].parent_name),
        ) && (!text::has_suffix(paths::name(found@[i].rel@), ".pack"@) || found@[i].has_idx)
            ==> final(listing).entries@.dom().contains(paths::joined(prefix@, found@[i].rel@)),
        final(listing).entries@.dom().contains(v) && !old(listing).entries@.dom().contains(v) ==> v
            == prefix@ || above@.dom().contains(v) || exists|k: int|
            0 <= k < found@.len() && v == paths::joined(
                prefix@,
                (#[trigger] found@[k]).rel@,
            ) && found@[k].meta.kind != FileKind::Other && (found@[k].meta.kind == FileKind::Dir
                || found@[k].included && !excluded(
                paths::name(found@[k].rel@),
                text::opt_view(found@[k].parent_name),
            )),
{
    let m = old(listing).entries@;
    let base = if prefix@.len() > 0 && !m.dom().contains(prefix@) {
        m.insert(prefix@, root)
    } else {
        m
    };
    lemma_all_found(base, prefix@, found@, above@);
    let all = with_all_found(base, prefix@, found@, above@);
    assert(final(listing).entries@ == all);
    if m.dom().contains(v) {
        assert(base.dom().contains(v));
    }
    if prefix@.len() > 0 {
        assert(base.dom().contains(prefix@));
    }
    if 0 <= i < found@.len() && found@[i].kept() {
        assert(all.dom().contains(paths::joined(prefix@, found@[i].rel@)));
    }
    if all.dom().contains(v) && !m.dom().contains(v) && v != prefix@ && !above@.dom().contains(v) {
        assert(!base.dom().contains(v));
        let k = choose|k: int|
            0 <= k < found@.len() && (#[trigger] found@[k]).kept() && v == paths::joined(
                prefix@,
                found@[k].rel@,
            );
        assert(v == paths::joined(prefix@, found@[k].rel@));
    }
}

proof fn lemma_all_found(
    m: Map<Seq<char>, Meta>,
    prefix: Seq<char>,
    found: Seq<Found>,
    above: Map<Seq<char>, Meta>,
)
    ensures
        ({
            let all = with_all_found(m, prefix, found, above);
            &&& forall|v: Seq<char>| #[trigger]
                m.dom().contains(v) ==> all.dom().contains(v) && all[v] == m[v]
            &&& forall|i: int|
                0 <= i < found.len() && (#[trigger] found[i]).kept() ==> all.dom().contains(
                    paths::joined(prefix, found[i].rel@),
                )
            &&& forall|v: Seq<char>| #[trigger]
                all.dom().contains(v) && !m.dom().contains(v) ==> above.dom().contains(v)
                    || exists|k: int|
                    0 <= k < found.len() && (#[trigger] found[k]).kept() && v == paths::joined(
                        prefix,
                        found[k].rel@,
                    )
        }),
    decreases found.len(),
{
    if found.len() > 0 {
        let head = found.drop_last();
        lemma_all_found(m, prefix, head, above);
        let front = with_all_found(m, prefix, head, above);
        let all = with_all_found(m, prefix, found, above);
        let x = paths::joined(prefix, found.last().rel@);
        assert forall|v: Seq<char>| #[trigger] front.dom().contains(v) implies all.dom().contains(v)
            && all[v] == front[v] by {}
        assert forall|i: int| 0 <= i < found.len() && (
        #[trigger] found[i]).kept() implies all.dom().contains(
            paths::joined(prefix, found[i].rel@),
        ) by {
            if i < head.len() {
                assert(head[i] == found[i]);
                assert(front.dom().contains(paths::joined(prefix, found[i].rel@)));
            } else {
                assert(found[i] == found.last());
            }
        }
        assert forall|v: Seq<char>| #[trigger]
            all.dom().contains(v) && !m.dom().contains(v) implies above.dom().contains(v) || exists|
            k: int,
        |
            0 <= k < found.len() && (#[trigger] found[k]).kept() && v == paths::joined(
                prefix,
                found[k].rel@,
            ) by {
            if front.dom().contains(v) {
                if !above.dom().contains(v) {
                    let k = choose|k: int|
                        0 <= k < head.len() && (#[trigger] head[k]).kept() && v == paths::joined(
                            prefix,
                            head[k].rel@,
                        );
                    assert(found[k] == head[k]);
                }
            } else if v == x {
                assert(found[found.len() - 1] == found.last());
            }
        }
    }
}

/// A file mounted by itself is listed if it may be captured, with the directories above it up to its
/// base that are known, and loses nothing that was listed.
pub proof fn law_a_mounted_file_is_listed(
    listing: &mut Listing,
    path: &str,
    base: &str,
    meta: Meta,
    name: &str,
    parent: Option<&str>,
    above: SortedMap<String, Meta>,
    by_name: bool,
    v: Seq<char>,
)
    requires
        old(listing).wf(),
        above.wf(),
        call_ensures(is_excluded_name, (name, parent), by_name),
        call_ensures(
            Listing::mount_file,
            (listing, path, base, Some(meta), name, parent, &above),
            (),
        ),
    ensures
        !by_name && meta.kind != FileKind::Other ==> final(listing).entries@.dom().contains(path@),
        !by_name && meta.kind != FileKind::Other && !old(listing).entries@.dom().contains(path@)
            ==> final(listing).entries@[path@] == meta,
        by_name || meta.kind == FileKind::Other ==> final(listing).entries@ == old(listing).entries@,
        old(listing).entries@.dom().contains(v) ==> final(listing).entries@.dom().contains(v)
            && final(listing).entries@[v] == old(listing).entries@[v],
        final(listing).entries@.dom().contains(v) && !old(listing).entries@.dom().contains(v) ==> v
            == path@ || above@.dom().contains(v) && text::has_prefix(path@, base@),
{
}

/// Only files, directories and symlinks are captured.
pub proof fn law_special_files_are_not_captured(kind: FileKind, r: bool)
    requires
        call_ensures(is_capturable_type, (kind,), r),
    ensures
        kind == FileKind::File || kind == FileKind::Dir || kind == FileKind::Symlink ==> r,
        kind == FileKind::Other ==> !r,
{
}

/// A copy of an index knows the same files.
pub proof fn law_a_copied_index_knows_the_same(index: TreeIndex, r: TreeIndex, i: int)
    requires
        index.wf(),
        call_ensures(TreeIndex::copy, (&index,), r),
        0 <= i < index.files.keys@.len(),
    ensures
        r.files.keys@ == index.files.keys@,
        r.files.values@[i].stat == index.files.values@[i].stat,
        r.files.values@[i].chunks@ == index.files.values@[i].chunks@,
{
    assert(index.files.values@[i].stat == r.files.values@[i].stat);
}

/// A pack without its index is not listed, nor anything that the class does not take in; what is
/// neither is listed as it was found, if nothing was listed there.
pub proof fn law_a_pack_is_listed_with_its_index(
    listing: &mut Listing,
    prefix: &str,
    root: Meta,
    found: Vec<Found>,
    one: Found,
    above: SortedMap<String, Meta>,
)
    requires
        old(listing).wf(),
        above.wf(),
        root.kind == FileKind::Dir,
        found@ == seq![one],
        one.meta.kind == FileKind::File,
        !above@.dom().contains(paths::joined(prefix@, one.rel@)),
        paths::joined(prefix@, one.rel@) != prefix@,
        !old(listing).entries@.dom().contains(paths::joined(prefix@, one.rel@)),
        call_ensures(Listing::mount, (listing, prefix, Some(root), &found, &above), ()),
    ensures
        text::has_suffix(paths::name(one.rel@), ".pack"@) && !one.has_idx ==> !final(listing).entries@.dom().contains(paths::joined(prefix@, one.rel@)),
        !one.included ==> !final(listing).entries@.dom().contains(
            paths::joined(prefix@, one.rel@),
        ),
        one.included && !excluded(paths::name(one.rel@), text::opt_view(one.parent_name)) && (
        !text::has_suffix(paths::name(one.rel@), ".pack"@) || one.has_idx) ==> final(listing).entries@.dom().contains(paths::joined(prefix@, one.rel@)) && final(listing).entries@[paths::joined(prefix@, one.rel@)] == one.meta,
{
    let m = old(listing).entries@;
    let base = if prefix@.len() > 0 && !m.dom().contains(prefix@) {
        m.insert(prefix@, root)
    } else {
        m
    };
    assert(found@.drop_last() =~= Seq::empty());
    assert(found@.last() == one);
    assert(with_all_found(base, prefix@, Seq::empty(), above@) == base);
    assert(with_all_found(base, prefix@, found@, above@) == with_found(
        base,
        prefix@,
        one,
        above@,
    ));
}

/// The directories that are bulk unless the configuration says otherwise.
pub proof fn law_dependencies_and_build_outputs_are_bulk(r: Vec<String>)
    requires
        call_ensures(default_bulk_dirs, (), r),
    ensures
        r@.len() == 9,
        text::among(r@, "node_modules"@) && text::among(r@, "dist"@) && text::among(r@, "build"@)
            && text::among(r@, "target"@) && text::among(r@, ".turbo"@) && text::among(
            r@,
            ".next"@,
        ) && text::among(r@, ".output"@) && text::among(r@, ".cache"@) && text::among(
            r@,
            "coverage"@,
        ),
{
    let rv = order::views(r@);
    assert(rv.len() == r@.len());
    assert forall|i: int| 0 <= i < r@.len() implies text::among(r@, #[trigger] rv[i]) by {
        assert(rv[i] == r@[i]@);
        assert(r@[i]@ == rv[i]);
    }
    assert(rv[0] == "node_modules"@ && rv[1] == "dist"@ && rv[2] == "build"@ && rv[3] == "target"@
        && rv[4] == ".turbo"@ && rv[5] == ".next"@ && rv[6] == ".output"@ && rv[7] == ".cache"@
        && rv[8] == "coverage"@);
}

} // verus!
