//! Paths on disk as sequences of components, and the `/`-separated virtual paths of a class.

use vstd::prelude::*;
use vstd::string::*;
use crate::order;
use crate::text;

verus! {

/// A path on disk: its components, without the empty and the `.` ones.
#[derive(Debug)]
pub struct FsPath {
    /// Whether the path starts at the root of the file system.
    pub absolute: bool,
    /// The components.
    pub parts: Vec<String>,
}

/// What a path stands for.
pub struct PathModel {
    /// Whether the path starts at the root of the file system.
    pub absolute: bool,
    /// The components.
    pub parts: Seq<Seq<char>>,
}

impl View for FsPath {
    type V = PathModel;

    open spec fn view(&self) -> PathModel {
        PathModel { absolute: self.absolute, parts: order::views(self.parts@) }
    }
}

/// Whether a piece of text between slashes is a component: not empty and not `.`.
pub open spec fn is_component(s: Seq<char>) -> bool {
    s.len() > 0 && s != "."@
}

/// The components of a text.
pub open spec fn components(s: Seq<char>) -> Seq<Seq<char>> {
    text::pieces(s, '/').filter(|p: Seq<char>| is_component(p))
}

/// The components of a text.
pub fn components_of(s: &str) -> (r: Vec<String>)
    ensures
        order::views(r@) == components(s@),
{
    let all: Vec<String> = text::split(s, '/');
    let mut out: Vec<String> = Vec::new();
    let ghost f = |p: Seq<char>| is_component(p);
    let mut i: usize = 0;
    assert(order::views(all@).take(0).filter(f) =~= Seq::empty()) by {
        reveal(Seq::filter);
    }
    while i < all.len()
        invariant
            0 <= i <= all@.len(),
            f == (|p: Seq<char>| is_component(p)),
            order::views(out@) == order::views(all@).take(i as int).filter(f),
        decreases all@.len() - i,
    {
        proof {
            let t = order::views(all@).take(i + 1);
            assert(t.drop_last() =~= order::views(all@).take(i as int));
            assert(t.last() == all@[i as int]@);
            reveal(Seq::filter);
        }
        let n: usize = all[i].as_str().unicode_len();
        if n > 0 && !text::str_eq(all[i].as_str(), ".") {
            let ghost before = order::views(out@);
            out.push(all[i].clone());
            assert(order::views(out@) =~= before.push(all@[i as int]@));
        }
        i = i + 1;
    }
    assert(order::views(all@).take(all@.len() as int) =~= order::views(all@));
    out
}

/// Components with a slash between each two.
pub open spec fn slashed(parts: Seq<Seq<char>>) -> Seq<char>
    decreases parts.len(),
{
    if parts.len() == 0 {
        Seq::empty()
    } else if parts.len() == 1 {
        parts[0]
    } else {
        slashed(parts.drop_last()) + "/"@ + parts.last()
    }
}

impl PathModel {
    /// The text of the path.
    pub open spec fn written(self) -> Seq<char> {
        if self.absolute {
            "/"@ + slashed(self.parts)
        } else {
            slashed(self.parts)
        }
    }

    /// The path of `child` below this one.
    pub open spec fn child(self, name: Seq<char>) -> PathModel {
        PathModel { absolute: self.absolute, parts: self.parts.push(name) }
    }

    /// The path that the text `rel` names, seen from this one: an absolute text replaces it.
    pub open spec fn join(self, rel: Seq<char>) -> PathModel {
        if rel.len() > 0 && rel[0] == '/' {
            PathModel { absolute: true, parts: components(rel) }
        } else {
            PathModel { absolute: self.absolute, parts: self.parts + components(rel) }
        }
    }

    /// Whether `base` is this path or one above it.
    pub open spec fn starts_with(self, base: PathModel) -> bool {
        &&& self.absolute == base.absolute
        &&& base.parts.len() <= self.parts.len()
        &&& self.parts.take(base.parts.len() as int) == base.parts
    }

    /// The components below `base`.
    pub open spec fn below(self, base: PathModel) -> Seq<Seq<char>> {
        self.parts.skip(base.parts.len() as int)
    }
}

impl FsPath {
    /// The path that a text names.
    pub fn of(s: &str) -> (r: Self)
        ensures
            r@ == (PathModel { absolute: s@.len() > 0 && s@[0] == '/', parts: components(s@) }),
    {
        let absolute: bool = s.unicode_len() > 0 && s.get_char(0) == '/';
        FsPath { absolute, parts: components_of(s) }
    }

    /// The text of the path.
    pub fn text(&self) -> (r: String)
        ensures
            r@ == self@.written(),
    {
        let ghost vs = order::views(self.parts@);
        let mut out: String = String::new();
        let mut i: usize = 0;
        assert(vs.take(0) =~= Seq::empty());
        while i < self.parts.len()
            invariant
                0 <= i <= self.parts@.len(),
                vs == order::views(self.parts@),
                out@ == slashed(vs.take(i as int)),
            decreases self.parts@.len() - i,
        {
            proof {
                let t = vs.take(i + 1);
                assert(t.drop_last() =~= vs.take(i as int));
                assert(t.last() == self.parts@[i as int]@);
            }
            if i > 0 {
                out.append("/");
            }
            out.append(self.parts[i].as_str());
            assert(i == 0 ==> out@ =~= vs.take(1)[0]);
            i = i + 1;
        }
        assert(vs.take(vs.len() as int) =~= vs);
        if self.absolute {
            let mut whole: String = "/".to_owned();
            whole.append(out.as_str());
            whole
        } else {
            out
        }
    }

    /// A copy.
    pub fn copy(&self) -> (r: Self)
        ensures
            r@ == self@,
    {
        FsPath { absolute: self.absolute, parts: text::copy_all(&self.parts) }
    }

    /// Whether both are the same path.
    pub fn same(&self, other: &Self) -> (r: bool)
        ensures
            r == (self@ == other@),
    {
        self.absolute == other.absolute && text::same_all(&self.parts, &other.parts)
    }

    /// The path of `name` below this one.
    pub fn child(&self, name: &str) -> (r: Self)
        ensures
            r@ == self@.child(name@),
    {
        let mut parts: Vec<String> = text::copy_all(&self.parts);
        parts.push(name.to_owned());
        assert(order::views(parts@) =~= order::views(self.parts@).push(name@));
        FsPath { absolute: self.absolute, parts }
    }

    /// The path that the text `rel` names, seen from this one.
    pub fn join(&self, rel: &str) -> (r: Self)
        ensures
            r@ == self@.join(rel@),
    {
        let mut more: Vec<String> = components_of(rel);
        if rel.unicode_len() > 0 && rel.get_char(0) == '/' {
            FsPath { absolute: true, parts: more }
        } else {
            let mut parts: Vec<String> = text::copy_all(&self.parts);
            let ghost tail = order::views(more@);
            parts.append(&mut more);
            assert(order::views(parts@) =~= order::views(self.parts@) + tail);
            FsPath { absolute: self.absolute, parts }
        }
    }

    /// Whether `base` is this path or one above it.
    pub fn starts_with(&self, base: &Self) -> (r: bool)
        ensures
            r == self@.starts_with(base@),
    {
        if self.absolute != base.absolute || base.parts.len() > self.parts.len() {
            return false;
        }
        let mut i: usize = 0;
        while i < base.parts.len()
            invariant
                0 <= i <= base.parts@.len(),
                base.parts@.len() <= self.parts@.len(),
                forall|j: int| 0 <= j < i ==> (#[trigger] base.parts@[j])@ == self.parts@[j]@,
            decreases base.parts@.len() - i,
        {
            if !text::str_eq(self.parts[i].as_str(), base.parts[i].as_str()) {
                proof {
                    let t = self@.parts.take(base@.parts.len() as int);
                    assert(t[i as int] == self.parts@[i as int]@);
                    assert(base@.parts[i as int] == base.parts@[i as int]@);
                }
                return false;
            }
            i = i + 1;
        }
        assert(self@.parts.take(base@.parts.len() as int) =~= base@.parts);
        true
    }

    /// The components below `base`, when this path lies there.
    pub fn strip_prefix(&self, base: &Self) -> (r: Option<Vec<String>>)
        ensures
            match r {
                Some(rest) => self@.starts_with(base@) && order::views(rest@) == self@.below(base@),
                None => !self@.starts_with(base@),
            },
    {
        if !self.starts_with(base) {
            return None;
        }
        let mut rest: Vec<String> = Vec::new();
        let mut i: usize = base.parts.len();
        while i < self.parts.len()
            invariant
                base.parts@.len() <= i <= self.parts@.len(),
                rest@ == self.parts@.subrange(base.parts@.len() as int, i as int),
            decreases self.parts@.len() - i,
        {
            rest.push(self.parts[i].clone());
            i = i + 1;
            assert(rest@ =~= self.parts@.subrange(base.parts@.len() as int, i as int));
        }
        assert(order::views(rest@) =~= self@.below(base@));
        Some(rest)
    }

    /// The last component, unless that is `..`.
    pub open spec fn name_model(m: PathModel) -> Option<Seq<char>> {
        if m.parts.len() > 0 && m.parts.last() != ".."@ {
            Some(m.parts.last())
        } else {
            None
        }
    }

    /// The last component, unless that is `..`.
    pub fn file_name(&self) -> (r: Option<&str>)
        ensures
            match r {
                Some(n) => Self::name_model(self@) == Some(n@),
                None => Self::name_model(self@) is None,
            },
    {
        let n: usize = self.parts.len();
        if n == 0 {
            None
        } else {
            assert(self@.parts.last() == self.parts@[n - 1]@);
            if text::str_eq(self.parts[n - 1].as_str(), "..") {
                None
            } else {
                Some(self.parts[n - 1].as_str())
            }
        }
    }

    /// What [`PathModel`] the directory above has; none above the root or an empty path.
    pub open spec fn parent_model(m: PathModel) -> Option<PathModel> {
        if m.parts.len() > 0 {
            Some(PathModel { absolute: m.absolute, parts: m.parts.drop_last() })
        } else {
            None
        }
    }

    /// The name of the directory that holds this path.
    pub fn parent_name(&self) -> (r: Option<&str>)
        ensures
            match (r, Self::parent_model(self@)) {
                (Some(n), Some(p)) => Self::name_model(p) == Some(n@),
                (None, Some(p)) => Self::name_model(p) is None,
                (None, None) => true,
                _ => false,
            },
    {
        let n: usize = self.parts.len();
        if n < 2 {
            None
        } else {
            assert(self@.parts.drop_last().last() == self.parts@[n - 2]@);
            if text::str_eq(self.parts[n - 2].as_str(), "..") {
                None
            } else {
                Some(self.parts[n - 2].as_str())
            }
        }
    }
}

/// A virtual path below a prefix; either may be empty.
pub open spec fn joined(prefix: Seq<char>, rel: Seq<char>) -> Seq<char> {
    if prefix.len() == 0 {
        rel
    } else if rel.len() == 0 {
        prefix
    } else {
        prefix + "/"@ + rel
    }
}

/// A virtual path below a prefix; either may be empty.
pub fn join_virtual(prefix: &str, rel: &str) -> (r: String)
    ensures
        r@ == joined(prefix@, rel@),
{
    if prefix.is_empty() {
        rel.to_owned()
    } else if rel.is_empty() {
        prefix.to_owned()
    } else {
        let mut out: String = prefix.to_owned();
        out.append("/");
        out.append(rel);
        out
    }
}

/// The virtual path above `v`: what stands before its last slash.
pub open spec fn parent(v: Seq<char>) -> Seq<char> {
    let i = text::last_index(v, '/');
    if i < 0 {
        Seq::empty()
    } else {
        v.take(i)
    }
}

/// The name of `v`: what stands behind its last slash.
pub open spec fn name(v: Seq<char>) -> Seq<char> {
    v.skip(text::last_index(v, '/') + 1)
}

/// The virtual path above `v`.
pub fn parent_of(v: &str) -> (r: &str)
    ensures
        r@ == parent(v@),
{
    proof {
        text::lemma_last_index(v@, '/');
    }
    match text::rfind(v, '/') {
        Some(i) => {
            let p: &str = v.substring_char(0, i);
            assert(p@ =~= v@.take(i as int));
            p
        },
        None => {
            let p: &str = v.substring_char(0, 0);
            assert(p@ =~= Seq::<char>::empty());
            p
        },
    }
}

/// The name of `v`.
pub fn name_of(v: &str) -> (r: &str)
    ensures
        r@ == name(v@),
{
    proof {
        text::lemma_last_index(v@, '/');
    }
    let n: usize = v.unicode_len();
    match text::rfind(v, '/') {
        Some(i) => {
            let p: &str = v.substring_char(i + 1, n);
            assert(p@ =~= name(v@));
            p
        },
        None => {
            let p: &str = v.substring_char(0, n);
            assert(p@ =~= name(v@));
            p
        },
    }
}

/// How many of the characters are slashes.
pub open spec fn slashes(v: Seq<char>) -> nat
    decreases v.len(),
{
    if v.len() == 0 {
        0
    } else {
        slashes(v.drop_last()) + if v.last() == '/' {
            1nat
        } else {
            0nat
        }
    }
}

/// How deep a virtual path lies: the class root is at zero.
pub open spec fn depth(v: Seq<char>) -> nat {
    slashes(v) + if v.len() == 0 {
        0nat
    } else {
        1nat
    }
}

/// How deep a virtual path lies.
pub fn depth_of(v: &str) -> (r: u128)
    ensures
        r == depth(v@),
{
    let x: Vec<char> = text::chars_of(v);
    let mut count: u128 = 0;
    let mut i: usize = 0;
    while i < x.len()
        invariant
            x@ == v@,
            0 <= i <= x@.len(),
            count == slashes(v@.take(i as int)),
            count <= i,
        decreases x@.len() - i,
    {
        proof {
            let t = v@.take(i + 1);
            assert(t.drop_last() =~= v@.take(i as int));
            assert(t.last() == x@[i as int]);
        }
        if x[i] == '/' {
            count = count + 1;
        }
        i = i + 1;
    }
    assert(v@.take(v@.len() as int) =~= v@);
    if x.len() > 0 {
        count + 1
    } else {
        count
    }
}

/// Whether a virtual path is below the class root: not empty, and not starting with a slash.
pub open spec fn is_virtual(v: Seq<char>) -> bool {
    v.len() > 0 && v[0] != '/'
}

proof fn lemma_slashes_take(v: Seq<char>, i: int)
    requires
        0 <= i < v.len(),
        v[i] == '/',
        forall|j: int| i < j < v.len() ==> v[j] != '/',
    ensures
        slashes(v) == slashes(v.take(i)) + 1,
    decreases v.len(),
{
    if i == v.len() - 1 {
        assert(v.drop_last() =~= v.take(i));
    } else {
        assert(v.drop_last().take(i) =~= v.take(i));
        lemma_slashes_take(v.drop_last(), i);
    }
}

proof fn lemma_no_slashes(v: Seq<char>)
    requires
        forall|j: int| 0 <= j < v.len() ==> v[j] != '/',
    ensures
        slashes(v) == 0,
    decreases v.len(),
{
    if v.len() > 0 {
        lemma_no_slashes(v.drop_last());
    }
}

/// A virtual path lies one level below its parent.
pub proof fn lemma_depth_of_parent(v: Seq<char>)
    requires
        is_virtual(v),
    ensures
        depth(v) == depth(parent(v)) + 1,
        parent(v) != v,
        parent(v).len() > 0 ==> is_virtual(parent(v)),
{
    text::lemma_last_index(v, '/');
    let i = text::last_index(v, '/');
    if i < 0 {
        lemma_no_slashes(v);
    } else {
        lemma_slashes_take(v, i);
    }
}

/// A name in a directory: the path that they make has that name and lies in that directory.
pub proof fn law_a_path_is_its_directory_and_its_name(
    dir: &str,
    n: &str,
    path: String,
    again: &str,
    parent_dir: &str,
    last: &str,
)
    requires
        n@.len() > 0,
        !n@.contains('/'),
        call_ensures(join_virtual, (dir, n), path),
        again@ == path@,
        call_ensures(parent_of, (again,), parent_dir),
        call_ensures(name_of, (again,), last),
    ensures
        parent_dir@ == dir@,
        last@ == n@,
        dir@.len() > 0 ==> path@ == dir@ + "/"@ + n@,
        dir@.len() == 0 ==> path@ == n@,
{
    reveal_strlit("/");
    let p = path@;
    assert forall|k: int| 0 <= k < n@.len() implies n@[k] != '/' by {
        if n@[k] == '/' {
            assert(n@.contains(n@[k]));
        }
    }
    text::lemma_last_index(p, '/');
    if dir@.len() > 0 {
        let at = dir@.len() as int;
        assert(p[at] == '/');
        assert forall|k: int| at < k < p.len() implies p[k] != '/' by {
            assert(p[k] == n@[k - at - 1]);
        }
        text::lemma_last_index_is(p, '/', at);
        assert(p.take(at) =~= dir@);
        assert(p.skip(at + 1) =~= n@);
    } else {
        let i = text::last_index(p, '/');
        assert(i < 0);
        assert(p.skip(0) =~= p);
        assert(parent(p) =~= dir@);
    }
}

/// A child lies under its path, and what is left of it below that is its name; a path lies under
/// itself with nothing left, and under no path that differs from its beginning.
pub proof fn law_a_child_lies_under_its_path(
    path: FsPath,
    n: &str,
    child: FsPath,
    under: bool,
    rest: Option<Vec<String>>,
    own: bool,
    up: bool,
)
    requires
        call_ensures(FsPath::child, (&path, n), child),
        call_ensures(FsPath::starts_with, (&child, &path), under),
        call_ensures(FsPath::strip_prefix, (&child, &path), rest),
        call_ensures(FsPath::starts_with, (&path, &path), own),
        call_ensures(FsPath::starts_with, (&path, &child), up),
    ensures
        under && own && !up,
        rest is Some && rest->0@.len() == 1 && rest->0@[0]@ == n@,
        child@.parts == path@.parts.push(n@) && child@.absolute == path@.absolute,
{
    assert(child@.parts.take(path@.parts.len() as int) =~= path@.parts);
    assert(path@.parts.take(path@.parts.len() as int) =~= path@.parts);
    assert(child@.below(path@) =~= seq![n@]);
    if let Some(r) = rest {
        let rv = order::views(r@);
        assert(rv.len() == r@.len());
        assert(rv[0] == r@[0]@);
    }
}

/// An absolute text names its own place from everywhere; any other is seen from the path it is
/// joined to, with all of its components.
pub proof fn law_joining_goes_on_from_the_path(path: FsPath, rel: &str, r: FsPath, whole: FsPath)
    requires
        call_ensures(FsPath::join, (&path, rel), r),
        call_ensures(FsPath::of, (rel,), whole),
    ensures
        rel@.len() > 0 && rel@[0] == '/' ==> r@ == whole@ && r@.absolute,
        !(rel@.len() > 0 && rel@[0] == '/') ==> r@.absolute == path@.absolute && r@.parts
            == path@.parts + whole@.parts,
{
}

/// The components of a text are its pieces between slashes, but for empty ones and dots.
pub proof fn law_components_are_the_pieces_between_slashes(s: &str, r: Vec<String>, i: int)
    requires
        call_ensures(components_of, (s,), r),
    ensures
        0 <= i < text::pieces(s@, '/').len() && text::pieces(s@, '/')[i].len() > 0 && text::pieces(
            s@,
            '/',
        )[i] != "."@ ==> order::views(r@).contains(text::pieces(s@, '/')[i]),
        0 <= i < r@.len() ==> text::pieces(s@, '/').contains(r@[i]@) && r@[i]@.len() > 0 && r@[i]@
            != "."@,
{
    let all = text::pieces(s@, '/');
    let f = |p: Seq<char>| is_component(p);
    let rv = order::views(r@);
    assert(rv == all.filter(f));
    assert(rv.len() == r@.len());
    if 0 <= i < all.len() && is_component(all[i]) {
        all.lemma_filter_contains(f, i);
    }
    if 0 <= i < r@.len() {
        assert(rv[i] == r@[i]@);
        all.lemma_filter_pred(f, i);
        assert(rv.contains(rv[i]));
        all.lemma_filter_contains_rev(f, rv[i]);
    }
}

} // verus!
