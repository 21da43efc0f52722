//! Dir objects: a content-addressed JSON listing of one directory, entries sorted by name, kinds
//! `file | symlink | dir | hardlink-group`, keyed by the sha256 of the canonical bytes.

use vstd::prelude::*;
use vstd::string::*;
use crate::chunk;
use crate::chunk::ChunkId;
use crate::json;
use crate::order;
use crate::text;

verus! {

/// Entry kind.
#[derive(Debug, Clone, Copy, PartialEq, Eq, Structural)]
pub enum EntryKind {
    /// Regular file: `chunks` lists its content.
    File,
    /// Symbolic link: `target` is the link text, never followed.
    Symlink,
    /// Directory: `child` is the dir object key.
    Dir,
    /// Another name of a file already listed: `target` is the group's canonical path (its first
    /// member in path order, relative to the class root); no chunks.
    HardlinkGroup,
}

impl EntryKind {
    /// The kind as it is written.
    pub open spec fn name(self) -> Seq<char> {
        match self {
            EntryKind::File => "file"@,
            EntryKind::Symlink => "symlink"@,
            EntryKind::Dir => "dir"@,
            EntryKind::HardlinkGroup => "hardlink-group"@,
        }
    }

    /// The kind as it is written.
    pub fn as_str(self) -> (r: &'static str)
        ensures
            r@ == self.name(),
    {
        match self {
            EntryKind::File => "file",
            EntryKind::Symlink => "symlink",
            EntryKind::Dir => "dir",
            EntryKind::HardlinkGroup => "hardlink-group",
        }
    }
}

/// One directory entry.
pub struct DirEntry {
    /// File name within the directory.
    pub name: String,
    /// Kind.
    pub kind: EntryKind,
    /// `st_mode` permission bits.
    pub mode: u32,
    /// Size in bytes (0 for dirs).
    pub size: u64,
    /// Modification time, nanoseconds since the Unix epoch.
    pub mtime: i64,
    /// Content chunks, in order (files only).
    pub chunks: Option<Vec<ChunkId>>,
    /// Symlink text, or a hardlink group's canonical path.
    pub target: Option<String>,
    /// Child dir object key (dirs only).
    pub child: Option<String>,
    /// File group read together (SQLite `db` + `-wal`): the group's base file name.
    pub group: Option<String>,
    /// The file (or its group) changed underneath the reader on every attempt.
    pub torn: Option<bool>,
}

/// What a directory entry says.
pub struct EntryModel {
    /// File name within the directory.
    pub name: Seq<char>,
    /// Kind.
    pub kind: EntryKind,
    /// Permission bits.
    pub mode: nat,
    /// Size in bytes.
    pub size: nat,
    /// Modification time.
    pub mtime: int,
    /// The digests of the content chunks.
    pub chunks: Option<Seq<Seq<u8>>>,
    /// Symlink text, or a hardlink group's canonical path.
    pub target: Option<Seq<char>>,
    /// Child dir object key.
    pub child: Option<Seq<char>>,
    /// The base file name of a file group.
    pub group: Option<Seq<char>>,
    /// Whether the content changed underneath the reader.
    pub torn: Option<bool>,
}

impl View for DirEntry {
    type V = EntryModel;

    open spec fn view(&self) -> EntryModel {
        EntryModel {
            name: self.name@,
            kind: self.kind,
            mode: self.mode as nat,
            size: self.size as nat,
            mtime: self.mtime as int,
            chunks: match self.chunks {
                Some(ids) => Some(order::views(ids@)),
                None => None,
            },
            target: text::opt_view(self.target),
            child: text::opt_view(self.child),
            group: text::opt_view(self.group),
            torn: self.torn,
        }
    }
}

/// The chunk ids of an array, written.
pub open spec fn written_ids(ids: Seq<Seq<u8>>) -> Seq<Seq<char>> {
    Seq::new(ids.len(), |i: int| json::json_string(chunk::hex_text(ids[i])))
}

/// `head` and one more item, if there is one.
pub open spec fn and_then(head: Seq<Seq<char>>, item: Option<Seq<char>>) -> Seq<Seq<char>> {
    match item {
        Some(x) => head.push(x),
        None => head,
    }
}

/// A member that is left out when there is no value.
pub open spec fn opt_member(name: Seq<char>, value: Option<Seq<char>>) -> Option<Seq<char>> {
    match value {
        Some(v) => Some(json::json_member(name, v)),
        None => None,
    }
}

/// An optional string, written.
pub open spec fn opt_string(s: Option<Seq<char>>) -> Option<Seq<char>> {
    match s {
        Some(x) => Some(json::json_string(x)),
        None => None,
    }
}

impl EntryModel {
    /// The members of the entry, those without a value left out.
    pub open spec fn written_members(self) -> Seq<Seq<char>> {
        let m0 = seq![
            json::json_member("name"@, json::json_string(self.name)),
            json::json_member("kind"@, json::json_string(self.kind.name())),
            json::json_member("mode"@, text::decimal(self.mode)),
            json::json_member("size"@, text::decimal(self.size)),
            json::json_member("mtime"@, json::json_int(self.mtime)),
        ];
        let chunks = match self.chunks {
            Some(ids) => Some(json::json_array(written_ids(ids))),
            None => None,
        };
        let torn = match self.torn {
            Some(true) => Some("true"@),
            Some(false) => Some("false"@),
            None => None,
        };
        let m1 = and_then(m0, opt_member("chunks"@, chunks));
        let m2 = and_then(m1, opt_member("target"@, opt_string(self.target)));
        let m3 = and_then(m2, opt_member("child"@, opt_string(self.child)));
        let m4 = and_then(m3, opt_member("group"@, opt_string(self.group)));
        and_then(m4, opt_member("torn"@, torn))
    }

    /// The entry as a JSON object.
    pub open spec fn written(self) -> Seq<char> {
        json::json_object(self.written_members())
    }
}

impl DirEntry {
    /// A file entry.
    pub fn file(name: String, mode: u32, size: u64, mtime: i64, chunks: Vec<ChunkId>) -> (r: Self)
        ensures
            r == (DirEntry {
                name,
                kind: EntryKind::File,
                mode,
                size,
                mtime,
                chunks: Some(chunks),
                target: None,
                child: None,
                group: None,
                torn: None,
            }),
    {
        DirEntry {
            name,
            kind: EntryKind::File,
            mode,
            size,
            mtime,
            chunks: Some(chunks),
            target: None,
            child: None,
            group: None,
            torn: None,
        }
    }

    /// A symlink entry.
    pub fn symlink(name: String, mode: u32, mtime: i64, target: String) -> (r: Self)
        ensures
            r == (DirEntry {
                name,
                kind: EntryKind::Symlink,
                mode,
                size: 0,
                mtime,
                chunks: None,
                target: Some(target),
                child: None,
                group: None,
                torn: None,
            }),
    {
        DirEntry {
            name,
            kind: EntryKind::Symlink,
            mode,
            size: 0,
            mtime,
            chunks: None,
            target: Some(target),
            child: None,
            group: None,
            torn: None,
        }
    }

    /// A directory entry.
    pub fn dir(name: String, mode: u32, mtime: i64, child_key: String) -> (r: Self)
        ensures
            r == (DirEntry {
                name,
                kind: EntryKind::Dir,
                mode,
                size: 0,
                mtime,
                chunks: None,
                target: None,
                child: Some(child_key),
                group: None,
                torn: None,
            }),
    {
        DirEntry {
            name,
            kind: EntryKind::Dir,
            mode,
            size: 0,
            mtime,
            chunks: None,
            target: None,
            child: Some(child_key),
            group: None,
            torn: None,
        }
    }

    /// A hardlink-group member pointing at the group's canonical path.
    pub fn hardlink(name: String, mode: u32, size: u64, mtime: i64, canonical: String) -> (r: Self)
        ensures
            r == (DirEntry {
                name,
                kind: EntryKind::HardlinkGroup,
                mode,
                size,
                mtime,
                chunks: None,
                target: Some(canonical),
                child: None,
                group: None,
                torn: None,
            }),
    {
        DirEntry {
            name,
            kind: EntryKind::HardlinkGroup,
            mode,
            size,
            mtime,
            chunks: None,
            target: Some(canonical),
            child: None,
            group: None,
            torn: None,
        }
    }
}

fn push_opt_string(members: &mut Vec<String>, name: &str, value: &Option<String>)
    ensures
        order::views(final(members)@) == and_then(
            order::views(old(members)@),
            opt_member(name@, opt_string(text::opt_view(*value))),
        ),
{
    match value {
        Some(v) => {
            members.push(json::member(name, json::quote(v.as_str()).as_str()));
        },
        None => {},
    }
    assert(order::views(members@) =~= and_then(
        order::views(old(members)@),
        opt_member(name@, opt_string(text::opt_view(*value))),
    ));
}

fn write_ids(ids: &Vec<ChunkId>) -> (r: String)
    ensures
        r@ == json::json_array(written_ids(order::views(ids@))),
{
    let mut quoted: Vec<String> = Vec::new();
    let mut i: usize = 0;
    while i < ids.len()
        invariant
            0 <= i <= ids@.len(),
            quoted@.len() == i,
            forall|j: int|
                0 <= j < i ==> (#[trigger] quoted@[j])@ == json::json_string(
                    chunk::hex_text(ids@[j]@),
                ),
        decreases ids@.len() - i,
    {
        quoted.push(json::quote(ids[i].to_hex().as_str()));
        i = i + 1;
    }
    assert(order::views(quoted@) =~= written_ids(order::views(ids@)));
    json::array(&quoted)
}

fn write_entry(e: &DirEntry) -> (r: String)
    ensures
        r@ == e@.written(),
{
    let mut members: Vec<String> = Vec::new();
    members.push(json::member("name", json::quote(e.name.as_str()).as_str()));
    members.push(json::member("kind", json::quote(e.kind.as_str()).as_str()));
    members.push(json::member("mode", text::dec(e.mode as u64).as_str()));
    members.push(json::member("size", text::dec(e.size).as_str()));
    members.push(json::member("mtime", json::integer(e.mtime).as_str()));
    let ghost m0 = seq![
        json::json_member("name"@, json::json_string(e.name@)),
        json::json_member("kind"@, json::json_string(e.kind.name())),
        json::json_member("mode"@, text::decimal(e.mode as nat)),
        json::json_member("size"@, text::decimal(e.size as nat)),
        json::json_member("mtime"@, json::json_int(e.mtime as int)),
    ];
    assert(order::views(members@) =~= m0);
    match &e.chunks {
        Some(ids) => {
            members.push(json::member("chunks", write_ids(ids).as_str()));
            assert(order::views(members@) =~= m0.push(
                json::json_member("chunks"@, json::json_array(written_ids(order::views(ids@)))),
            ));
        },
        None => {},
    }
    push_opt_string(&mut members, "target", &e.target);
    push_opt_string(&mut members, "child", &e.child);
    push_opt_string(&mut members, "group", &e.group);
    let ghost m4 = order::views(members@);
    match e.torn {
        Some(true) => {
            members.push(json::member("torn", "true"));
            assert(order::views(members@) =~= m4.push(json::json_member("torn"@, "true"@)));
        },
        Some(false) => {
            members.push(json::member("torn", "false"));
            assert(order::views(members@) =~= m4.push(json::json_member("torn"@, "false"@)));
        },
        None => {},
    }
    assert(order::views(members@) == e@.written_members());
    json::object(&members)
}

/// A dir object.
pub struct DirObject {
    /// Entries, sorted by name.
    pub entries: Vec<DirEntry>,
}

/// An encoded dir object: canonical bytes and their sha256.
pub struct EncodedDir {
    /// Canonical JSON.
    pub bytes: Vec<u8>,
    /// Lowercase hex sha256 of `bytes`.
    pub sha256: String,
}

/// Whether no entry comes before one in front of it, by name.
pub open spec fn sorted_by_name(s: Seq<EntryModel>) -> bool {
    forall|i: int, j: int|
        0 <= i < j < s.len() ==> !text::text_less((#[trigger] s[j]).name, (#[trigger] s[i]).name)
}

/// The entries as they are written, in order.
pub open spec fn written_entries(s: Seq<EntryModel>) -> Seq<Seq<char>> {
    Seq::new(s.len(), |i: int| s[i].written())
}

/// The stable sort by name, one entry put in after another: an entry goes behind those whose
/// name is not greater.
pub open spec fn put_in(s: Seq<EntryModel>, e: EntryModel) -> Seq<EntryModel>
    decreases s.len(),
{
    if s.len() == 0 {
        seq![e]
    } else if text::text_less(e.name, s.last().name) {
        put_in(s.drop_last(), e).push(s.last())
    } else {
        s.push(e)
    }
}

/// The entries sorted by name, equal names in the order they came in.
pub open spec fn sorted(s: Seq<EntryModel>) -> Seq<EntryModel>
    decreases s.len(),
{
    if s.len() == 0 {
        s
    } else {
        put_in(sorted(s.drop_last()), s.last())
    }
}

/// What [`put_in`] gives is sorted and holds one entry more.
pub proof fn lemma_put_in(s: Seq<EntryModel>, e: EntryModel)
    requires
        sorted_by_name(s),
    ensures
        sorted_by_name(put_in(s, e)),
        put_in(s, e).len() == s.len() + 1,
        put_in(s, e).to_multiset() == s.to_multiset().insert(e),
    decreases s.len(),
{
    broadcast use vstd::seq_lib::group_to_multiset_ensures;

    if s.len() == 0 {
        assert(s.push(e) =~= seq![e]);
    } else if text::text_less(e.name, s.last().name) {
        let front = s.drop_last();
        assert forall|i: int, j: int| 0 <= i < j < front.len() implies !text::text_less(
            (#[trigger] front[j]).name,
            (#[trigger] front[i]).name,
        ) by {
            assert(front[j] == s[j] && front[i] == s[i]);
        }
        lemma_put_in(front, e);
        let mid = put_in(front, e);
        let all = mid.push(s.last());
        assert(s =~= front.push(s.last()));
        assert(s.to_multiset() =~= front.to_multiset().insert(s.last()));
        assert(all.to_multiset() =~= s.to_multiset().insert(e));
        assert forall|i: int, j: int| 0 <= i < j < all.len() implies !text::text_less(
            (#[trigger] all[j]).name,
            (#[trigger] all[i]).name,
        ) by {
            if j == mid.len() {
                assert(mid.to_multiset().count(mid[i]) > 0) by {
                    assert(mid.contains(mid[i]));
                }
                assert(mid[i] == e || front.to_multiset().count(mid[i]) > 0);
                if mid[i] == e {
                    order::lemma_rank_asymmetric(
                        text::text_rank(e.name),
                        text::text_rank(s.last().name),
                    );
                } else {
                    assert(front.contains(mid[i]));
                    let k = choose|k: int| 0 <= k < front.len() && front[k] == mid[i];
                    assert(s[k] == mid[i]);
                    assert(!text::text_less(s[s.len() - 1].name, s[k].name));
                }
            } else {
                assert(all[i] == mid[i] && all[j] == mid[j]);
            }
        }
    } else {
        let all = s.push(e);
        assert forall|i: int, j: int| 0 <= i < j < all.len() implies !text::text_less(
            (#[trigger] all[j]).name,
            (#[trigger] all[i]).name,
        ) by {
            if j == s.len() {
                if text::text_less(e.name, s[i].name) && i < s.len() - 1 {
                    assert(!text::text_less(s[s.len() - 1].name, s[i].name));
                    lemma_not_less_transitive(e.name, s.last().name, s[i].name);
                }
            } else {
                assert(all[i] == s[i] && all[j] == s[j]);
            }
        }
    }
}

/// If neither `a` comes before `b` nor `b` before `c`, then `a` does not come before `c`.
proof fn lemma_not_less_transitive(a: Seq<char>, b: Seq<char>, c: Seq<char>)
    requires
        !text::text_less(a, b),
        !text::text_less(b, c),
    ensures
        !text::text_less(a, c),
{
    let (ra, rb, rc) = (text::text_rank(a), text::text_rank(b), text::text_rank(c));
    order::lemma_rank_total(ra, rb);
    order::lemma_rank_total(rb, rc);
    if order::rank_less(ra, rc) {
        if ra == rb || rb == rc {
        } else {
            order::lemma_rank_transitive(rc, rb, ra);
            order::lemma_rank_asymmetric(ra, rc);
        }
    }
}

/// What [`sorted`] gives is sorted and holds the same entries.
pub proof fn lemma_sorted(s: Seq<EntryModel>)
    ensures
        sorted_by_name(sorted(s)),
        sorted(s).len() == s.len(),
        sorted(s).to_multiset() == s.to_multiset(),
    decreases s.len(),
{
    broadcast use vstd::seq_lib::group_to_multiset_ensures;

    if s.len() > 0 {
        lemma_sorted(s.drop_last());
        lemma_put_in(sorted(s.drop_last()), s.last());
        assert(s =~= s.drop_last().push(s.last()));
    }
}

/// Sorted entries stay as they are.
pub proof fn lemma_sorted_stays(s: Seq<EntryModel>)
    requires
        sorted_by_name(s),
    ensures
        sorted(s) == s,
    decreases s.len(),
{
    if s.len() > 0 {
        let front = s.drop_last();
        assert forall|i: int, j: int| 0 <= i < j < front.len() implies !text::text_less(
            (#[trigger] front[j]).name,
            (#[trigger] front[i]).name,
        ) by {
            assert(front[j] == s[j] && front[i] == s[i]);
        }
        lemma_sorted_stays(front);
        if front.len() > 0 {
            assert(!text::text_less(s[s.len() - 1].name, s[s.len() - 2].name));
            assert(front.last() == s[s.len() - 2]);
        }
        assert(front.push(s.last()) =~= s);
        if front.len() == 0 {
            assert(s =~= seq![s.last()]);
        }
    }
}

/// Put `e` into sorted entries.
fn put(entries: &mut Vec<DirEntry>, e: DirEntry)
    ensures
        order::views(final(entries)@) == put_in(order::views(old(entries)@), e@),
{
    let ghost before = order::views(entries@);
    let mut i: usize = entries.len();
    assert(before.take(i as int) =~= before);
    assert(put_in(before, e@) + before.skip(i as int) =~= put_in(before, e@));
    while i > 0 && text::str_less(e.name.as_str(), entries[i - 1].name.as_str())
        invariant
            0 <= i <= entries@.len(),
            entries@ == old(entries)@,
            before == order::views(entries@),
            put_in(before, e@) == put_in(before.take(i as int), e@) + before.skip(i as int),
        decreases i,
    {
        proof {
            let t = before.take(i as int);
            assert(t.drop_last() =~= before.take(i - 1));
            assert(t.last() == before[i - 1]);
            assert(before.skip(i - 1) =~= seq![before[i - 1]] + before.skip(i as int));
            assert(put_in(t.drop_last(), e@).push(t.last()) + before.skip(i as int) =~= put_in(
                before.take(i - 1),
                e@,
            ) + before.skip(i - 1));
        }
        i = i - 1;
    }
    proof {
        let t = before.take(i as int);
        if i > 0 {
            assert(t.last() == before[i - 1]);
        } else {
            assert(t =~= Seq::empty());
        }
        assert(put_in(t, e@) =~= t.push(e@));
    }
    entries.insert(i, e);
    assert(order::views(entries@) =~= before.take(i as int).push(e@) + before.skip(i as int));
}

impl DirObject {
    /// Build from entries in any order.
    pub fn new(entries: Vec<DirEntry>) -> (r: Self)
        ensures
            order::views(r.entries@) == sorted(order::views(entries@)),
            sorted_by_name(order::views(r.entries@)),
            order::views(r.entries@).to_multiset() == order::views(entries@).to_multiset(),
    {
        let ghost all = order::views(entries@);
        let mut rest: Vec<DirEntry> = entries;
        let mut taken: Vec<DirEntry> = Vec::new();
        // The last entry is taken first, so that the second list can be emptied from its end.
        while rest.len() > 0
            invariant
                order::views(rest@) == all.take(all.len() - taken@.len()),
                taken@.len() <= all.len(),
                forall|i: int|
                    0 <= i < taken@.len() ==> (#[trigger] taken@[i])@ == all[all.len() - 1 - i],
            decreases rest@.len(),
        {
            let ghost rest0 = rest@;
            assert(order::views(rest0).len() == rest0.len());
            match rest.pop() {
                Some(e) => {
                    assert(e@ == order::views(rest0)[rest0.len() - 1]);
                    taken.push(e);
                    assert(order::views(rest@) =~= all.take(all.len() - taken@.len()));
                },
                None => {},
            }
        }
        let mut out: Vec<DirEntry> = Vec::new();
        let ghost n = all.len();
        assert(order::views(rest@).len() == 0);
        assert(taken@.len() == n);
        assert(order::views(out@) =~= sorted(all.take(0)));
        while taken.len() > 0
            invariant
                taken@.len() <= n,
                n == all.len(),
                forall|i: int|
                    0 <= i < taken@.len() ==> (#[trigger] taken@[i])@ == all[all.len() - 1 - i],
                order::views(out@) == sorted(all.take(n - taken@.len())),
            decreases taken@.len(),
        {
            match taken.pop() {
                Some(e) => {
                    proof {
                        let next = all.take(n - taken@.len());
                        assert(next.drop_last() =~= all.take(n - taken@.len() - 1));
                        assert(next.last() == e@);
                    }
                    put(&mut out, e);
                },
                None => {},
            }
        }
        proof {
            assert(all.take(n as int) =~= all);
            lemma_sorted(all);
        }
        DirObject { entries: out }
    }

    /// The bytes of a directory with these entries, in any order.
    pub open spec fn bytes_of(entries: Seq<EntryModel>) -> Seq<u8> {
        json::document_bytes(Self::written(entries))
    }

    /// The object as it is written: its entries sorted by name.
    pub open spec fn written(entries: Seq<EntryModel>) -> Seq<char> {
        json::json_object(
            seq![json::json_member("entries"@, json::json_array(written_entries(sorted(entries))))],
        )
    }

    /// Canonical bytes (sorted entries, fixed field order, compact JSON) and their digest.
    pub fn encode(&self) -> (r: EncodedDir)
        ensures
            r.bytes@ == Self::bytes_of(order::views(self.entries@)),
            r.wf(),
    {
        let mut copies: Vec<DirEntry> = Vec::new();
        let mut i: usize = 0;
        while i < self.entries.len()
            invariant
                0 <= i <= self.entries@.len(),
                copies@.len() == i,
                forall|j: int| 0 <= j < i ==> (#[trigger] copies@[j])@ == self.entries@[j]@,
            decreases self.entries@.len() - i,
        {
            copies.push(self.entries[i].copy());
            i = i + 1;
        }
        assert(order::views(copies@) =~= order::views(self.entries@));
        let in_order: DirObject = DirObject::new(copies);
        let mut items: Vec<String> = Vec::new();
        let mut k: usize = 0;
        while k < in_order.entries.len()
            invariant
                0 <= k <= in_order.entries@.len(),
                items@.len() == k,
                forall|j: int|
                    0 <= j < k ==> (#[trigger] items@[j])@ == in_order.entries@[j]@.written(),
            decreases in_order.entries@.len() - k,
        {
            items.push(write_entry(&in_order.entries[k]));
            k = k + 1;
        }
        let mut members: Vec<String> = Vec::new();
        members.push(json::member("entries", json::array(&items).as_str()));
        proof {
            let s = sorted(order::views(self.entries@));
            assert(order::views(items@) =~= written_entries(s)) by {
                assert forall|j: int| 0 <= j < items@.len() implies #[trigger] items@[j]@
                    == s[j].written() by {
                    assert(order::views(in_order.entries@)[j] == in_order.entries@[j]@);
                }
            }
            assert(order::views(members@) =~= seq![
                json::json_member("entries"@, json::json_array(written_entries(s))),
            ]);
        }
        let written: String = json::object(&members);
        let bytes: Vec<u8> = json::bytes_of(written.as_str());
        let sha256: String = chunk::sha256_hex(bytes.as_slice());
        EncodedDir { bytes, sha256 }
    }
}

impl EncodedDir {
    /// Whether the digest is that of the bytes.
    pub open spec fn wf(&self) -> bool {
        self.sha256@ == chunk::content_name(self.bytes@) && self.sha256@.len() == 64
    }

    /// A copy.
    pub fn copy(&self) -> (r: Self)
        ensures
            r.bytes@ == self.bytes@,
            r.sha256 == self.sha256,
    {
        EncodedDir {
            bytes: vstd::slice::slice_to_vec(self.bytes.as_slice()),
            sha256: self.sha256.clone(),
        }
    }
}

impl DirEntry {
    /// A copy of the entry.
    pub fn copy(&self) -> (r: Self)
        ensures
            r@ == self@,
    {
        let chunks: Option<Vec<ChunkId>> = match &self.chunks {
            Some(ids) => Some(vstd::slice::slice_to_vec(ids.as_slice())),
            None => None,
        };
        DirEntry {
            name: self.name.clone(),
            kind: self.kind,
            mode: self.mode,
            size: self.size,
            mtime: self.mtime,
            chunks,
            target: text::copy_opt(&self.target),
            child: text::copy_opt(&self.child),
            group: text::copy_opt(&self.group),
            torn: self.torn,
        }
    }
}

/// Whether no two entries share a name.
pub open spec fn distinct_names(s: Seq<EntryModel>) -> bool {
    forall|i: int, j: int|
        0 <= i < s.len() && 0 <= j < s.len() && (#[trigger] s[i]).name == (#[trigger] s[j]).name
            ==> i == j
}

proof fn lemma_sorted_unique(s: Seq<EntryModel>, t: Seq<EntryModel>)
    requires
        sorted_by_name(s),
        sorted_by_name(t),
        distinct_names(s),
        s.to_multiset() == t.to_multiset(),
    ensures
        s == t,
    decreases s.len(),
{
    broadcast use vstd::seq_lib::group_to_multiset_ensures;

    assert(s.len() == s.to_multiset().len());
    assert(t.len() == t.to_multiset().len());
    if s.len() == 0 {
        assert(s =~= t);
    } else {
        let n = s.len() as int;
        let x = s.last();
        let y = t.last();
        assert(s.contains(x));
        assert(t.contains(y));
        assert(t.to_multiset().count(x) > 0 && s.to_multiset().count(y) > 0);
        assert(t.contains(x) && s.contains(y));
        let k = choose|k: int| 0 <= k < t.len() && t[k] == x;
        let j = choose|j: int| 0 <= j < s.len() && s[j] == y;
        if j < n - 1 {
            // Then y does not come after x, and x does not come after y: one name, one entry.
            assert(!text::text_less(s[n - 1].name, s[j].name));
            if k < n - 1 {
                assert(!text::text_less(t[n - 1].name, t[k].name));
                order::lemma_rank_total(text::text_rank(x.name), text::text_rank(y.name));
                text::lemma_text_rank_injective(x.name, y.name);
            }
            assert(s[j].name == s[n - 1].name);
        }
        assert(x == y);
        let s1 = s.drop_last();
        let t1 = t.drop_last();
        assert(s =~= s1.push(x) && t =~= t1.push(x));
        assert(s1.to_multiset() =~= s.to_multiset().remove(x));
        assert(t1.to_multiset() =~= t.to_multiset().remove(x));
        assert forall|a: int, b: int| 0 <= a < b < s1.len() implies !text::text_less(
            (#[trigger] s1[b]).name,
            (#[trigger] s1[a]).name,
        ) by {
            assert(s1[a] == s[a] && s1[b] == s[b]);
        }
        assert forall|a: int, b: int| 0 <= a < b < t1.len() implies !text::text_less(
            (#[trigger] t1[b]).name,
            (#[trigger] t1[a]).name,
        ) by {
            assert(t1[a] == t[a] && t1[b] == t[b]);
        }
        assert forall|a: int, b: int|
            0 <= a < s1.len() && 0 <= b < s1.len() && (#[trigger] s1[a]).name == (#[trigger] s1[
                b]).name implies a == b by {
            assert(s1[a] == s[a] && s1[b] == s[b]);
        }
        lemma_sorted_unique(s1, t1);
    }
}

/// The order in which a directory's entries are handed over leaves no trace: the same entries,
/// each name once, are written the same.
pub proof fn law_encoding_ignores_the_order_of_entries(s: Seq<EntryModel>, t: Seq<EntryModel>)
    requires
        distinct_names(s),
        s.to_multiset() == t.to_multiset(),
    ensures
        DirObject::written(s) == DirObject::written(t),
{
    broadcast use vstd::seq_lib::group_to_multiset_ensures;

    lemma_sorted(s);
    lemma_sorted(t);
    let u = sorted(s);
    lemma_names_stay_distinct(s, u);
    lemma_sorted_unique(u, sorted(t));
}

/// A rearrangement of entries with distinct names has distinct names.
proof fn lemma_names_stay_distinct(s: Seq<EntryModel>, u: Seq<EntryModel>)
    requires
        distinct_names(s),
        s.to_multiset() == u.to_multiset(),
    ensures
        distinct_names(u),
{
    broadcast use vstd::seq_lib::group_to_multiset_ensures;

    assert(s.no_duplicates());
    s.lemma_multiset_has_no_duplicates();
    u.lemma_multiset_has_no_duplicates_conv();
    assert forall|i: int, j: int|
        0 <= i < u.len() && 0 <= j < u.len() && (#[trigger] u[i]).name == (#[trigger] u[
            j]).name implies i == j by {
        assert(u.contains(u[i]) && u.contains(u[j]));
        assert(s.to_multiset().count(u[i]) > 0 && s.to_multiset().count(u[j]) > 0);
        assert(s.contains(u[i]) && s.contains(u[j]));
        let a = choose|a: int| 0 <= a < s.len() && s[a] == u[i];
        let b = choose|b: int| 0 <= b < s.len() && s[b] == u[j];
        assert(s[a].name == s[b].name);
        assert(u[i] == u[j]);
    }
}

proof fn lemma_and_then(head: Seq<Seq<char>>, item: Option<Seq<char>>, x: Seq<char>)
    ensures
        head.contains(x) ==> and_then(head, item).contains(x),
        item == Some(x) ==> and_then(head, item).contains(x),
{
    if head.contains(x) {
        let i = choose|i: int| 0 <= i < head.len() && head[i] == x;
        assert(and_then(head, item)[i] == x);
    }
    if item == Some(x) {
        assert(and_then(head, item)[head.len() as int] == x);
    }
}

proof fn lemma_written_holds(e: EntryModel, name: Seq<char>, value: Seq<char>)
    requires
        e.written_members().contains(json::json_member(name, value)),
    ensures
        json::holds_text(e.written(), "\""@ + name + "\":"@ + value),
{
    let ms = e.written_members();
    let i = choose|i: int| 0 <= i < ms.len() && ms[i] == json::json_member(name, value);
    json::law_objects_and_arrays_hold_their_items(ms, i, name, value);
}

/// Whatever an entry has is written in it, under its name: nothing is left out of what a restore
/// reads.
pub proof fn law_an_entry_is_written_with_all_that_it_has(e: EntryModel)
    ensures
        json::holds_text(e.written(), "\""@ + "name"@ + "\":"@ + json::json_string(e.name)),
        json::holds_text(
            e.written(),
            "\""@ + "kind"@ + "\":"@ + json::json_string(
                match e.kind {
                    EntryKind::File => "file"@,
                    EntryKind::Symlink => "symlink"@,
                    EntryKind::Dir => "dir"@,
                    EntryKind::HardlinkGroup => "hardlink-group"@,
                },
            ),
        ),
        json::holds_text(e.written(), "\""@ + "mode"@ + "\":"@ + text::decimal(e.mode)),
        json::holds_text(e.written(), "\""@ + "size"@ + "\":"@ + text::decimal(e.size)),
        json::holds_text(e.written(), "\""@ + "mtime"@ + "\":"@ + json::json_int(e.mtime)),
        e.target matches Some(t) ==> json::holds_text(
            e.written(),
            "\""@ + "target"@ + "\":"@ + json::json_string(t),
        ),
        e.child matches Some(t) ==> json::holds_text(
            e.written(),
            "\""@ + "child"@ + "\":"@ + json::json_string(t),
        ),
        e.group matches Some(t) ==> json::holds_text(
            e.written(),
            "\""@ + "group"@ + "\":"@ + json::json_string(t),
        ),
        e.torn == Some(true) ==> json::holds_text(
            e.written(),
            "\""@ + "torn"@ + "\":"@ + "true"@,
        ),
        e.chunks matches Some(ids) ==> json::holds_text(
            e.written(),
            "\""@ + "chunks"@ + "\":"@ + json::json_array(
                Seq::new(ids.len(), |i: int| json::json_string(chunk::hex_text(ids[i]))),
            ),
        ),
{
    let m0 = seq![
        json::json_member("name"@, json::json_string(e.name)),
        json::json_member("kind"@, json::json_string(e.kind.name())),
        json::json_member("mode"@, text::decimal(e.mode)),
        json::json_member("size"@, text::decimal(e.size)),
        json::json_member("mtime"@, json::json_int(e.mtime)),
    ];
    let chunks = match e.chunks {
        Some(ids) => Some(json::json_array(written_ids(ids))),
        None => None,
    };
    let torn = match e.torn {
        Some(true) => Some("true"@),
        Some(false) => Some("false"@),
        None => None,
    };
    let c = opt_member("chunks"@, chunks);
    let t = opt_member("target"@, opt_string(e.target));
    let d = opt_member("child"@, opt_string(e.child));
    let g = opt_member("group"@, opt_string(e.group));
    let o = opt_member("torn"@, torn);
    let m1 = and_then(m0, c);
    let m2 = and_then(m1, t);
    let m3 = and_then(m2, d);
    let m4 = and_then(m3, g);
    assert forall|x: Seq<char>| m0.contains(x) || c == Some(x) || t == Some(x) || d == Some(x) || g
        == Some(x) || o == Some(x) implies #[trigger] e.written_members().contains(x) by {
        lemma_and_then(m0, c, x);
        lemma_and_then(m1, t, x);
        lemma_and_then(m2, d, x);
        lemma_and_then(m3, g, x);
        lemma_and_then(m4, o, x);
    }
    assert(m0.contains(m0[0]) && m0.contains(m0[1]) && m0.contains(m0[2]) && m0.contains(m0[3])
        && m0.contains(m0[4]));
    lemma_written_holds(e, "name"@, json::json_string(e.name));
    lemma_written_holds(e, "kind"@, json::json_string(e.kind.name()));
    lemma_written_holds(e, "mode"@, text::decimal(e.mode));
    lemma_written_holds(e, "size"@, text::decimal(e.size));
    lemma_written_holds(e, "mtime"@, json::json_int(e.mtime));
    if let Some(x) = e.target {
        assert(t == Some(json::json_member("target"@, json::json_string(x))));
        lemma_written_holds(e, "target"@, json::json_string(x));
    }
    if let Some(x) = e.child {
        assert(d == Some(json::json_member("child"@, json::json_string(x))));
        lemma_written_holds(e, "child"@, json::json_string(x));
    }
    if let Some(x) = e.group {
        assert(g == Some(json::json_member("group"@, json::json_string(x))));
        lemma_written_holds(e, "group"@, json::json_string(x));
    }
    if e.torn == Some(true) {
        assert(o == Some(json::json_member("torn"@, "true"@)));
        lemma_written_holds(e, "torn"@, "true"@);
    }
    if let Some(ids) = e.chunks {
        let list = Seq::new(ids.len(), |i: int| json::json_string(chunk::hex_text(ids[i])));
        assert(written_ids(ids) =~= list);
        assert(c == Some(json::json_member("chunks"@, json::json_array(list))));
        lemma_written_holds(e, "chunks"@, json::json_array(list));
    }
}

proof fn lemma_put_in_holds(s: Seq<EntryModel>, e: EntryModel)
    ensures
        put_in(s, e).contains(e),
        forall|i: int| 0 <= i < s.len() ==> put_in(s, e).contains(#[trigger] s[i]),
        put_in(s, e).len() == s.len() + 1,
    decreases s.len(),
{
    let all = put_in(s, e);
    if s.len() == 0 {
        assert(all[0] == e);
    } else if text::text_less(e.name, s.last().name) {
        let front = s.drop_last();
        lemma_put_in_holds(front, e);
        let inner = put_in(front, e);
        let k = choose|k: int| 0 <= k < inner.len() && inner[k] == e;
        assert(all[k] == e);
        assert forall|i: int| 0 <= i < s.len() implies all.contains(#[trigger] s[i]) by {
            if i < front.len() {
                assert(front[i] == s[i]);
                let j = choose|j: int| 0 <= j < inner.len() && inner[j] == front[i];
                assert(all[j] == s[i]);
            } else {
                assert(all[inner.len() as int] == s[i]);
            }
        }
    } else {
        assert(all[s.len() as int] == e);
        assert forall|i: int| 0 <= i < s.len() implies all.contains(#[trigger] s[i]) by {
            assert(all[i] == s[i]);
        }
    }
}

proof fn lemma_sorted_holds(s: Seq<EntryModel>, i: int)
    requires
        0 <= i < s.len(),
    ensures
        sorted(s).contains(s[i]),
    decreases s.len(),
{
    let front = sorted(s.drop_last());
    lemma_put_in_holds(front, s.last());
    if i < s.len() - 1 {
        lemma_sorted_holds(s.drop_last(), i);
        let k = choose|k: int| 0 <= k < front.len() && front[k] == s[i];
        assert(put_in(front, s.last()).contains(front[k]));
    }
}

/// A dir object is written with each of its entries, whole, and is named by what was written; the
/// order in which they were given makes no difference.
pub proof fn law_a_directory_is_written_with_every_entry(
    entries: Vec<DirEntry>,
    obj: DirObject,
    r: EncodedDir,
    i: int,
)
    requires
        call_ensures(DirObject::new, (entries,), obj),
        call_ensures(DirObject::encode, (&obj,), r),
        0 <= i < entries@.len(),
    ensures
        obj.entries@.len() == entries@.len(),
        order::views(obj.entries@).contains(entries@[i]@),
        exists|t: Seq<char>|
            r.bytes@ == #[trigger] vstd::utf8::encode_utf8(t) && json::holds_text(
                t,
                entries@[i]@.written(),
            ),
        r.sha256@ == chunk::content_name(r.bytes@),
{
    let given = order::views(entries@);
    let ev = order::views(obj.entries@);
    assert(given.len() == entries@.len() && ev.len() == obj.entries@.len());
    assert(given[i] == entries@[i]@);
    lemma_sorted_len(given);
    lemma_sorted_holds(given, i);
    let a = choose|a: int| 0 <= a < ev.len() && ev[a] == given[i];
    lemma_sorted_holds(ev, a);
    let inner = sorted(ev);
    let k = choose|k: int| 0 <= k < inner.len() && inner[k] == given[i];
    let list = written_entries(inner);
    assert(list[k] == given[i].written());
    json::law_objects_and_arrays_hold_their_items(list, k, Seq::empty(), Seq::empty());
    let t = DirObject::written(ev);
    let member = json::json_member("entries"@, json::json_array(list));
    let before = seq!['"'] + "entries"@ + seq!['"', ':'];
    json::lemma_holds_inside(before, json::json_array(list), Seq::empty(), list[k]);
    assert(before + json::json_array(list) + Seq::<char>::empty() =~= member);
    let one = seq![member];
    json::lemma_list_holds(one, 0);
    assert(json::json_list(one) == member);
    json::lemma_holds_inside(seq!['{'], member, seq!['}'], list[k]);
    assert(t == seq!['{'] + member + seq!['}']);
    assert(r.bytes@ == vstd::utf8::encode_utf8(t));
}

proof fn lemma_sorted_len(s: Seq<EntryModel>)
    ensures
        sorted(s).len() == s.len(),
    decreases s.len(),
{
    if s.len() > 0 {
        lemma_sorted_len(s.drop_last());
        lemma_put_in_holds(sorted(s.drop_last()), s.last());
    }
}

/// What the constructors of entries make: each kind with what belongs to it and nothing else.
pub proof fn law_entries_are_made_of_what_belongs_to_them(
    name: String,
    mode: u32,
    size: u64,
    mtime: i64,
    chunks: Vec<ChunkId>,
    other: String,
    file: DirEntry,
    link: DirEntry,
    dir: DirEntry,
    member: DirEntry,
)
    requires
        call_ensures(DirEntry::file, (name, mode, size, mtime, chunks), file),
        call_ensures(DirEntry::symlink, (name, mode, mtime, other), link),
        call_ensures(DirEntry::dir, (name, mode, mtime, other), dir),
        call_ensures(DirEntry::hardlink, (name, mode, size, mtime, other), member),
    ensures
        file.kind == EntryKind::File && file.chunks == Some(chunks) && file.size == size
            && file.target is None && file.child is None,
        link.kind == EntryKind::Symlink && link.target == Some(other) && link.chunks is None
            && link.child is None,
        dir.kind == EntryKind::Dir && dir.child == Some(other) && dir.chunks is None
            && dir.target is None,
        member.kind == EntryKind::HardlinkGroup && member.target == Some(other) && member.size
            == size && member.chunks is None,
        file.name == name && link.name == name && dir.name == name && member.name == name,
        file.mode == mode && link.mode == mode && dir.mode == mode && member.mode == mode,
        file.mtime == mtime && link.mtime == mtime && dir.mtime == mtime && member.mtime == mtime,
        file.torn is None && file.group is None,
{
}

} // verus!
