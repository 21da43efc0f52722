//! Object keys: every session-private object lives under `captures/<worktree>/<epoch>/…`.

use vstd::prelude::*;
use vstd::string::*;
use crate::chunk;
use crate::text;

verus! {

/// The epoch prefix a capture writes under.
#[derive(Debug, Clone, PartialEq, Eq)]
pub struct KeyPrefix {
    /// Worktree id.
    pub worktree_id: String,
    /// Lease epoch.
    pub epoch: u64,
}

/// `captures/<worktree>/<epoch>`.
pub open spec fn base_key(worktree_id: Seq<char>, epoch: nat) -> Seq<char> {
    "captures/"@ + worktree_id + "/"@ + text::decimal(epoch)
}

impl KeyPrefix {
    /// `captures/<worktree>/<epoch>`.
    pub open spec fn base_text(&self) -> Seq<char> {
        base_key(self.worktree_id@, self.epoch as nat)
    }

    /// The key of a pack.
    pub open spec fn pack_text(&self, sha256: Seq<char>) -> Seq<char> {
        self.base_text() + "/packs/"@ + sha256
    }

    /// The key of a git pack's index.
    pub open spec fn pack_idx_text(&self, sha256: Seq<char>) -> Seq<char> {
        self.pack_text(sha256) + ".idx"@
    }

    /// The key of a dir object.
    pub open spec fn tree_text(&self, sha256: Seq<char>) -> Seq<char> {
        self.base_text() + "/trees/"@ + sha256
    }

    /// The key of a manifest.
    pub open spec fn manifest_text(&self, capture_id: Seq<char>) -> Seq<char> {
        self.base_text() + "/manifests/"@ + capture_id
    }

    /// `captures/<worktree>/<epoch>`.
    pub fn base(&self) -> (r: String)
        ensures
            r@ == self.base_text(),
    {
        let mut out: String = "captures/".to_owned();
        out.append(self.worktree_id.as_str());
        out.append("/");
        out.append(text::dec(self.epoch).as_str());
        out
    }

    /// Key of a pack (git or CDC) by its sha256.
    pub fn pack(&self, sha256: &str) -> (r: String)
        ensures
            r@ == self.pack_text(sha256@),
    {
        let mut out: String = self.base();
        out.append("/packs/");
        out.append(sha256);
        out
    }

    /// Key of a git pack's `.idx`.
    pub fn pack_idx(&self, sha256: &str) -> (r: String)
        ensures
            r@ == self.pack_idx_text(sha256@),
    {
        let mut out: String = self.pack(sha256);
        out.append(".idx");
        out
    }

    /// Key of a dir object.
    pub fn tree(&self, sha256: &str) -> (r: String)
        ensures
            r@ == self.tree_text(sha256@),
    {
        let mut out: String = self.base();
        out.append("/trees/");
        out.append(sha256);
        out
    }

    /// Key of a manifest by capture id.
    pub fn manifest(&self, capture_id: &str) -> (r: String)
        ensures
            r@ == self.manifest_text(capture_id@),
    {
        let mut out: String = self.base();
        out.append("/manifests/");
        out.append(capture_id);
        out
    }
}

/// The last `/`-separated segment of a key.
pub open spec fn last_segment(key: Seq<char>) -> Seq<char> {
    key.skip(text::last_index(key, '/') + 1)
}

/// `s` without one `.idx` at its end.
pub open spec fn without_idx(s: Seq<char>) -> Seq<char> {
    if text::has_suffix(s, ".idx"@) {
        s.take(s.len() - ".idx"@.len())
    } else {
        s
    }
}

/// Whether `s` is written like a sha256: sixty-four hex digits.
pub open spec fn is_digest_name(s: Seq<char>) -> bool {
    s.len() == 64 && forall|i: int| 0 <= i < s.len() ==> chunk::hex_value(#[trigger] s[i]) is Some
}

/// The content hash a key names, if it is a content-addressed key.
pub open spec fn named_digest(key: Seq<char>) -> Option<Seq<char>> {
    let name = without_idx(last_segment(key));
    if is_digest_name(name) {
        Some(name)
    } else {
        None
    }
}

/// The content hash a key names (the last path segment, minus a `.idx` suffix), if it is a
/// content-addressed key.
pub fn key_digest(key: &str) -> (r: Option<&str>)
    ensures
        match r {
            Some(d) => named_digest(key@) == Some(d@),
            None => named_digest(key@) is None,
        },
{
    let n: usize = key.unicode_len();
    proof {
        text::lemma_last_index(key@, '/');
    }
    let last: &str = match text::rfind(key, '/') {
        Some(i) => key.substring_char(i + 1, n),
        None => key.substring_char(0, n),
    };
    assert(last@ =~= last_segment(key@));
    let m: usize = last.unicode_len();
    let digest: &str = if text::ends_with(last, ".idx") {
        proof {
            reveal_strlit(".idx");
        }
        last.substring_char(0, m - 4)
    } else {
        last
    };
    proof {
        reveal_strlit(".idx");
        assert(digest@ =~= without_idx(last@));
    }
    let digits: Vec<char> = text::chars_of(digest);
    if digits.len() != 64 {
        return None;
    }
    let mut i: usize = 0;
    while i < 64
        invariant
            0 <= i <= 64,
            digits@ == digest@,
            digits@.len() == 64,
            forall|j: int| 0 <= j < i ==> chunk::hex_value(#[trigger] digest@[j]) is Some,
            digest@ == without_idx(last_segment(key@)),
        decreases 64 - i,
    {
        let c: char = digits[i];
        let is_digit: bool = ('0' <= c && c <= '9') || ('a' <= c && c <= 'f') || ('A' <= c && c
            <= 'F');
        if !is_digit {
            assert(chunk::hex_value(digest@[i as int]) is None);
            return None;
        }
        i = i + 1;
    }
    Some(digest)
}

/// Whether `key` names a git pack index.
pub fn is_idx_key(key: &str) -> (r: bool)
    ensures
        r == text::has_suffix(key@, ".idx"@),
{
    text::ends_with(key, ".idx")
}

/// What follows the last slash of a key made of a slash and a name without one is the name.
proof fn lemma_last_segment(front: Seq<char>, name: Seq<char>)
    requires
        front.len() > 0,
        front.last() == '/',
        forall|i: int| 0 <= i < name.len() ==> name[i] != '/',
    ensures
        last_segment(front + name) == name,
{
    let key = front + name;
    assert forall|j: int| front.len() - 1 < j < key.len() implies key[j] != '/' by {
        assert(key[j] == name[j - front.len()]);
    }
    text::lemma_last_index_is(key, '/', front.len() - 1);
    assert(last_segment(key) =~= name);
}

/// A digest name holds no slash and does not end in `.idx`.
proof fn lemma_digest_name(d: Seq<char>)
    requires
        is_digest_name(d),
    ensures
        forall|i: int| 0 <= i < d.len() ==> d[i] != '/',
        !text::has_suffix(d, ".idx"@),
        without_idx(d + ".idx"@) == d,
{
    reveal_strlit(".idx");
    assert forall|i: int| 0 <= i < d.len() implies d[i] != '/' by {
        assert(chunk::hex_value(d[i]) is Some);
    }
    assert(chunk::hex_value(d[60]) is Some);
    assert(d.skip(60)[0] == d[60]);
    let e = d + ".idx"@;
    assert(e.skip(e.len() - 4) =~= ".idx"@);
    assert(e.take(e.len() - 4) =~= d);
}

/// Every content-addressed key gives back the digest it was made from.
pub proof fn law_keys_name_their_digest(p: KeyPrefix, d: Seq<char>)
    requires
        is_digest_name(d),
    ensures
        named_digest(p.pack_text(d)) == Some(d),
        named_digest(p.pack_idx_text(d)) == Some(d),
        named_digest(p.tree_text(d)) == Some(d),
        named_digest(p.manifest_text(d)) == Some(d),
        text::has_suffix(p.pack_idx_text(d), ".idx"@),
        !text::has_suffix(p.pack_text(d), ".idx"@),
{
    reveal_strlit("/packs/");
    reveal_strlit("/trees/");
    reveal_strlit("/manifests/");
    reveal_strlit(".idx");
    lemma_digest_name(d);
    lemma_last_segment(p.base_text() + "/packs/"@, d);
    lemma_last_segment(p.base_text() + "/trees/"@, d);
    lemma_last_segment(p.base_text() + "/manifests/"@, d);
    let named = d + ".idx"@;
    assert forall|i: int| 0 <= i < named.len() implies named[i] != '/' by {
        if i >= 64 {
            assert(named[i] == ".idx"@[i - 64]);
        }
    }
    lemma_last_segment(p.base_text() + "/packs/"@, named);
    assert(p.pack_idx_text(d) =~= p.base_text() + "/packs/"@ + named);
    assert(p.pack_idx_text(d).skip(p.pack_idx_text(d).len() - 4) =~= ".idx"@);
    let k = p.pack_text(d);
    assert(k.skip(k.len() - 4) =~= d.skip(60));
}

/// A new epoch never finds the bytes of an earlier one in the place of its own: under one worktree,
/// no two epochs share a key.
pub proof fn law_epochs_share_no_key(p: KeyPrefix, q: KeyPrefix, d: Seq<char>, e: Seq<char>)
    requires
        p.worktree_id@ == q.worktree_id@,
        p.epoch != q.epoch,
    ensures
        p.pack_text(d) != q.pack_text(e),
        p.pack_idx_text(d) != q.pack_idx_text(e),
        p.tree_text(d) != q.tree_text(e),
        p.manifest_text(d) != q.manifest_text(e),
{
    reveal_strlit("/packs/");
    reveal_strlit("/trees/");
    reveal_strlit("/manifests/");
    let stem = "captures/"@ + p.worktree_id@ + "/"@;
    let (a, b) = (p.epoch as nat, q.epoch as nat);
    assert(p.base_text() =~= stem + text::decimal(a));
    assert(q.base_text() =~= stem + text::decimal(b));
    lemma_epochs_differ(stem, a, b, "/packs/"@ + d, "/packs/"@ + e);
    lemma_epochs_differ(stem, a, b, "/packs/"@ + d + ".idx"@, "/packs/"@ + e + ".idx"@);
    lemma_epochs_differ(stem, a, b, "/trees/"@ + d, "/trees/"@ + e);
    lemma_epochs_differ(stem, a, b, "/manifests/"@ + d, "/manifests/"@ + e);
    assert(p.pack_text(d) =~= stem + text::decimal(a) + ("/packs/"@ + d));
    assert(q.pack_text(e) =~= stem + text::decimal(b) + ("/packs/"@ + e));
    assert(p.pack_idx_text(d) =~= stem + text::decimal(a) + ("/packs/"@ + d + ".idx"@));
    assert(q.pack_idx_text(e) =~= stem + text::decimal(b) + ("/packs/"@ + e + ".idx"@));
    assert(p.tree_text(d) =~= stem + text::decimal(a) + ("/trees/"@ + d));
    assert(q.tree_text(e) =~= stem + text::decimal(b) + ("/trees/"@ + e));
    assert(p.manifest_text(d) =~= stem + text::decimal(a) + ("/manifests/"@ + d));
    assert(q.manifest_text(e) =~= stem + text::decimal(b) + ("/manifests/"@ + e));
}

proof fn lemma_epochs_differ(stem: Seq<char>, a: nat, b: nat, x: Seq<char>, y: Seq<char>)
    requires
        a != b,
        x.len() > 0 && x[0] == '/',
        y.len() > 0 && y[0] == '/',
    ensures
        stem + text::decimal(a) + x != stem + text::decimal(b) + y,
{
    let (da, db) = (text::decimal(a), text::decimal(b));
    let (l, r) = (stem + da + x, stem + db + y);
    if l == r {
        text::lemma_decimal_digits(a);
        text::lemma_decimal_digits(b);
        let n = stem.len() as int;
        if da.len() < db.len() {
            assert(l[n + da.len()] == '/');
            assert(r[n + da.len()] == db[da.len() as int]);
        } else if db.len() < da.len() {
            assert(r[n + db.len()] == '/');
            assert(l[n + db.len()] == da[db.len() as int]);
        } else {
            assert forall|i: int| 0 <= i < da.len() implies da[i] == db[i] by {
                assert(l[n + i] == da[i] && r[n + i] == db[i]);
            }
            assert(da =~= db);
            text::lemma_decimal_injective(a, b);
        }
    }
}

/// Where each object of a worktree's epoch lies, and which digest its key names.
pub proof fn law_objects_lie_under_their_epoch(
    p: KeyPrefix,
    d: &str,
    base: String,
    pack: String,
    idx: String,
    tree: String,
    manifest: String,
    pack_key: &str,
    named: Option<&str>,
    idx_key: &str,
    is_idx: bool,
)
    requires
        call_ensures(KeyPrefix::base, (&p,), base),
        call_ensures(KeyPrefix::pack, (&p, d), pack),
        call_ensures(KeyPrefix::pack_idx, (&p, d), idx),
        call_ensures(KeyPrefix::tree, (&p, d), tree),
        call_ensures(KeyPrefix::manifest, (&p, d), manifest),
        pack_key@ == pack@,
        call_ensures(key_digest, (pack_key,), named),
        idx_key@ == idx@,
        call_ensures(is_idx_key, (idx_key,), is_idx),
    ensures
        base@ == "captures/"@ + p.worktree_id@ + "/"@ + text::decimal(p.epoch as nat),
        pack@ == base@ + "/packs/"@ + d@,
        idx@ == pack@ + ".idx"@,
        tree@ == base@ + "/trees/"@ + d@,
        manifest@ == base@ + "/manifests/"@ + d@,
        is_digest_name(d@) ==> named is Some && named->0@ == d@,
        is_idx,
{
    if is_digest_name(d@) {
        law_keys_name_their_digest(p, d@);
    }
    let s = idx@;
    assert(s.skip(s.len() - ".idx"@.len()) =~= ".idx"@);
}

/// A key names a digest only if what follows its last slash is one, an `.idx` aside.
pub proof fn law_only_digests_are_named(key: &str, r: Option<&str>, i: int)
    requires
        call_ensures(key_digest, (key,), r),
    ensures
        r matches Some(d) ==> d@.len() == 64 && (0 <= i < 64 ==> '0' <= d@[i] <= '9' || 'a' <= d@[i]
            <= 'f' || 'A' <= d@[i] <= 'F'),
        r matches Some(d) ==> text::has_suffix(key@, d@) || text::has_suffix(
            key@,
            d@ + ".idx"@,
        ),
{
    if let Some(d) = r {
        assert(is_digest_name(d@));
        if 0 <= i < 64 {
            assert(chunk::hex_value(d@[i]) is Some);
        }
        text::lemma_last_index(key@, '/');
        let s = last_segment(key@);
        assert(key@.skip(key@.len() - s.len()) =~= s);
        if text::has_suffix(s, ".idx"@) {
            let whole = d@ + ".idx"@;
            assert(s =~= whole);
            assert(key@.skip(key@.len() - whole.len()) =~= whole);
        } else {
            assert(key@.skip(key@.len() - d@.len()) =~= d@);
        }
    }
}

} // verus!
