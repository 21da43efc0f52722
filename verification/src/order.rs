//! Keys in a total order, and the sets and maps kept in that order.
//!
//! A key is ordered by its rank, a sequence of integers compared entry by entry. Text ranks by
//! its characters and a digest by its bytes, so the order of keys is the order in which the
//! store lists them.

use vstd::prelude::*;
use crate::text;

verus! {

/// Whether `a` comes strictly before `b`: the first entry in which they differ decides, and a
/// proper prefix comes first.
pub open spec fn rank_less(a: Seq<int>, b: Seq<int>) -> bool
    decreases a.len(),
{
    if b.len() == 0 {
        false
    } else if a.len() == 0 {
        true
    } else if a[0] != b[0] {
        a[0] < b[0]
    } else {
        rank_less(a.drop_first(), b.drop_first())
    }
}

/// What decides between two ranks of one length decides whatever follows them.
pub proof fn lemma_rank_then(a: Seq<int>, b: Seq<int>, x: Seq<int>, y: Seq<int>)
    requires
        a.len() == b.len(),
        rank_less(a, b),
    ensures
        rank_less(a + x, b + y),
    decreases a.len(),
{
    assert((a + x)[0] == a[0] && (b + y)[0] == b[0]);
    if a[0] == b[0] {
        lemma_rank_then(a.drop_first(), b.drop_first(), x, y);
        assert((a + x).drop_first() =~= a.drop_first() + x);
        assert((b + y).drop_first() =~= b.drop_first() + y);
    }
}

/// What two ranks begin with in common decides nothing.
pub proof fn lemma_rank_common(p: Seq<int>, x: Seq<int>, y: Seq<int>)
    requires
        rank_less(x, y),
    ensures
        rank_less(p + x, p + y),
    decreases p.len(),
{
    if p.len() == 0 {
        assert(p + x =~= x && p + y =~= y);
    } else {
        lemma_rank_common(p.drop_first(), x, y);
        assert((p + x)[0] == p[0] && (p + y)[0] == p[0]);
        assert((p + x).drop_first() =~= p.drop_first() + x);
        assert((p + y).drop_first() =~= p.drop_first() + y);
    }
}

/// No rank comes before itself.
pub proof fn lemma_rank_irreflexive(a: Seq<int>)
    ensures
        !rank_less(a, a),
    decreases a.len(),
{
    if a.len() > 0 {
        lemma_rank_irreflexive(a.drop_first());
    }
}

/// The order of ranks is transitive.
pub proof fn lemma_rank_transitive(a: Seq<int>, b: Seq<int>, c: Seq<int>)
    requires
        rank_less(a, b),
        rank_less(b, c),
    ensures
        rank_less(a, c),
    decreases a.len(),
{
    if a.len() > 0 && a[0] == b[0] && b[0] == c[0] {
        lemma_rank_transitive(a.drop_first(), b.drop_first(), c.drop_first());
    }
}

/// Any two different ranks are ordered one way or the other.
pub proof fn lemma_rank_total(a: Seq<int>, b: Seq<int>)
    ensures
        a == b || rank_less(a, b) || rank_less(b, a),
    decreases a.len(),
{
    if a.len() > 0 && b.len() > 0 && a[0] == b[0] {
        lemma_rank_total(a.drop_first(), b.drop_first());
        if a.drop_first() == b.drop_first() {
            assert(a =~= seq![a[0]] + a.drop_first());
            assert(b =~= seq![b[0]] + b.drop_first());
        }
    } else if a.len() == 0 && b.len() == 0 {
        assert(a =~= b);
    }
}

/// No two ranks come before each other.
pub proof fn lemma_rank_asymmetric(a: Seq<int>, b: Seq<int>)
    requires
        rank_less(a, b),
    ensures
        !rank_less(b, a),
{
    if rank_less(b, a) {
        lemma_rank_transitive(a, b, a);
        lemma_rank_irreflexive(a);
    }
}

/// A key: a value with a rank that no other value of its kind has.
pub trait Key: View + Sized {
    /// The rank of a key.
    spec fn rank(v: Self::V) -> Seq<int>;

    /// Different keys have different ranks.
    proof fn rank_is_injective(a: Self::V, b: Self::V)
        requires
            Self::rank(a) == Self::rank(b),
        ensures
            a == b,
    ;

    /// Whether this key comes before `other`.
    fn before(&self, other: &Self) -> (r: bool)
        ensures
            r == rank_less(Self::rank(self@), Self::rank(other@)),
    ;
}

/// What the keys of `s` stand for.
pub open spec fn views<K: View>(s: Seq<K>) -> Seq<K::V> {
    Seq::new(s.len(), |i: int| s[i]@)
}

/// Whether keys stand in strictly ascending order, which leaves no room for a repetition.
pub open spec fn ascending<K: Key>(s: Seq<K>) -> bool {
    forall|i: int, j: int|
        0 <= i < j < s.len() ==> rank_less(K::rank(#[trigger] s[i]@), K::rank(#[trigger] s[j]@))
}

/// Keys in ascending order are all different.
pub proof fn lemma_ascending_distinct<K: Key>(s: Seq<K>, i: int, j: int)
    requires
        ascending(s),
        0 <= i < s.len(),
        0 <= j < s.len(),
        s[i]@ == s[j]@,
    ensures
        i == j,
{
    lemma_rank_irreflexive(K::rank(s[i]@));
}

/// Whether `k` is one of the keys `s`.
pub open spec fn holds<K: View>(s: Seq<K>, k: K::V) -> bool {
    exists|i: int| 0 <= i < s.len() && #[trigger] s[i]@ == k
}

/// The position of a key, or the position at which it would have to be inserted.
pub fn position<K: Key>(keys: &Vec<K>, k: &K) -> (r: (bool, usize))
    requires
        ascending(keys@),
    ensures
        r.1 <= keys@.len(),
        r.0 ==> r.1 < keys@.len() && keys@[r.1 as int]@ == k@,
        !r.0 ==> !holds(keys@, k@),
        forall|i: int|
            0 <= i < r.1 ==> rank_less(K::rank(#[trigger] keys@[i]@), K::rank(k@)),
        forall|i: int|
            r.1 <= i < keys@.len() && !(r.0 && i == r.1) ==> rank_less(
                K::rank(k@),
                K::rank(#[trigger] keys@[i]@),
            ),
{
    let mut lo: usize = 0;
    let mut hi: usize = keys.len();
    while lo < hi
        invariant
            lo <= hi <= keys@.len(),
            ascending(keys@),
            forall|i: int|
                0 <= i < lo ==> rank_less(K::rank(#[trigger] keys@[i]@), K::rank(k@)),
            forall|i: int|
                hi <= i < keys@.len() ==> !rank_less(K::rank(#[trigger] keys@[i]@), K::rank(k@)),
        decreases hi - lo,
    {
        let mid: usize = lo + (hi - lo) / 2;
        if keys[mid].before(k) {
            proof {
                assert forall|i: int| 0 <= i < mid + 1 implies rank_less(
                    K::rank(#[trigger] keys@[i]@),
                    K::rank(k@),
                ) by {
                    if i < mid {
                        lemma_rank_transitive(
                            K::rank(keys@[i]@),
                            K::rank(keys@[mid as int]@),
                            K::rank(k@),
                        );
                    }
                }
            }
            lo = mid + 1;
        } else {
            proof {
                assert forall|i: int| mid <= i < keys@.len() implies !rank_less(
                    K::rank(#[trigger] keys@[i]@),
                    K::rank(k@),
                ) by {
                    if i > mid && rank_less(K::rank(keys@[i]@), K::rank(k@)) {
                        lemma_rank_transitive(
                            K::rank(keys@[mid as int]@),
                            K::rank(keys@[i]@),
                            K::rank(k@),
                        );
                    }
                }
            }
            hi = mid;
        }
    }
    let found: bool = lo < keys.len() && !k.before(&keys[lo]);
    proof {
        assert forall|i: int| lo <= i < keys@.len() implies rank_less(
            K::rank(k@),
            K::rank(#[trigger] keys@[i]@),
        ) || (i == lo && keys@[i]@ == k@) by {
            lemma_rank_total(K::rank(keys@[i]@), K::rank(k@));
            if K::rank(keys@[i]@) == K::rank(k@) {
                K::rank_is_injective(keys@[i]@, k@);
                if i > lo {
                    assert(rank_less(K::rank(keys@[lo as int]@), K::rank(keys@[i]@)));
                }
            }
        }
        if found {
            lemma_rank_total(K::rank(keys@[lo as int]@), K::rank(k@));
            K::rank_is_injective(keys@[lo as int]@, k@);
            lemma_rank_irreflexive(K::rank(k@));
            assert forall|i: int| lo < i < keys@.len() implies rank_less(
                K::rank(k@),
                K::rank(#[trigger] keys@[i]@),
            ) by {
                assert(rank_less(K::rank(keys@[lo as int]@), K::rank(keys@[i]@)));
            }
        } else {
            if holds(keys@, k@) {
                let i = choose|i: int| 0 <= i < keys@.len() && #[trigger] keys@[i]@ == k@;
                lemma_rank_irreflexive(K::rank(k@));
                if i < lo {
                    assert(rank_less(K::rank(keys@[i]@), K::rank(k@)));
                } else {
                    assert(rank_less(K::rank(k@), K::rank(keys@[i]@)) || i == lo);
                }
            }
        }
    }
    (found, lo)
}

/// A set of keys, kept in ascending order.
pub struct SortedSet<K> {
    /// The keys, ascending.
    pub items: Vec<K>,
}

impl<K: Key> SortedSet<K> {
    /// Whether the keys are in ascending order.
    pub open spec fn wf(&self) -> bool {
        ascending(self.items@)
    }

    /// Whether `k` is in the set.
    pub open spec fn has(&self, k: K::V) -> bool {
        holds(self.items@, k)
    }

    /// The empty set.
    pub fn new() -> (r: Self)
        ensures
            r.wf(),
            r.items@.len() == 0,
            forall|k: K::V| !r.has(k),
    {
        SortedSet { items: Vec::new() }
    }

    /// Whether `k` is in the set.
    pub fn contains(&self, k: &K) -> (r: bool)
        requires
            self.wf(),
        ensures
            r == self.has(k@),
    {
        let (found, at) = position(&self.items, k);
        found
    }

    /// Add `k`; true when it was not there before.
    pub fn insert(&mut self, k: K) -> (r: bool)
        requires
            old(self).wf(),
        ensures
            final(self).wf(),
            r == !old(self).has(k@),
            forall|x: K::V| #[trigger] final(self).has(x) <==> old(self).has(x) || x == k@,
            !r ==> final(self).items@ == old(self).items@,
            forall|i: int|
                0 <= i < final(self).items@.len() ==> #[trigger] final(self).items@[i] == k
                    || old(self).items@.contains(final(self).items@[i]),
    {
        let (found, at) = position(&self.items, &k);
        if found {
            assert(forall|i: int| 0 <= i < self.items@.len() ==> self.items@.contains(#[trigger] self.items@[i]));
            false
        } else {
            let ghost before = self.items@;
            self.items.insert(at, k);
            proof {
                let after = self.items@;
                assert(after == before.insert(at as int, k));
                assert forall|x: K::V| #[trigger] holds(after, x) <==> holds(before, x) || x == k@ by {
                    if holds(before, x) {
                        let i = choose|i: int| 0 <= i < before.len() && #[trigger] before[i]@ == x;
                        if i < at {
                            assert(after[i]@ == x);
                        } else {
                            assert(after[i + 1]@ == x);
                        }
                    }
                    if x == k@ {
                        assert(after[at as int]@ == x);
                    }
                    if holds(after, x) {
                        let i = choose|i: int| 0 <= i < after.len() && #[trigger] after[i]@ == x;
                        if i < at {
                            assert(before[i]@ == x);
                        } else if i > at {
                            assert(before[i - 1]@ == x);
                        }
                    }
                }
                assert forall|i: int, j: int| 0 <= i < j < after.len() implies rank_less(
                    K::rank(#[trigger] after[i]@),
                    K::rank(#[trigger] after[j]@),
                ) by {
                    let oi = if i < at { i } else { i - 1 };
                    let oj = if j < at { j } else { j - 1 };
                    if i != at {
                        assert(after[i] == before[oi]);
                    }
                    if j != at {
                        assert(after[j] == before[oj]);
                    }
                }
                assert forall|i: int| 0 <= i < after.len() implies #[trigger] after[i] == k
                    || before.contains(after[i]) by {
                    if i < at {
                        assert(after[i] == before[i]);
                    } else if i > at {
                        assert(after[i] == before[i - 1]);
                    }
                }
            }
            true
        }
    }

    /// Remove `k`; true when it was there.
    pub fn remove(&mut self, k: &K) -> (r: bool)
        requires
            old(self).wf(),
        ensures
            final(self).wf(),
            r == old(self).has(k@),
            forall|x: K::V| #[trigger] final(self).has(x) <==> old(self).has(x) && x != k@,
    {
        let (found, at) = position(&self.items, k);
        let ghost before = self.items@;
        if found {
            let gone = self.items.remove(at);
            proof {
                let after = self.items@;
                assert(after == before.remove(at as int));
                lemma_removed(before, at as int);
            }
        }
        found
    }
}

/// Taking the key at `at` out of ascending keys leaves them ascending, and leaves exactly the
/// others.
pub proof fn lemma_removed<K: Key>(before: Seq<K>, at: int)
    requires
        ascending(before),
        0 <= at < before.len(),
    ensures
        ascending(before.remove(at)),
        forall|x: K::V| #[trigger]
            holds(before.remove(at), x) <==> holds(before, x) && x != before[at]@,
{
    let after = before.remove(at);
    assert forall|i: int, j: int| 0 <= i < j < after.len() implies rank_less(
        K::rank(#[trigger] after[i]@),
        K::rank(#[trigger] after[j]@),
    ) by {
        let oi = if i < at { i } else { i + 1 };
        let oj = if j < at { j } else { j + 1 };
        assert(after[i] == before[oi]);
        assert(after[j] == before[oj]);
    }
    assert forall|x: K::V| #[trigger] holds(after, x) <==> holds(before, x) && x != before[at]@ by {
        if holds(after, x) {
            let i = choose|i: int| 0 <= i < after.len() && #[trigger] after[i]@ == x;
            let o = if i < at { i } else { i + 1 };
            assert(before[o]@ == x);
            if x == before[at]@ {
                lemma_ascending_distinct(before, o, at);
            }
        }
        if holds(before, x) && x != before[at]@ {
            let i = choose|i: int| 0 <= i < before.len() && #[trigger] before[i]@ == x;
            let n = if i < at { i } else { i - 1 };
            assert(after[n]@ == x);
        }
    }
}

/// The position of a key that `s` holds.
pub open spec fn spot<K: View>(s: Seq<K>, k: K::V) -> int {
    choose|i: int| 0 <= i < s.len() && #[trigger] s[i]@ == k
}

/// Each of ascending keys is found at its own position.
pub proof fn lemma_spot<K: Key>(s: Seq<K>, i: int)
    requires
        ascending(s),
        0 <= i < s.len(),
    ensures
        holds(s, s[i]@),
        spot(s, s[i]@) == i,
{
    assert(holds(s, s[i]@));
    let j = spot(s, s[i]@);
    assert(0 <= j < s.len() && s[j]@ == s[i]@);
    lemma_ascending_distinct(s, i, j);
}

/// A map from keys to values, kept in the ascending order of its keys.
pub struct SortedMap<K, V> {
    /// The keys, ascending.
    pub keys: Vec<K>,
    /// The value of each key, at the same position.
    pub values: Vec<V>,
}

impl<K: Key, V> View for SortedMap<K, V> {
    type V = Map<K::V, V>;

    open spec fn view(&self) -> Map<K::V, V> {
        Map::new(
            |k: K::V| holds(self.keys@, k),
            |k: K::V| self.values@[spot(self.keys@, k)],
        )
    }
}

impl<K: Key, V> SortedMap<K, V> {
    /// Whether the keys ascend and each has a value.
    pub open spec fn wf(&self) -> bool {
        &&& ascending(self.keys@)
        &&& self.keys@.len() == self.values@.len()
    }

    /// The entry at each position is the one that the map gives to its key.
    pub proof fn lemma_entry(&self, i: int)
        requires
            self.wf(),
            0 <= i < self.keys@.len(),
        ensures
            self@.dom().contains(self.keys@[i]@),
            self@[self.keys@[i]@] == self.values@[i],
    {
        lemma_spot(self.keys@, i);
    }

    /// The empty map.
    pub fn new() -> (r: Self)
        ensures
            r.wf(),
            r@ == Map::<K::V, V>::empty(),
            r.keys@.len() == 0,
    {
        let r = SortedMap { keys: Vec::new(), values: Vec::new() };
        assert(r@ =~= Map::<K::V, V>::empty());
        r
    }

    /// How many keys there are.
    pub fn len(&self) -> (r: usize)
        ensures
            r == self.keys@.len(),
    {
        self.keys.len()
    }

    /// Whether `k` has a value.
    pub fn contains(&self, k: &K) -> (r: bool)
        requires
            self.wf(),
        ensures
            r == self@.dom().contains(k@),
    {
        let (found, at) = position(&self.keys, k);
        proof {
            if found {
                lemma_spot(self.keys@, at as int);
            }
        }
        found
    }

    /// The value of `k`.
    pub fn get(&self, k: &K) -> (r: Option<&V>)
        requires
            self.wf(),
        ensures
            match r {
                Some(v) => self@.dom().contains(k@) && *v == self@[k@],
                None => !self@.dom().contains(k@),
            },
    {
        let (found, at) = position(&self.keys, k);
        if found {
            proof {
                lemma_spot(self.keys@, at as int);
            }
            Some(&self.values[at])
        } else {
            None
        }
    }

    /// Give `k` the value `v`, in place of the one it had.
    pub fn insert(&mut self, k: K, v: V) -> (r: Option<V>)
        requires
            old(self).wf(),
        ensures
            final(self).wf(),
            final(self)@ == old(self)@.insert(k@, v),
            match r {
                Some(w) => old(self)@.dom().contains(k@) && w == old(self)@[k@] && (exists|at: int|
                    0 <= at < old(self).values@.len() && final(self).values@ == #[trigger] old(
                        self,
                    ).values@.update(at, v)),
                None => !old(self)@.dom().contains(k@) && (exists|at: int|
                    0 <= at <= old(self).values@.len() && final(self).values@ == #[trigger] old(
                        self,
                    ).values@.insert(at, v)),
            },
    {
        let (found, at) = position(&self.keys, &k);
        let ghost keys0 = self.keys@;
        let ghost values0 = self.values@;
        if found {
            let mut w: V = v;
            std::mem::swap(&mut w, &mut self.values[at]);
            proof {
                lemma_spot(keys0, at as int);
                assert(self.values@ =~= values0.update(at as int, v));
                assert forall|x: K::V| holds(keys0, x) implies #[trigger] self@[x] == old(
                    self,
                )@.insert(k@, v)[x] by {
                    let i = spot(keys0, x);
                    assert(0 <= i < keys0.len() && keys0[i]@ == x);
                    if x != k@ {
                        assert(i != at);
                    }
                }
                assert(self@ =~= old(self)@.insert(k@, v));
            }
            Some(w)
        } else {
            self.keys.insert(at, k);
            self.values.insert(at, v);
            proof {
                assert(self.values@ == values0.insert(at as int, v));
                let keys1 = self.keys@;
                assert(keys1 == keys0.insert(at as int, k));
                assert forall|i: int, j: int| 0 <= i < j < keys1.len() implies rank_less(
                    K::rank(#[trigger] keys1[i]@),
                    K::rank(#[trigger] keys1[j]@),
                ) by {
                    let oi = if i < at { i } else { i - 1 };
                    let oj = if j < at { j } else { j - 1 };
                    if i != at {
                        assert(keys1[i] == keys0[oi]);
                    }
                    if j != at {
                        assert(keys1[j] == keys0[oj]);
                    }
                }
                assert forall|x: K::V| #[trigger] holds(keys1, x) <==> holds(keys0, x) || x
                    == k@ by {
                    if holds(keys0, x) {
                        let i = spot(keys0, x);
                        assert(0 <= i < keys0.len() && keys0[i]@ == x);
                        let n = if i < at { i } else { i + 1 };
                        assert(keys1[n]@ == x);
                    }
                    if x == k@ {
                        assert(keys1[at as int]@ == x);
                    }
                    if holds(keys1, x) {
                        let i = spot(keys1, x);
                        assert(0 <= i < keys1.len() && keys1[i]@ == x);
                        if i != at {
                            let o = if i < at { i } else { i - 1 };
                            assert(keys0[o]@ == x);
                        }
                    }
                }
                assert forall|x: K::V| holds(keys1, x) implies #[trigger] self@[x] == old(
                    self,
                )@.insert(k@, v)[x] by {
                    let i = spot(keys1, x);
                    assert(0 <= i < keys1.len() && keys1[i]@ == x);
                    if i == at {
                        assert(x == k@);
                    } else {
                        let o = if i < at { i } else { i - 1 };
                        assert(keys0[o] == keys1[i]);
                        lemma_spot(keys0, o);
                        assert(self.values@[i] == values0[o]);
                        assert(x != k@);
                    }
                }
                assert(self@ =~= old(self)@.insert(k@, v));
            }
            None
        }
    }

    /// Take `k` and its value out.
    pub fn remove(&mut self, k: &K) -> (r: Option<V>)
        requires
            old(self).wf(),
        ensures
            final(self).wf(),
            final(self)@ == old(self)@.remove(k@),
            match r {
                Some(w) => old(self)@.dom().contains(k@) && w == old(self)@[k@],
                None => !old(self)@.dom().contains(k@),
            },
    {
        let (found, at) = position(&self.keys, k);
        let ghost keys0 = self.keys@;
        let ghost values0 = self.values@;
        if found {
            let gone = self.keys.remove(at);
            let w: V = self.values.remove(at);
            proof {
                let keys1 = self.keys@;
                lemma_spot(keys0, at as int);
                lemma_removed(keys0, at as int);
                assert forall|x: K::V| holds(keys1, x) implies #[trigger] self@[x] == old(
                    self,
                )@[x] by {
                    let i = spot(keys1, x);
                    assert(0 <= i < keys1.len() && keys1[i]@ == x);
                    let o = if i < at { i } else { i + 1 };
                    assert(keys0[o] == keys1[i]);
                    lemma_spot(keys0, o);
                    assert(self.values@[i] == values0[o]);
                }
                assert(self@ =~= old(self)@.remove(k@));
            }
            Some(w)
        } else {
            assert(self@ =~= old(self)@.remove(k@));
            None
        }
    }
}

impl<K: Key, V> SortedMap<K, V> {
    /// Take the last key and its value out.
    pub fn pop(&mut self) -> (r: (K, V))
        requires
            old(self).wf(),
            old(self).keys@.len() > 0,
        ensures
            final(self).wf(),
            final(self).keys@ == old(self).keys@.drop_last(),
            r.0 == old(self).keys@.last(),
            old(self)@.dom().contains(r.0@),
            r.1 == old(self)@[r.0@],
            final(self)@ == old(self)@.remove(r.0@),
    {
        let ghost keys0 = self.keys@;
        let ghost values0 = self.values@;
        proof {
            lemma_spot(keys0, keys0.len() - 1);
        }
        let k: K = self.keys.pop().unwrap();
        let v: V = self.values.pop().unwrap();
        proof {
            let keys1 = self.keys@;
            assert forall|x: K::V| #[trigger] holds(keys1, x) <==> holds(keys0, x) && x != k@ by {
                if holds(keys1, x) {
                    let i = spot(keys1, x);
                    assert(0 <= i < keys1.len() && keys1[i]@ == x);
                    assert(keys0[i]@ == x);
                    if x == k@ {
                        lemma_ascending_distinct(keys0, i, keys0.len() - 1);
                    }
                }
                if holds(keys0, x) && x != k@ {
                    let i = spot(keys0, x);
                    assert(0 <= i < keys0.len() && keys0[i]@ == x);
                    assert(keys1[i]@ == x);
                }
            }
            assert forall|x: K::V| holds(keys1, x) implies #[trigger] self@[x] == old(self)@[x] by {
                let i = spot(keys1, x);
                assert(0 <= i < keys1.len() && keys1[i]@ == x);
                assert(keys0[i] == keys1[i]);
                lemma_spot(keys0, i);
            }
            assert(self@ =~= old(self)@.remove(k@));
        }
        (k, v)
    }

    /// Add every entry of `more`, in place of those with the same keys.
    pub fn extend(&mut self, more: SortedMap<K, V>)
        requires
            old(self).wf(),
            more.wf(),
        ensures
            final(self).wf(),
            final(self)@ == old(self)@.union_prefer_right(more@),
    {
        let ghost all = self@.union_prefer_right(more@);
        let mut mine: SortedMap<K, V> = SortedMap::new();
        std::mem::swap(&mut mine, self);
        let mut more: SortedMap<K, V> = more;
        let mut taken: Vec<(K, V)> = Vec::new();
        while mine.keys.len() > 0 || more.keys.len() > 0
            invariant
                mine.wf(),
                more.wf(),
                all == put_back(mine@.union_prefer_right(more@), taken@),
            decreases mine.keys@.len() + more.keys@.len(),
        {
            let ghost (here, there) = (mine@, more@);
            let ghost before = taken@;
            let n: usize = mine.keys.len();
            let m: usize = more.keys.len();
            if m == 0 || (n > 0 && more.keys[m - 1].before(&mine.keys[n - 1])) {
                proof {
                    lemma_past_the_last(more.keys@, mine.keys@.last()@);
                }
                let (k, v) = mine.pop();
                taken.push((k, v));
                proof {
                    assert(mine@.union_prefer_right(more@).insert(k@, v)
                        =~= here.union_prefer_right(there));
                }
            } else {
                let (k, v) = more.pop();
                taken.push((k, v));
                proof {
                    assert(mine@.union_prefer_right(more@).insert(k@, v)
                        =~= here.union_prefer_right(there));
                }
            }
            assert(taken@.drop_last() =~= before);
        }
        proof {
            assert(mine@ =~= Map::<K::V, V>::empty());
            assert(more@ =~= Map::<K::V, V>::empty());
            assert(mine@.union_prefer_right(more@) =~= Map::<K::V, V>::empty());
        }
        while taken.len() > 0
            invariant
                self.wf(),
                all == put_back(self@, taken@),
            decreases taken@.len(),
        {
            let ghost before = taken@;
            let (k, v) = taken.pop().unwrap();
            assert(taken@ =~= before.drop_last());
            let earlier: Option<V> = self.insert(k, v);
        }
    }
}

/// A map with a list of entries put in, the last one first.
pub open spec fn put_back<K: View, V>(m: Map<K::V, V>, list: Seq<(K, V)>) -> Map<K::V, V>
    decreases list.len(),
{
    if list.len() == 0 {
        m
    } else {
        put_back(m.insert(list.last().0@, list.last().1), list.drop_last())
    }
}

/// A key behind the last of ascending keys is not among them.
proof fn lemma_past_the_last<K: Key>(s: Seq<K>, k: K::V)
    requires
        ascending(s),
        s.len() > 0 ==> rank_less(K::rank(s.last()@), K::rank(k)),
    ensures
        !holds(s, k),
{
    if holds(s, k) {
        let i = spot(s, k);
        assert(0 <= i < s.len() && s[i]@ == k);
        if i < s.len() - 1 {
            assert(rank_less(K::rank(s[i]@), K::rank(s[s.len() - 1]@)));
            lemma_rank_asymmetric(K::rank(k), K::rank(s.last()@));
        } else {
            lemma_rank_irreflexive(K::rank(k));
        }
    }
}

/// The entries of a map that are flagged.
pub open spec fn flagged<K: Key, V>(m: SortedMap<K, V>, flags: Seq<bool>) -> Map<K::V, V> {
    Map::new(
        |k: K::V| holds(m.keys@, k) && flags[spot(m.keys@, k)],
        |k: K::V| m@[k],
    )
}

/// Copy the entries of a map that are flagged.
pub fn select<K: Key + Copy>(m: &SortedMap<K, String>, flags: &Vec<bool>) -> (r: SortedMap<
    K,
    String,
>)
    requires
        m.wf(),
        flags@.len() == m.keys@.len(),
    ensures
        r.wf(),
        r@ == flagged(*m, flags@),
{
    let mut out: SortedMap<K, String> = SortedMap::new();
    let mut i: usize = 0;
    while i < m.keys.len()
        invariant
            0 <= i <= m.keys@.len(),
            m.wf(),
            flags@.len() == m.keys@.len(),
            out.wf(),
            forall|k: K::V| #[trigger]
                out@.dom().contains(k) <==> holds(m.keys@, k) && spot(m.keys@, k) < i && flags@[spot(
                    m.keys@,
                    k,
                )],
            forall|k: K::V| #[trigger] out@.dom().contains(k) ==> out@[k] == m@[k],
        decreases m.keys@.len() - i,
    {
        proof {
            m.lemma_entry(i as int);
            lemma_spot(m.keys@, i as int);
            assert forall|k: K::V| holds(m.keys@, k) && spot(m.keys@, k) == i implies k
                == m.keys@[i as int]@ by {
                assert(m.keys@[spot(m.keys@, k)]@ == k);
            }
        }
        if flags[i] {
            let earlier: Option<String> = out.insert(m.keys[i], m.values[i].clone());
        }
        i = i + 1;
    }
    proof {
        assert forall|k: K::V| #[trigger] out@.dom().contains(k) <==> flagged(
            *m,
            flags@,
        ).dom().contains(k) by {
            if holds(m.keys@, k) {
                let at = spot(m.keys@, k);
                assert(0 <= at < m.keys@.len() && m.keys@[at]@ == k);
            }
        }
        assert(out@ =~= flagged(*m, flags@));
    }
    out
}

/// A copy of a map of numbers.
pub fn copy_sizes(m: &SortedMap<String, u64>) -> (r: SortedMap<String, u64>)
    ensures
        r.keys@ == m.keys@,
        r.values@ == m.values@,
        r@ == m@,
        m.wf() ==> r.wf(),
{
    SortedMap { keys: text::copy_all(&m.keys), values: m.values.clone() }
}

impl<K: Key, T> SortedMap<K, Vec<T>> {
    /// The list of a key; a key without one has an empty list.
    pub open spec fn list(&self, k: K::V) -> Seq<T> {
        if self@.dom().contains(k) {
            self@[k]@
        } else {
            Seq::empty()
        }
    }

    /// Give `k` a list, unless it has one.
    pub fn ensure(&mut self, k: K)
        requires
            old(self).wf(),
        ensures
            final(self).wf(),
            forall|x: K::V| #[trigger]
                final(self)@.dom().contains(x) <==> old(self)@.dom().contains(x) || x == k@,
            forall|x: K::V| #[trigger] final(self).list(x) == old(self).list(x),
    {
        if !self.contains(&k) {
            let none: Option<Vec<T>> = self.insert(k, Vec::new());
            assert forall|x: K::V| #[trigger] self.list(x) == old(self).list(x) by {
                if x == k@ {
                    assert(self.list(x) =~= Seq::empty());
                }
            }
        }
    }

    /// Append `x` to the list of `k`.
    pub fn push_to(&mut self, k: K, x: T)
        requires
            old(self).wf(),
        ensures
            final(self).wf(),
            forall|y: K::V| #[trigger]
                final(self)@.dom().contains(y) <==> old(self)@.dom().contains(y) || y == k@,
            forall|y: K::V| #[trigger]
                final(self).list(y) == if y == k@ {
                    old(self).list(y).push(x)
                } else {
                    old(self).list(y)
                },
    {
        let (found, at) = position(&self.keys, &k);
        let ghost keys0 = self.keys@;
        let ghost values0 = self.values@;
        if found {
            self.values[at].push(x);
            proof {
                lemma_spot(keys0, at as int);
                assert forall|y: K::V| #[trigger]
                    self@.dom().contains(y) <==> old(self)@.dom().contains(y) || y == k@ by {}
                assert forall|y: K::V| #[trigger] self.list(y) == if y == k@ {
                    old(self).list(y).push(x)
                } else {
                    old(self).list(y)
                } by {
                    if self@.dom().contains(y) {
                        let i = spot(keys0, y);
                        assert(0 <= i < keys0.len() && keys0[i]@ == y);
                        if y != k@ {
                            assert(i != at);
                            assert(self.values@[i] == values0[i]);
                        }
                    }
                }
            }
        } else {
            let mut one: Vec<T> = Vec::new();
            one.push(x);
            let none: Option<Vec<T>> = self.insert(k, one);
            assert forall|y: K::V| #[trigger] self.list(y) == if y == k@ {
                old(self).list(y).push(x)
            } else {
                old(self).list(y)
            } by {
                if y == k@ {
                    assert(self.list(y) =~= Seq::empty().push(x));
                }
            }
        }
    }
}

/// A value that was put under a key is found under it, one that was taken out is not, and every other
/// key is as it was.
pub proof fn law_a_map_gives_back_what_it_was_given<K: Key, V>(
    a: &mut SortedMap<K, V>,
    k: K,
    v: V,
    put: Option<V>,
    b: &mut SortedMap<K, V>,
    taken: Option<V>,
    other: K,
    at: Option<&V>,
    before: Option<&V>,
    after: Option<&V>,
    gone: Option<&V>,
    left: Option<&V>,
)
    requires
        old(a).wf(),
        call_ensures(SortedMap::<K, V>::insert, (a, k, v), put),
        *old(b) == *final(a),
        call_ensures(SortedMap::<K, V>::remove, (b, &k), taken),
        call_ensures(SortedMap::<K, V>::get, (&*final(a), &k), at),
        call_ensures(SortedMap::<K, V>::get, (&*old(a), &other), before),
        call_ensures(SortedMap::<K, V>::get, (&*final(a), &other), after),
        call_ensures(SortedMap::<K, V>::get, (&*final(b), &k), gone),
        call_ensures(SortedMap::<K, V>::get, (&*final(b), &other), left),
    ensures
        at matches Some(w) && *w == v,
        taken == Some(v),
        gone is None,
        other@ == k@ ==> (before is Some <==> put is Some) && (before matches Some(w) ==> put
            == Some(*w)),
        other@ != k@ ==> after == before && left == before,
{
}

/// A key that was put into a set is in it, one that was taken out is not, and every other key is as
/// it was; each answer says whether anything changed.
pub proof fn law_a_set_holds_what_was_put_in<K: Key>(
    a: &mut SortedSet<K>,
    k: K,
    fresh: bool,
    b: &mut SortedSet<K>,
    was_in: bool,
    before: bool,
    at: bool,
    gone: bool,
    other: K,
    other_before: bool,
    other_after: bool,
    other_left: bool,
)
    requires
        old(a).wf(),
        call_ensures(SortedSet::<K>::insert, (a, k), fresh),
        *old(b) == *final(a),
        call_ensures(SortedSet::<K>::remove, (b, &k), was_in),
        call_ensures(SortedSet::<K>::contains, (&*old(a), &k), before),
        call_ensures(SortedSet::<K>::contains, (&*final(a), &k), at),
        call_ensures(SortedSet::<K>::contains, (&*final(b), &k), gone),
        call_ensures(SortedSet::<K>::contains, (&*old(a), &other), other_before),
        call_ensures(SortedSet::<K>::contains, (&*final(a), &other), other_after),
        call_ensures(SortedSet::<K>::contains, (&*final(b), &other), other_left),
    ensures
        fresh == !before && at && was_in && !gone,
        other@ != k@ ==> other_after == other_before && other_left == other_before,
{
}

} // verus!
