//! Counters and sums that stop at the largest `u64`.

use vstd::prelude::*;

verus! {

/// The nearest `u64`.
pub open spec fn capped(n: nat) -> nat {
    if n > u64::MAX {
        u64::MAX as nat
    } else {
        n
    }
}

/// The sum of numbers.
pub open spec fn total(s: Seq<u64>) -> nat
    decreases s.len(),
{
    if s.len() == 0 {
        0
    } else {
        total(s.drop_last()) + s.last() as nat
    }
}

/// The sum of numbers, as far as it can be counted.
pub fn sum(v: &Vec<u64>) -> (r: u64)
    ensures
        r == capped(total(v@)),
{
    let mut out: u64 = 0;
    let mut i: usize = 0;
    assert(v@.take(0) =~= Seq::empty());
    while i < v.len()
        invariant
            0 <= i <= v@.len(),
            out == capped(total(v@.take(i as int))),
        decreases v@.len() - i,
    {
        assert(v@.take(i + 1).drop_last() =~= v@.take(i as int));
        out = out.saturating_add(v[i]);
        i = i + 1;
    }
    assert(v@.take(v@.len() as int) =~= v@);
    out
}

/// Where a number is put in makes no difference to the sum.
pub proof fn lemma_total_insert(s: Seq<u64>, at: int, x: u64)
    requires
        0 <= at <= s.len(),
    ensures
        total(s.insert(at, x)) == total(s) + x,
    decreases s.len(),
{
    let t = s.insert(at, x);
    if at == s.len() {
        assert(t.drop_last() =~= s);
    } else {
        lemma_total_insert(s.drop_last(), at, x);
        assert(t.drop_last() =~= s.drop_last().insert(at, x));
        assert(t.last() == s.last());
    }
}

/// A number put in place of another adds at most itself to the sum.
pub proof fn lemma_total_update(s: Seq<u64>, at: int, x: u64)
    requires
        0 <= at < s.len(),
    ensures
        total(s.update(at, x)) == total(s) - s[at] + x,
    decreases s.len(),
{
    let t = s.update(at, x);
    if at == s.len() - 1 {
        assert(t.drop_last() =~= s.drop_last());
    } else {
        lemma_total_update(s.drop_last(), at, x);
        assert(t.drop_last() =~= s.drop_last().update(at, x));
        assert(t.last() == s.last());
    }
}

} // verus!
