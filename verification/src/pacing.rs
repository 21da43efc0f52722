//! Waiting between attempts. Spans of time are whole numbers of nanoseconds.

use vstd::prelude::*;

verus! {

/// A millisecond.
pub const MILLISECOND: u64 = 1_000_000;

/// A second.
pub const SECOND: u64 = 1_000_000_000;

/// `base`, doubled `times` over.
pub open spec fn doubled(base: nat, times: nat) -> nat
    decreases times,
{
    if times == 0 {
        base
    } else {
        2 * doubled(base, (times - 1) as nat)
    }
}

/// How often a wait doubles at most.
pub const MAX_DOUBLINGS: u32 = 10;

/// The wait after failed attempt number `attempt` (from 0): it doubles each time, ten times at
/// most, up to a cap.
pub open spec fn wait(base: nat, attempt: nat, cap: nat) -> nat {
    let times = if attempt < MAX_DOUBLINGS {
        attempt
    } else {
        MAX_DOUBLINGS as nat
    };
    let w = doubled(base, times);
    if w < cap {
        w
    } else {
        cap
    }
}

/// The wait after failed attempt number `attempt` (from 0).
pub fn backoff(base: u64, attempt: u32, cap: u64) -> (r: u64)
    ensures
        r == wait(base as nat, attempt as nat, cap as nat),
{
    let times: u32 = if attempt < MAX_DOUBLINGS {
        attempt
    } else {
        MAX_DOUBLINGS
    };
    let mut w: u128 = base as u128;
    let mut i: u32 = 0;
    let mut bound: u128 = 1;
    while i < times
        invariant
            0 <= i <= times <= MAX_DOUBLINGS,
            w == doubled(base as nat, i as nat),
            bound == doubled(1, i as nat),
            bound <= 1024,
            bound <= (if i == 0 { 1int } else if i == 1 { 2 } else if i == 2 { 4 } else if i == 3 {
                8
            } else if i == 4 { 16 } else if i == 5 { 32 } else if i == 6 { 64 } else if i == 7 {
                128
            } else if i == 8 { 256 } else if i == 9 { 512 } else { 1024 }),
            w <= bound * u64::MAX,
        decreases times - i,
    {
        assert(w <= 1024 * u64::MAX) by (nonlinear_arith)
            requires
                w <= bound * u64::MAX,
                bound <= 1024,
        ;
        assert((2 * bound) * u64::MAX == 2 * (bound * u64::MAX)) by (nonlinear_arith);
        w = w * 2;
        bound = bound * 2;
        i = i + 1;
    }
    if w < cap as u128 {
        w as u64
    } else {
        cap
    }
}

proof fn lemma_doubled_grows(base: nat, a: nat, b: nat)
    requires
        a <= b,
    ensures
        doubled(base, a) <= doubled(base, b),
    decreases b,
{
    if a < b {
        lemma_doubled_grows(base, a, (b - 1) as nat);
    }
}

/// A later attempt never waits less than an earlier one, and none waits longer than the cap.
pub proof fn law_waits_grow_up_to_the_cap(base: nat, a: nat, b: nat, cap: nat)
    requires
        a <= b,
    ensures
        wait(base, a, cap) <= wait(base, b, cap) <= cap,
{
    let ten = MAX_DOUBLINGS as nat;
    lemma_doubled_grows(
        base,
        if a < ten {
            a
        } else {
            ten
        },
        if b < ten {
            b
        } else {
            ten
        },
    );
}

/// A wait doubles with each attempt until it reaches the cap, and stays there.
pub proof fn law_a_wait_doubles_up_to_the_cap(
    base: u64,
    attempt: u32,
    cap: u64,
    first: u64,
    a: u64,
    b: u64,
    late: u32,
    c: u64,
    tenth: u64,
)
    requires
        call_ensures(backoff, (base, 0u32, cap), first),
        call_ensures(backoff, (base, attempt, cap), a),
        attempt < 10,
        call_ensures(backoff, (base, (attempt + 1) as u32, cap), b),
        late >= 10,
        call_ensures(backoff, (base, late, cap), c),
        call_ensures(backoff, (base, 10u32, cap), tenth),
    ensures
        c == tenth,
        first == if base < cap {
            base
        } else {
            cap
        },
        b == if 2 * a < cap {
            (2 * a) as u64
        } else {
            cap
        },
{
    assert(doubled(base as nat, 0) == base);
    assert(doubled(base as nat, (attempt + 1) as nat) == 2 * doubled(base as nat, attempt as nat));
}

} // verus!
