//! Civil dates: which day of which month a number of days since 1970-01-01 is.

use vstd::prelude::*;
use vstd::string::*;
use crate::order;
use crate::text;

verus! {

/// Seconds in a day.
pub const DAY_SECONDS: i64 = 86_400;

/// Whether `y` is a leap year.
#[verifier::opaque]
pub open spec fn is_leap(y: int) -> bool {
    y % 4 == 0 && (y % 100 != 0 || y % 400 == 0)
}

/// How many days month `m` of year `y` has.
pub open spec fn month_len(y: int, m: int) -> int {
    if m == 2 {
        if is_leap(y) {
            29
        } else {
            28
        }
    } else if m == 4 || m == 6 || m == 9 || m == 11 {
        30
    } else {
        31
    }
}

/// How many days of year `y` lie before month `m`.
pub open spec fn days_before_month(y: int, m: int) -> int
    decreases m,
{
    if m <= 1 {
        0
    } else {
        days_before_month(y, m - 1) + month_len(y, m - 1)
    }
}

/// How many leap years there are from year 1 to year `y`.
#[verifier::opaque]
pub open spec fn leap_years(y: int) -> int {
    y / 4 - y / 100 + y / 400
}

/// How many days lie between the first day of 1970 and the first day of year `y`.
pub open spec fn days_before_year(y: int) -> int {
    365 * (y - 1970) + leap_years(y - 1) - leap_years(1969)
}

/// Whether `y`, `m`, `d` is a day of the calendar.
pub open spec fn is_date(y: int, m: int, d: int) -> bool {
    1 <= m <= 12 && 1 <= d <= month_len(y, m)
}

/// How many days lie between 1970-01-01 and the given day.
pub open spec fn day_number(y: int, m: int, d: int) -> int {
    days_before_year(y) + days_before_month(y, m) + d - 1
}

proof fn lemma_months(y: int)
    ensures
        days_before_month(y, 1) == 0,
        days_before_month(y, 2) == 31,
        days_before_month(y, 3) == 31 + month_len(y, 2),
        days_before_month(y, 4) == 62 + month_len(y, 2),
        days_before_month(y, 5) == 92 + month_len(y, 2),
        days_before_month(y, 6) == 123 + month_len(y, 2),
        days_before_month(y, 7) == 153 + month_len(y, 2),
        days_before_month(y, 8) == 184 + month_len(y, 2),
        days_before_month(y, 9) == 215 + month_len(y, 2),
        days_before_month(y, 10) == 245 + month_len(y, 2),
        days_before_month(y, 11) == 276 + month_len(y, 2),
        days_before_month(y, 12) == 306 + month_len(y, 2),
{
    reveal_with_fuel(days_before_month, 13);
}

proof fn lemma_leap_step(y: int)
    ensures
        leap_years(y) == leap_years(y - 1) + if is_leap(y) {
            1int
        } else {
            0int
        },
{
    reveal(is_leap);
    reveal(leap_years);
    assert(y / 4 == (y - 1) / 4 + if y % 4 == 0 { 1int } else { 0int });
    assert(y / 100 == (y - 1) / 100 + if y % 100 == 0 { 1int } else { 0int });
    assert(y / 400 == (y - 1) / 400 + if y % 400 == 0 { 1int } else { 0int });
}

proof fn lemma_leap_era(era: int, yoe: int)
    requires
        0 <= yoe < 400,
    ensures
        leap_years(400 * era + yoe) == 97 * era + yoe / 4 - yoe / 100,
{
    reveal(leap_years);
    assert((400 * era + yoe) / 4 == 100 * era + yoe / 4);
    assert((400 * era + yoe) / 100 == 4 * era + yoe / 100);
    assert((400 * era + yoe) / 400 == era);
}

proof fn lemma_leap_end(era: int, yoe: int)
    requires
        (yoe + 1) % 4 == 0,
        (yoe + 1) % 100 == 0 ==> yoe == 399,
        0 <= yoe < 400,
    ensures
        is_leap(400 * era + yoe + 1),
{
    reveal(is_leap);
    let y = 400 * era + yoe + 1;
    assert(y % 4 == (yoe + 1) % 4);
    assert(y % 100 == (yoe + 1) % 100);
    assert(y % 400 == (yoe + 1) % 400);
}

/// A day of the calendar.
#[derive(Clone, Copy, Debug, PartialEq, Eq)]
pub struct Date {
    /// Year.
    pub year: i64,
    /// Month of the year, from 1.
    pub month: i64,
    /// Day of the month, from 1.
    pub day: i64,
}

/// The March-based year of an era (four hundred years) and the day of that year, for a day of
/// the era.
fn year_of_era(doe: i64) -> (r: (i64, i64))
    requires
        0 <= doe < 146_097,
    ensures
        0 <= r.0 < 400,
        0 <= r.1 <= 365,
        doe == 365 * r.0 + r.0 as int / 4 - r.0 as int / 100 + r.1,
        r.1 == 365 ==> (r.0 + 1) % 4 == 0 && ((r.0 + 1) % 100 == 0 ==> r.0 == 399),
{
    let century: i64 = if doe / 36_524 < 3 {
        doe / 36_524
    } else {
        3
    };
    let in_century: i64 = doe - 36_524 * century;
    let cycle: i64 = in_century / 1461;
    let in_cycle: i64 = in_century - 1461 * cycle;
    let year_in_cycle: i64 = if in_cycle / 365 < 3 {
        in_cycle / 365
    } else {
        3
    };
    let doy: i64 = in_cycle - 365 * year_in_cycle;
    let yoe: i64 = 100 * century + 4 * cycle + year_in_cycle;
    proof {
        assert(0 <= cycle <= 24);
        assert(0 <= in_cycle <= 1460);
        assert(0 <= doy <= 365);
        assert(yoe as int / 4 == 25 * century + cycle);
        assert(yoe as int / 100 == century);
        if doy == 365 && (yoe + 1) % 100 == 0 {
            assert(cycle == 24);
            assert(century == 3);
        }
    }
    (yoe, doy)
}

/// The month and the day of the month, for a day of a March-based year.
fn month_of_year(doy: i64) -> (r: (i64, i64))
    requires
        0 <= doy <= 365,
    ensures
        1 <= r.0 <= 12,
        r.1 >= 1,
        r.0 == 3 ==> r.1 <= 31 && doy == r.1 - 1,
        r.0 == 4 ==> r.1 <= 30 && doy == 31 + r.1 - 1,
        r.0 == 5 ==> r.1 <= 31 && doy == 61 + r.1 - 1,
        r.0 == 6 ==> r.1 <= 30 && doy == 92 + r.1 - 1,
        r.0 == 7 ==> r.1 <= 31 && doy == 122 + r.1 - 1,
        r.0 == 8 ==> r.1 <= 31 && doy == 153 + r.1 - 1,
        r.0 == 9 ==> r.1 <= 30 && doy == 184 + r.1 - 1,
        r.0 == 10 ==> r.1 <= 31 && doy == 214 + r.1 - 1,
        r.0 == 11 ==> r.1 <= 30 && doy == 245 + r.1 - 1,
        r.0 == 12 ==> r.1 <= 31 && doy == 275 + r.1 - 1,
        r.0 == 1 ==> r.1 <= 31 && doy == 306 + r.1 - 1,
        r.0 == 2 ==> r.1 <= 29 && doy == 337 + r.1 - 1,
{
    let mp: i64 = (5 * doy + 2) / 153;
    let day: i64 = doy - (153 * mp + 2) / 5 + 1;
    assert(0 <= mp <= 11);
    let month: i64 = if mp < 10 {
        mp + 3
    } else {
        mp - 9
    };
    (month, day)
}

/// The day that lies `days` days after 1970-01-01.
pub fn date_of(days: i64) -> (r: Date)
    requires
        -200_000_000_000_000 <= days <= 200_000_000_000_000,
    ensures
        is_date(r.year as int, r.month as int, r.day as int),
        day_number(r.year as int, r.month as int, r.day as int) == days,
        -1_000_000_000_000 < r.year < 1_000_000_000_000,
{
    // Years are counted from March here, so that a leap day ends its year.
    let z: i64 = days + 719_468;
    let era: i64 = floor_div(z, 146_097);
    let (yoe, doy) = year_of_era(z - era * 146_097);
    let march_year: i64 = yoe + era * 400;
    let (month, day) = month_of_year(doy);
    let year: i64 = if month <= 2 {
        march_year + 1
    } else {
        march_year
    };
    proof {
        let y = march_year as int;
        lemma_leap_era(era as int, yoe as int);
        lemma_leap_step(y);
        lemma_months(y);
        lemma_months(y + 1);
        if doy == 365 {
            lemma_leap_end(era as int, yoe as int);
        }
        assert(leap_years(1969) == 477) by {
            reveal(leap_years);
        }
    }
    Date { year, month, day }
}

/// The largest integer not above `a / b`.
fn floor_div(a: i64, b: i64) -> (r: i64)
    requires
        b > 1,
    ensures
        r == a as int / b as int,
{
    if a >= 0 {
        a / b
    } else {
        let q: i64 = -((-(a + 1)) / b) - 1;
        proof {
            let k = (-(a + 1)) as int;
            let n = k / b as int;
            vstd::arithmetic::div_mod::lemma_fundamental_div_mod(k, b as int);
            vstd::arithmetic::div_mod::lemma_mod_bound(k, b as int);
            let rest = b as int - 1 - k % b as int;
            assert(a as int == b as int * (-n - 1) + rest) by (nonlinear_arith)
                requires
                    k == -(a as int + 1),
                    k == b as int * n + k % b as int,
                    rest == b as int - 1 - k % b as int,
            ;
            vstd::arithmetic::div_mod::lemma_fundamental_div_mod_converse(
                a as int,
                b as int,
                -n - 1,
                rest,
            );
        }
        q
    }
}

/// What is left of `a` above the multiple of `b` that [`floor_div`] finds.
fn floor_rem(a: i64, b: i64) -> (r: i64)
    requires
        b > 1,
    ensures
        r == a as int % b as int,
        0 <= r < b,
{
    if a >= 0 {
        a % b
    } else {
        let k: i64 = -(a + 1);
        let r: i64 = b - 1 - k % b;
        proof {
            let n = k as int / b as int;
            vstd::arithmetic::div_mod::lemma_fundamental_div_mod(k as int, b as int);
            vstd::arithmetic::div_mod::lemma_mod_bound(k as int, b as int);
            assert(a as int == b as int * (-n - 1) + r as int) by (nonlinear_arith)
                requires
                    k == -(a as int + 1),
                    k as int == b as int * n + k as int % b as int,
                    r as int == b as int - 1 - k as int % b as int,
            ;
            vstd::arithmetic::div_mod::lemma_fundamental_div_mod_converse(
                a as int,
                b as int,
                -n - 1,
                r as int,
            );
        }
        r
    }
}

proof fn lemma_year_starts(y1: int, y2: int)
    requires
        y1 < y2,
    ensures
        days_before_year(y1) + 365 <= days_before_year(y2),
        is_leap(y1) ==> days_before_year(y1) + 366 <= days_before_year(y2),
    decreases y2 - y1,
{
    lemma_leap_step(y2 - 1);
    if y1 + 1 < y2 {
        lemma_year_starts(y1, y2 - 1);
    }
}

proof fn lemma_day_in_year(y: int, m: int, d: int)
    requires
        is_date(y, m, d),
    ensures
        0 <= days_before_month(y, m) + d - 1 < 365 + if is_leap(y) {
            1int
        } else {
            0int
        },
{
    lemma_months(y);
}

/// Each number of days is one day of the calendar only.
pub proof fn law_dates_are_unique(y1: int, m1: int, d1: int, y2: int, m2: int, d2: int)
    requires
        is_date(y1, m1, d1),
        is_date(y2, m2, d2),
        day_number(y1, m1, d1) == day_number(y2, m2, d2),
    ensures
        y1 == y2 && m1 == m2 && d1 == d2,
{
    lemma_day_in_year(y1, m1, d1);
    lemma_day_in_year(y2, m2, d2);
    if y1 < y2 {
        lemma_year_starts(y1, y2);
    } else if y2 < y1 {
        lemma_year_starts(y2, y1);
    }
    lemma_months(y1);
}

/// A year, filled up to four places.
pub open spec fn year_text(y: int) -> Seq<char> {
    if y < 0 {
        "-"@ + text::decimal_padded((-y) as nat, 3)
    } else {
        text::decimal_padded(y as nat, 4)
    }
}

/// A second of a day in RFC 3339 form, UTC.
pub open spec fn rfc3339_text(y: int, m: int, d: int, second: int) -> Seq<char> {
    year_text(y) + "-"@ + text::decimal_padded(m as nat, 2) + "-"@ + text::decimal_padded(
        d as nat,
        2,
    ) + "T"@ + text::decimal_padded((second / 3600) as nat, 2) + ":"@ + text::decimal_padded(
        (second % 3600 / 60) as nat,
        2,
    ) + ":"@ + text::decimal_padded((second % 60) as nat, 2) + "Z"@
}

/// Whether `s` is the RFC 3339 form of the Unix time `secs`.
pub open spec fn is_rfc3339_of(s: Seq<char>, secs: int) -> bool {
    exists|y: int, m: int, d: int|
        #![trigger is_date(y, m, d)]
        is_date(y, m, d) && day_number(y, m, d) == secs / DAY_SECONDS as int && s == rfc3339_text(
            y,
            m,
            d,
            secs % DAY_SECONDS as int,
        )
}

/// A Unix time has one RFC 3339 form only.
pub proof fn law_one_form_per_time(a: Seq<char>, b: Seq<char>, secs: int)
    requires
        is_rfc3339_of(a, secs),
        is_rfc3339_of(b, secs),
    ensures
        a == b,
{
    let (y1, m1, d1) = choose|y: int, m: int, d: int|
        #![trigger is_date(y, m, d)]
        is_date(y, m, d) && day_number(y, m, d) == secs / DAY_SECONDS as int && a == rfc3339_text(
            y,
            m,
            d,
            secs % DAY_SECONDS as int,
        );
    let (y2, m2, d2) = choose|y: int, m: int, d: int|
        #![trigger is_date(y, m, d)]
        is_date(y, m, d) && day_number(y, m, d) == secs / DAY_SECONDS as int && b == rfc3339_text(
            y,
            m,
            d,
            secs % DAY_SECONDS as int,
        );
    law_dates_are_unique(y1, m1, d1, y2, m2, d2);
}

/// How many numbers have at most `w` digits.
spec fn numbers(w: nat) -> nat
    decreases w,
{
    if w == 0 {
        1
    } else {
        10 * numbers((w - 1) as nat)
    }
}

proof fn lemma_less_then(a: Seq<char>, b: Seq<char>, x: Seq<char>, y: Seq<char>)
    requires
        a.len() == b.len(),
        text::text_less(a, b),
    ensures
        text::text_less(a + x, b + y),
{
    order::lemma_rank_then(
        text::text_rank(a),
        text::text_rank(b),
        text::text_rank(x),
        text::text_rank(y),
    );
    assert(text::text_rank(a + x) =~= text::text_rank(a) + text::text_rank(x));
    assert(text::text_rank(b + y) =~= text::text_rank(b) + text::text_rank(y));
}

proof fn lemma_less_common(p: Seq<char>, x: Seq<char>, y: Seq<char>)
    requires
        text::text_less(x, y),
    ensures
        text::text_less(p + x, p + y),
{
    order::lemma_rank_common(text::text_rank(p), text::text_rank(x), text::text_rank(y));
    assert(text::text_rank(p + x) =~= text::text_rank(p) + text::text_rank(x));
    assert(text::text_rank(p + y) =~= text::text_rank(p) + text::text_rank(y));
}

/// A number that fits its places fills them, and its last digit stands behind the others.
proof fn lemma_padded(n: nat, w: nat)
    requires
        w >= 1,
        n < numbers(w),
    ensures
        text::decimal_padded(n, w).len() == w,
        w >= 2 ==> n / 10 < numbers((w - 1) as nat) && text::decimal_padded(n, w)
            == text::decimal_padded(n / 10, (w - 1) as nat).push(text::digit(n % 10)),
    decreases w,
{
    reveal_with_fuel(numbers, 2);
    if w >= 2 {
        lemma_padded(n / 10, (w - 1) as nat);
        let front = text::decimal_padded(n / 10, (w - 1) as nat);
        if n < 10 {
            assert(n / 10 == 0 && n % 10 == n);
            assert(text::decimal(0).len() == 1);
        }
        assert(text::decimal_padded(n, w) =~= front.push(text::digit(n % 10)));
    } else {
        assert(n < 10);
    }
}

/// Numbers that fit their places sort as texts as they do as numbers.
proof fn lemma_padded_less(a: nat, b: nat, w: nat)
    requires
        w >= 1,
        a < b < numbers(w),
    ensures
        text::text_less(text::decimal_padded(a, w), text::decimal_padded(b, w)),
    decreases w,
{
    reveal_with_fuel(order::rank_less, 2);
    lemma_padded(a, w);
    lemma_padded(b, w);
    let (x, y) = (seq![text::digit(a % 10)], seq![text::digit(b % 10)]);
    if w == 1 {
        reveal_with_fuel(numbers, 2);
        assert(a % 10 == a && b % 10 == b);
        assert(text::decimal_padded(a, w) =~= x && text::decimal_padded(b, w) =~= y);
        assert(text::text_rank(x)[0] == 48 + a && text::text_rank(y)[0] == 48 + b);
    } else {
        let p = text::decimal_padded(a / 10, (w - 1) as nat);
        let q = text::decimal_padded(b / 10, (w - 1) as nat);
        lemma_padded(a / 10, (w - 1) as nat);
        lemma_padded(b / 10, (w - 1) as nat);
        assert(text::decimal_padded(a, w) =~= p + x);
        assert(text::decimal_padded(b, w) =~= q + y);
        if a / 10 < b / 10 {
            lemma_padded_less(a / 10, b / 10, (w - 1) as nat);
            lemma_less_then(p, q, x, y);
        } else {
            assert(a / 10 == b / 10 && a % 10 < b % 10);
            assert(text::text_rank(x)[0] == 48 + a % 10 && text::text_rank(y)[0] == 48 + b % 10);
            assert(text::text_less(x, y));
            lemma_less_common(p, x, y);
        }
    }
}

/// The first number in which two texts differ decides.
proof fn lemma_field(a: nat, b: nat, w: nat, sep: Seq<char>, x: Seq<char>, y: Seq<char>)
    requires
        w >= 1,
        a < numbers(w),
        b < numbers(w),
        a < b || a == b && text::text_less(x, y),
    ensures
        text::text_less(
            text::decimal_padded(a, w) + (sep + x),
            text::decimal_padded(b, w) + (sep + y),
        ),
{
    lemma_padded(a, w);
    lemma_padded(b, w);
    if a < b {
        lemma_padded_less(a, b, w);
        lemma_less_then(
            text::decimal_padded(a, w),
            text::decimal_padded(b, w),
            sep + x,
            sep + y,
        );
    } else {
        lemma_less_common(sep, x, y);
        lemma_less_common(text::decimal_padded(a, w), sep + x, sep + y);
    }
}

spec fn second_tail(second: int) -> Seq<char> {
    text::decimal_padded((second % 60) as nat, 2) + ("Z"@ + Seq::<char>::empty())
}

spec fn minute_tail(second: int) -> Seq<char> {
    text::decimal_padded((second % 3600 / 60) as nat, 2) + (":"@ + second_tail(second))
}

spec fn time_tail(second: int) -> Seq<char> {
    text::decimal_padded((second / 3600) as nat, 2) + (":"@ + minute_tail(second))
}

spec fn day_tail(d: int, second: int) -> Seq<char> {
    text::decimal_padded(d as nat, 2) + ("T"@ + time_tail(second))
}

spec fn month_tail(m: int, d: int, second: int) -> Seq<char> {
    text::decimal_padded(m as nat, 2) + ("-"@ + day_tail(d, second))
}

proof fn lemma_seconds_sort(a: int, b: int)
    requires
        0 <= a < b < 86_400,
    ensures
        text::text_less(time_tail(a), time_tail(b)),
{
    reveal_with_fuel(numbers, 3);
    let (h1, h2) = ((a / 3600) as nat, (b / 3600) as nat);
    let (m1, m2) = ((a % 3600 / 60) as nat, (b % 3600 / 60) as nat);
    let (s1, s2) = ((a % 60) as nat, (b % 60) as nat);
    assert(a == 3600 * h1 + 60 * m1 + s1 && b == 3600 * h2 + 60 * m2 + s2);
    let none = Seq::<char>::empty();
    if h1 == h2 && m1 == m2 {
        lemma_field(s1, s2, 2, "Z"@, none, none);
    }
    if h1 == h2 {
        lemma_field(m1, m2, 2, ":"@, second_tail(a), second_tail(b));
    }
    lemma_field(h1, h2, 2, ":"@, minute_tail(a), minute_tail(b));
}

proof fn lemma_text_of_parts(y: int, m: int, d: int, second: int)
    requires
        0 <= y < 10_000,
        is_date(y, m, d),
        0 <= second < 86_400,
    ensures
        rfc3339_text(y, m, d, second) == text::decimal_padded(y as nat, 4) + ("-"@ + month_tail(
            m,
            d,
            second,
        )),
        rfc3339_text(y, m, d, second).len() == 20,
{
    reveal_strlit("-");
    reveal_strlit("T");
    reveal_strlit(":");
    reveal_strlit("Z");
    reveal_with_fuel(numbers, 5);
    lemma_padded(y as nat, 4);
    lemma_padded(m as nat, 2);
    lemma_padded(d as nat, 2);
    lemma_padded((second / 3600) as nat, 2);
    lemma_padded((second % 3600 / 60) as nat, 2);
    lemma_padded((second % 60) as nat, 2);
    assert(rfc3339_text(y, m, d, second) =~= text::decimal_padded(y as nat, 4) + ("-"@
        + month_tail(m, d, second)));
}

/// An earlier day has the smaller year, month or day, whichever is the first to differ.
proof fn lemma_days_sort(y1: int, m1: int, d1: int, y2: int, m2: int, d2: int)
    requires
        is_date(y1, m1, d1),
        is_date(y2, m2, d2),
        day_number(y1, m1, d1) < day_number(y2, m2, d2),
    ensures
        y1 < y2 || y1 == y2 && (m1 < m2 || m1 == m2 && d1 < d2),
{
    lemma_day_in_year(y1, m1, d1);
    lemma_day_in_year(y2, m2, d2);
    if y2 < y1 {
        lemma_year_starts(y2, y1);
    }
    lemma_months(y1);
}

proof fn lemma_four_digit_year(y: int, m: int, d: int)
    requires
        is_date(y, m, d),
        -719_528 <= day_number(y, m, d) <= 2_932_896,
    ensures
        0 <= y < 10_000,
{
    lemma_day_in_year(y, m, d);
    assert(days_before_year(0) == -719_528 && days_before_year(10_000) == 2_932_897) by {
        reveal(leap_years);
    }
    if y < 0 {
        lemma_year_starts(y, 0);
    }
    if y > 10_000 {
        lemma_year_starts(10_000, y);
    }
}

/// From the year 0000 to the year 9999 a form has twenty characters, and the forms sort as the
/// times do.
pub proof fn law_forms_sort_as_times(a: Seq<char>, b: Seq<char>, earlier: int, later: int)
    requires
        -62_167_219_200 <= earlier < later <= 253_402_300_799,
        is_rfc3339_of(a, earlier),
        is_rfc3339_of(b, later),
    ensures
        text::text_less(a, b),
        a.len() == 20 && b.len() == 20,
{
    let (s1, s2) = (earlier % DAY_SECONDS as int, later % DAY_SECONDS as int);
    let (n1, n2) = (earlier / DAY_SECONDS as int, later / DAY_SECONDS as int);
    let (y1, m1, d1) = choose|y: int, m: int, d: int|
        #![trigger is_date(y, m, d)]
        is_date(y, m, d) && day_number(y, m, d) == n1 && a == rfc3339_text(y, m, d, s1);
    let (y2, m2, d2) = choose|y: int, m: int, d: int|
        #![trigger is_date(y, m, d)]
        is_date(y, m, d) && day_number(y, m, d) == n2 && b == rfc3339_text(y, m, d, s2);
    assert(0 <= s1 < 86_400 && 0 <= s2 < 86_400);
    assert(earlier == 86_400 * n1 + s1 && later == 86_400 * n2 + s2);
    lemma_four_digit_year(y1, m1, d1);
    lemma_four_digit_year(y2, m2, d2);
    lemma_text_of_parts(y1, m1, d1, s1);
    lemma_text_of_parts(y2, m2, d2, s2);
    reveal_with_fuel(numbers, 5);
    if n1 == n2 {
        law_dates_are_unique(y1, m1, d1, y2, m2, d2);
        lemma_seconds_sort(s1, s2);
    } else {
        lemma_days_sort(y1, m1, d1, y2, m2, d2);
    }
    if y1 == y2 && m1 == m2 {
        lemma_field(d1 as nat, d2 as nat, 2, "T"@, time_tail(s1), time_tail(s2));
    }
    if y1 == y2 {
        lemma_field(m1 as nat, m2 as nat, 2, "-"@, day_tail(d1, s1), day_tail(d2, s2));
    }
    lemma_field(y1 as nat, y2 as nat, 4, "-"@, month_tail(m1, d1, s1), month_tail(m2, d2, s2));
}

/// Format a Unix timestamp as RFC 3339 UTC.
pub fn rfc3339_from_unix(secs: i64) -> (r: String)
    ensures
        is_rfc3339_of(r@, secs as int),
{
    let days: i64 = floor_div(secs, DAY_SECONDS);
    let rem: i64 = floor_rem(secs, DAY_SECONDS);
    let date: Date = date_of(days);
    let mut out: String = String::new();
    if date.year < 0 {
        out.append("-");
        out.append(text::dec_padded((-date.year) as u64, 3).as_str());
        assert(out@ =~= year_text(date.year as int));
    } else {
        out.append(text::dec_padded(date.year as u64, 4).as_str());
        assert(out@ =~= year_text(date.year as int));
    }
    out.append("-");
    out.append(text::dec_padded(date.month as u64, 2).as_str());
    out.append("-");
    out.append(text::dec_padded(date.day as u64, 2).as_str());
    out.append("T");
    out.append(text::dec_padded((rem / 3600) as u64, 2).as_str());
    out.append(":");
    out.append(text::dec_padded((rem % 3600 / 60) as u64, 2).as_str());
    out.append(":");
    out.append(text::dec_padded((rem % 60) as u64, 2).as_str());
    out.append("Z");
    proof {
        assert(is_date(date.year as int, date.month as int, date.day as int));
        assert(out@ =~= rfc3339_text(
            date.year as int,
            date.month as int,
            date.day as int,
            secs as int % DAY_SECONDS as int,
        ));
    }
    out
}

/// Days follow each other as the calendar has them: the day after one is the next of its month, the
/// first of the next month after the last of one, and the first of January after the last of
/// December; and the count begins on 1970-01-01.
pub proof fn law_days_follow_each_other(days: i64, a: Date, b: Date, first: Date)
    requires
        -200_000_000_000_000 <= days < 200_000_000_000_000,
        call_ensures(date_of, (days,), a),
        call_ensures(date_of, ((days + 1) as i64,), b),
        call_ensures(date_of, (0i64,), first),
    ensures
        ({
            let y = a.year as int;
            let leap = y % 4 == 0 && (y % 100 != 0 || y % 400 == 0);
            let last: int = if a.month == 2 {
                if leap {
                    29
                } else {
                    28
                }
            } else if a.month == 4 || a.month == 6 || a.month == 9 || a.month == 11 {
                30
            } else {
                31
            };
            &&& 1 <= a.month <= 12 && 1 <= a.day <= last
            &&& a.day < last ==> b.year == a.year && b.month == a.month && b.day == a.day + 1
            &&& a.day == last && a.month < 12 ==> b.year == a.year && b.month == a.month + 1
                && b.day == 1
            &&& a.day == last && a.month == 12 ==> b.year == a.year + 1 && b.month == 1 && b.day
                == 1
        }),
        first.year == 1970 && first.month == 1 && first.day == 1,
{
    reveal(is_leap);
    let (y, m, d) = (a.year as int, a.month as int, a.day as int);
    if d < month_len(y, m) {
        law_dates_are_unique(b.year as int, b.month as int, b.day as int, y, m, d + 1);
    } else if m < 12 {
        assert(days_before_month(y, m + 1) == days_before_month(y, m) + month_len(y, m));
        assert(is_date(y, m + 1, 1));
        law_dates_are_unique(b.year as int, b.month as int, b.day as int, y, m + 1, 1);
    } else {
        lemma_year_len(y);
        assert(days_before_month(y + 1, 1) == 0);
        assert(is_date(y + 1, 1, 1));
        law_dates_are_unique(b.year as int, b.month as int, b.day as int, y + 1, 1, 1);
    }
    law_dates_are_unique(first.year as int, first.month as int, first.day as int, 1970, 1, 1);
}

proof fn lemma_year_len(y: int)
    ensures
        days_before_year(y + 1) == days_before_year(y) + days_before_month(y, 12) + 31,
{
    lemma_months(y);
    lemma_leap_step(y);
}

} // verus!
