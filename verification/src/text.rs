//! Text as sequences of characters: comparison, order, search and decimal numbers.

use vstd::prelude::*;
use vstd::string::*;
use crate::order;
use crate::order::Key;

verus! {

/// `String::push`: appends one character at the end.
pub assume_specification[ String::push ](s: &mut String, c: char)
    ensures
        final(s)@ == old(s)@.push(c),
;

/// The characters of `s`, one element each.
pub fn chars_of(s: &str) -> (r: Vec<char>)
    ensures
        r@ == s@,
{
    let mut out: Vec<char> = Vec::new();
    for c in it: s.chars()
        invariant
            it.seq() == s@,
            out@ == s@.take(it.index() as int),
    {
        out.push(c);
        assert(out@ =~= s@.take(it.index() as int + 1));
    }
    assert(s@.take(s@.len() as int) =~= s@);
    out
}

/// The rank of a text: its code points, which is also the order of its UTF-8 bytes.
pub open spec fn text_rank(s: Seq<char>) -> Seq<int> {
    Seq::new(s.len(), |i: int| s[i] as int)
}

/// Whether text `a` comes strictly before text `b`.
pub open spec fn text_less(a: Seq<char>, b: Seq<char>) -> bool {
    order::rank_less(text_rank(a), text_rank(b))
}

/// Whether `a` comes strictly before `b`.
pub fn str_less(a: &str, b: &str) -> (r: bool)
    ensures
        r == text_less(a@, b@),
{
    let x: Vec<char> = chars_of(a);
    let y: Vec<char> = chars_of(b);
    let ghost rx = text_rank(a@);
    let ghost ry = text_rank(b@);
    let mut i: usize = 0;
    assert(rx.skip(0) =~= rx && ry.skip(0) =~= ry);
    while i < x.len() && i < y.len() && x[i] == y[i]
        invariant
            x@ == a@,
            y@ == b@,
            rx == text_rank(a@),
            ry == text_rank(b@),
            0 <= i <= x@.len(),
            i <= y@.len(),
            order::rank_less(rx, ry) == order::rank_less(rx.skip(i as int), ry.skip(i as int)),
        decreases x@.len() - i,
    {
        proof {
            let p = rx.skip(i as int);
            let q = ry.skip(i as int);
            assert(p[0] == q[0]);
            assert(p.drop_first() =~= rx.skip(i + 1));
            assert(q.drop_first() =~= ry.skip(i + 1));
        }
        i = i + 1;
    }
    proof {
        let p = rx.skip(i as int);
        let q = ry.skip(i as int);
        assert(p.len() == rx.len() - i);
        assert(q.len() == ry.len() - i);
        if i < x@.len() && i < y@.len() {
            assert(p[0] == x@[i as int] as int);
            assert(q[0] == y@[i as int] as int);
        }
    }
    if i >= y.len() {
        false
    } else if i >= x.len() {
        true
    } else {
        x[i] < y[i]
    }
}

/// Texts are equal when their ranks are.
pub proof fn lemma_text_rank_injective(a: Seq<char>, b: Seq<char>)
    requires
        text_rank(a) == text_rank(b),
    ensures
        a == b,
{
    assert(a.len() == text_rank(a).len());
    assert forall|i: int| 0 <= i < a.len() implies a[i] == b[i] by {
        assert(text_rank(a)[i] == a[i] as int);
        assert(text_rank(b)[i] == b[i] as int);
        assert(a[i] as int == b[i] as int);
        assert(a[i] as u32 == b[i] as u32);
    }
    assert(a =~= b);
}

impl Key for String {
    open spec fn rank(v: Seq<char>) -> Seq<int> {
        text_rank(v)
    }

    proof fn rank_is_injective(a: Seq<char>, b: Seq<char>) {
        lemma_text_rank_injective(a, b);
    }

    fn before(&self, other: &Self) -> (r: bool) {
        str_less(self.as_str(), other.as_str())
    }
}

/// Whether the two texts are the same.
pub fn str_eq(a: &str, b: &str) -> (r: bool)
    ensures
        r == (a@ == b@),
{
    let x: Vec<char> = chars_of(a);
    let y: Vec<char> = chars_of(b);
    if x.len() != y.len() {
        return false;
    }
    let mut i: usize = 0;
    while i < x.len()
        invariant
            x@ == a@,
            y@ == b@,
            x@.len() == y@.len(),
            0 <= i <= x@.len(),
            forall|j: int| 0 <= j < i ==> x@[j] == y@[j],
        decreases x@.len() - i,
    {
        if x[i] != y[i] {
            return false;
        }
        i = i + 1;
    }
    assert(a@ =~= b@);
    true
}

/// Whether `s` begins with `prefix`.
pub open spec fn has_prefix(s: Seq<char>, prefix: Seq<char>) -> bool {
    prefix.len() <= s.len() && s.take(prefix.len() as int) == prefix
}

/// Whether `s` ends with `suffix`.
pub open spec fn has_suffix(s: Seq<char>, suffix: Seq<char>) -> bool {
    suffix.len() <= s.len() && s.skip(s.len() - suffix.len()) == suffix
}

/// Whether `s` begins with `prefix`.
pub fn starts_with(s: &str, prefix: &str) -> (r: bool)
    ensures
        r == has_prefix(s@, prefix@),
{
    let n: usize = prefix.unicode_len();
    if n > s.unicode_len() {
        return false;
    }
    str_eq(s.substring_char(0, n), prefix)
}

/// Whether `s` ends with `suffix`.
pub fn ends_with(s: &str, suffix: &str) -> (r: bool)
    ensures
        r == has_suffix(s@, suffix@),
{
    let n: usize = suffix.unicode_len();
    let m: usize = s.unicode_len();
    if n > m {
        return false;
    }
    str_eq(s.substring_char(m - n, m), suffix)
}

/// `a` followed by `b`.
pub fn concat(a: &str, b: &str) -> (r: String)
    ensures
        r@ == a@ + b@,
{
    let mut out: String = a.to_owned();
    out.append(b);
    out
}

/// The last position of `c` in `s`, or -1.
pub open spec fn last_index(s: Seq<char>, c: char) -> int
    decreases s.len(),
{
    if s.len() == 0 {
        -1
    } else if s.last() == c {
        s.len() - 1
    } else {
        last_index(s.drop_last(), c)
    }
}

/// The first position of `c` in `s`, or -1.
pub open spec fn first_index(s: Seq<char>, c: char) -> int
    decreases s.len(),
{
    if s.len() == 0 {
        -1
    } else if s[0] == c {
        0
    } else {
        let rest = first_index(s.drop_first(), c);
        if rest < 0 { -1 } else { rest + 1 }
    }
}

/// What [`last_index`] says: the position holds `c` and none after it does.
pub proof fn lemma_last_index(s: Seq<char>, c: char)
    ensures
        -1 <= last_index(s, c) < s.len(),
        last_index(s, c) >= 0 ==> s[last_index(s, c)] == c,
        forall|j: int| last_index(s, c) < j < s.len() ==> s[j] != c,
    decreases s.len(),
{
    if s.len() > 0 && s.last() != c {
        lemma_last_index(s.drop_last(), c);
        assert forall|j: int| last_index(s, c) < j < s.len() implies s[j] != c by {
            if j < s.len() - 1 {
                assert(s.drop_last()[j] == s[j]);
            }
        }
    }
}

/// What [`first_index`] says: the position holds `c` and none before it does.
pub proof fn lemma_first_index(s: Seq<char>, c: char)
    ensures
        -1 <= first_index(s, c) < s.len(),
        first_index(s, c) >= 0 ==> s[first_index(s, c)] == c,
        first_index(s, c) < 0 ==> forall|j: int| 0 <= j < s.len() ==> s[j] != c,
        forall|j: int| 0 <= j < first_index(s, c) ==> s[j] != c,
    decreases s.len(),
{
    if s.len() > 0 && s[0] != c {
        lemma_first_index(s.drop_first(), c);
        assert forall|j: int|
            0 <= j < s.len() && (first_index(s, c) < 0 || j < first_index(s, c)) implies s[j]
            != c by {
            if j > 0 {
                assert(s.drop_first()[j - 1] == s[j]);
            }
        }
    }
}

/// A position that holds `c` with none after it is the last one.
pub proof fn lemma_last_index_is(s: Seq<char>, c: char, i: int)
    requires
        -1 <= i < s.len(),
        i >= 0 ==> s[i] == c,
        forall|j: int| i < j < s.len() ==> s[j] != c,
    ensures
        last_index(s, c) == i,
{
    lemma_last_index(s, c);
}

/// A position that holds `c` with none before it is the first one.
pub proof fn lemma_first_index_is(s: Seq<char>, c: char, i: int)
    requires
        0 <= i < s.len(),
        s[i] == c,
        forall|j: int| 0 <= j < i ==> s[j] != c,
    ensures
        first_index(s, c) == i,
{
    lemma_first_index(s, c);
}

/// The last position of `c` in `s`.
pub fn rfind(s: &str, c: char) -> (r: Option<usize>)
    ensures
        match r {
            Some(i) => i == last_index(s@, c),
            None => last_index(s@, c) == -1,
        },
{
    let x: Vec<char> = chars_of(s);
    let mut i: usize = x.len();
    while i > 0
        invariant
            x@ == s@,
            0 <= i <= x@.len(),
            forall|j: int| i <= j < x@.len() ==> x@[j] != c,
        decreases i,
    {
        if x[i - 1] == c {
            proof {
                lemma_last_index_is(s@, c, i - 1);
            }
            return Some(i - 1);
        }
        i = i - 1;
    }
    proof {
        lemma_last_index_is(s@, c, -1);
    }
    None
}

/// The first position of `c` in `s`.
pub fn find(s: &str, c: char) -> (r: Option<usize>)
    ensures
        match r {
            Some(i) => i == first_index(s@, c),
            None => first_index(s@, c) == -1,
        },
{
    let x: Vec<char> = chars_of(s);
    let mut i: usize = 0;
    while i < x.len()
        invariant
            x@ == s@,
            0 <= i <= x@.len(),
            forall|j: int| 0 <= j < i ==> x@[j] != c,
        decreases x@.len() - i,
    {
        if x[i] == c {
            proof {
                lemma_first_index_is(s@, c, i as int);
            }
            return Some(i);
        }
        i = i + 1;
    }
    proof {
        lemma_first_index(s@, c);
    }
    None
}

/// The decimal digit of `d`.
pub open spec fn digit(d: nat) -> char
    recommends
        d < 10,
{
    ('0' as u8 + d) as char
}

/// `n` in decimal, without leading zeros.
pub open spec fn decimal(n: nat) -> Seq<char>
    decreases n,
{
    if n < 10 {
        seq![digit(n)]
    } else {
        decimal(n / 10).push(digit(n % 10))
    }
}

/// A decimal is one digit or more.
pub proof fn lemma_decimal_digits(n: nat)
    ensures
        decimal(n).len() > 0,
        forall|i: int| 0 <= i < decimal(n).len() ==> is_digit(#[trigger] decimal(n)[i]),
    decreases n,
{
    if n >= 10 {
        lemma_decimal_digits(n / 10);
        let front = decimal(n / 10);
        assert forall|i: int| 0 <= i < decimal(n).len() implies is_digit(
            #[trigger] decimal(n)[i],
        ) by {
            if i < front.len() {
                assert(decimal(n)[i] == front[i]);
            }
        }
    }
}

/// Different numbers have different decimals.
pub proof fn lemma_decimal_injective(a: nat, b: nat)
    requires
        decimal(a) == decimal(b),
    ensures
        a == b,
    decreases a,
{
    lemma_decimal_digits(a / 10);
    lemma_decimal_digits(b / 10);
    let (x, y) = (decimal(a / 10), decimal(b / 10));
    assert(decimal(a) == if a < 10 { seq![digit(a)] } else { x.push(digit(a % 10)) });
    assert(decimal(b) == if b < 10 { seq![digit(b)] } else { y.push(digit(b % 10)) });
    if a < 10 && b < 10 {
        assert(digit(a) == decimal(a)[0] && digit(b) == decimal(b)[0]);
        assert(digit(a) as nat == 48 + a && digit(b) as nat == 48 + b);
    } else if a < 10 || b < 10 {
        assert(decimal(a).len() != decimal(b).len());
    } else {
        assert(digit(a % 10) as nat == 48 + a % 10 && digit(b % 10) as nat == 48 + b % 10);
        assert(decimal(a).drop_last() =~= decimal(a / 10));
        assert(decimal(b).drop_last() =~= decimal(b / 10));
        lemma_decimal_injective(a / 10, b / 10);
        assert(x.push(digit(a % 10)).last() == digit(a % 10));
        assert(y.push(digit(b % 10)).last() == digit(b % 10));
        assert(a % 10 == b % 10);
        assert(a == 10 * (a / 10) + a % 10 && b == 10 * (b / 10) + b % 10);
    }
}

/// `n` in decimal, filled up to `width` with leading zeros.
pub open spec fn decimal_padded(n: nat, width: nat) -> Seq<char> {
    let d = decimal(n);
    if d.len() >= width {
        d
    } else {
        Seq::new((width - d.len()) as nat, |i: int| '0') + d
    }
}

fn digit_char(d: u64) -> (r: char)
    requires
        d < 10,
    ensures
        r == digit(d as nat),
{
    (48u8 + d as u8) as char
}

/// `n` in decimal.
pub fn dec(n: u64) -> (r: String)
    ensures
        r@ == decimal(n as nat),
    decreases n,
{
    if n < 10 {
        let mut out: String = String::new();
        out.push(digit_char(n));
        assert(out@ =~= seq![digit(n as nat)]);
        out
    } else {
        let mut out: String = dec(n / 10);
        out.push(digit_char(n % 10));
        out
    }
}

/// `n` in decimal, filled up to `width` with leading zeros.
pub fn dec_padded(n: u64, width: usize) -> (r: String)
    ensures
        r@ == decimal_padded(n as nat, width as nat),
{
    let d: String = dec(n);
    let len: usize = d.as_str().unicode_len();
    let mut out: String = String::new();
    let mut i: usize = len;
    while i < width
        invariant
            len <= i,
            len < width ==> i <= width,
            len >= width ==> i == len,
            out@ == Seq::new((i - len) as nat, |j: int| '0'),
        decreases width - i,
    {
        out.push('0');
        i = i + 1;
        assert(out@ =~= Seq::new((i - len) as nat, |j: int| '0'));
    }
    out.append(d.as_str());
    proof {
        if len >= width {
            assert(out@ =~= decimal(n as nat));
        }
    }
    out
}

/// A copy of a list of texts.
pub fn copy_all(items: &Vec<String>) -> (r: Vec<String>)
    ensures
        r@ == items@,
{
    let mut out: Vec<String> = Vec::new();
    let mut i: usize = 0;
    while i < items.len()
        invariant
            0 <= i <= items@.len(),
            out@ == items@.take(i as int),
        decreases items@.len() - i,
    {
        out.push(items[i].clone());
        i = i + 1;
        assert(out@ =~= items@.take(i as int));
    }
    assert(items@.take(items@.len() as int) =~= items@);
    out
}

/// Whether two lists hold the same texts in the same order.
pub fn same_all(a: &Vec<String>, b: &Vec<String>) -> (r: bool)
    ensures
        r == (order::views(a@) == order::views(b@)),
{
    if a.len() != b.len() {
        assert(order::views(a@).len() != order::views(b@).len());
        return false;
    }
    let mut i: usize = 0;
    while i < a.len()
        invariant
            0 <= i <= a@.len(),
            a@.len() == b@.len(),
            forall|j: int| 0 <= j < i ==> (#[trigger] a@[j])@ == b@[j]@,
        decreases a@.len() - i,
    {
        if !str_eq(a[i].as_str(), b[i].as_str()) {
            assert(order::views(a@)[i as int] != order::views(b@)[i as int]);
            return false;
        }
        i = i + 1;
    }
    assert(order::views(a@) =~= order::views(b@));
    true
}

/// A copy of an optional text.
pub fn copy_opt(s: &Option<String>) -> (r: Option<String>)
    ensures
        r == *s,
{
    match s {
        Some(x) => Some(x.clone()),
        None => None,
    }
}

/// What an optional text stands for.
pub open spec fn opt_view(s: Option<String>) -> Option<Seq<char>> {
    match s {
        Some(x) => Some(x@),
        None => None,
    }
}

/// What the values of a map stand for.
pub open spec fn texts(m: Map<Seq<char>, String>) -> Map<Seq<char>, Seq<char>> {
    m.map_values(|s: String| s@)
}

/// Whether `s` is one of the texts.
pub open spec fn among(items: Seq<String>, s: Seq<char>) -> bool {
    order::holds(items, s)
}

/// Whether `s` is one of the texts.
pub fn contains(items: &Vec<String>, s: &str) -> (r: bool)
    ensures
        r == among(items@, s@),
{
    let mut i: usize = 0;
    while i < items.len()
        invariant
            0 <= i <= items@.len(),
            forall|j: int| 0 <= j < i ==> (#[trigger] items@[j])@ != s@,
        decreases items@.len() - i,
    {
        if str_eq(items[i].as_str(), s) {
            assert(items@[i as int]@ == s@);
            return true;
        }
        i = i + 1;
    }
    false
}

/// The pieces of `s` between the separators `c`.
pub open spec fn pieces(s: Seq<char>, c: char) -> Seq<Seq<char>>
    decreases s.len(),
    via pieces_shrink
{
    let i = first_index(s, c);
    if i < 0 {
        seq![s]
    } else {
        seq![s.take(i)] + pieces(s.skip(i + 1), c)
    }
}

#[via_fn]
proof fn pieces_shrink(s: Seq<char>, c: char) {
    lemma_first_index(s, c);
}

/// No piece holds the separator.
pub proof fn lemma_pieces_lack(s: Seq<char>, c: char)
    ensures
        forall|i: int| 0 <= i < pieces(s, c).len() ==> !(#[trigger] pieces(s, c)[i]).contains(c),
    decreases s.len(),
{
    lemma_first_index(s, c);
    let i = first_index(s, c);
    if i >= 0 {
        lemma_pieces_lack(s.skip(i + 1), c);
        let rest = pieces(s.skip(i + 1), c);
        assert forall|j: int| 0 <= j < pieces(s, c).len() implies !(
        #[trigger] pieces(s, c)[j]).contains(c) by {
            if j > 0 {
                assert(pieces(s, c)[j] == rest[j - 1]);
            }
        }
    }
}

/// The pieces of `s` between the separators `c`.
pub fn split(s: &str, c: char) -> (r: Vec<String>)
    ensures
        order::views(r@) == pieces(s@, c),
        r@.len() >= 1,
{
    let mut out: Vec<String> = Vec::new();
    let n: usize = s.unicode_len();
    let mut at: usize = 0;
    assert(s@.skip(0) =~= s@);
    assert(order::views(out@) + pieces(s@, c) =~= pieces(s@, c));
    loop
        invariant_except_break
            n == s@.len(),
            0 <= at <= n,
            pieces(s@, c) == order::views(out@) + pieces(s@.skip(at as int), c),
        ensures
            order::views(out@) == pieces(s@, c),
            out@.len() >= 1,
        decreases n - at + 1,
    {
        let rest: &str = s.substring_char(at, n);
        assert(rest@ =~= s@.skip(at as int));
        proof {
            lemma_first_index(rest@, c);
        }
        match find(rest, c) {
            None => {
                let ghost before = order::views(out@);
                out.push(rest.to_owned());
                assert(order::views(out@) =~= before + seq![rest@]);
                break;
            },
            Some(i) => {
                let piece: &str = rest.substring_char(0, i);
                assert(piece@ =~= rest@.take(i as int));
                let ghost before = order::views(out@);
                out.push(piece.to_owned());
                assert(order::views(out@) =~= before + seq![piece@]);
                assert(rest@.skip(i + 1) =~= s@.skip(at + i + 1));
                assert((before + seq![piece@]) + pieces(s@.skip(at + i + 1), c) =~= before + (
                seq![piece@] + pieces(s@.skip(at + i + 1), c)));
                at = at + i + 1;
            },
        }
    }
    out
}

/// `s` without the characters `c` at its end.
pub open spec fn without_end(s: Seq<char>, c: char) -> Seq<char>
    decreases s.len(),
{
    if s.len() > 0 && s.last() == c {
        without_end(s.drop_last(), c)
    } else {
        s
    }
}

/// `s` without the characters `c` at its start.
pub open spec fn without_start(s: Seq<char>, c: char) -> Seq<char>
    decreases s.len(),
{
    if s.len() > 0 && s[0] == c {
        without_start(s.drop_first(), c)
    } else {
        s
    }
}

/// `s` without the characters `c` at its end.
pub fn trim_end_char(s: &str, c: char) -> (r: &str)
    ensures
        r@ == without_end(s@, c),
{
    let x: Vec<char> = chars_of(s);
    let mut n: usize = x.len();
    assert(s@.take(n as int) =~= s@);
    while n > 0 && x[n - 1] == c
        invariant
            x@ == s@,
            n <= x@.len(),
            without_end(s@.take(n as int), c) == without_end(s@, c),
        decreases n,
    {
        assert(s@.take(n as int).drop_last() =~= s@.take(n - 1));
        n = n - 1;
    }
    let r: &str = s.substring_char(0, n);
    assert(r@ =~= s@.take(n as int));
    r
}

/// `s` without the characters `c` at its start.
pub fn trim_start_char(s: &str, c: char) -> (r: &str)
    ensures
        r@ == without_start(s@, c),
{
    let x: Vec<char> = chars_of(s);
    let mut i: usize = 0;
    assert(s@.skip(0) =~= s@);
    while i < x.len() && x[i] == c
        invariant
            x@ == s@,
            i <= x@.len(),
            without_start(s@.skip(i as int), c) == without_start(s@, c),
        decreases x@.len() - i,
    {
        assert(s@.skip(i as int).drop_first() =~= s@.skip(i + 1));
        i = i + 1;
    }
    let r: &str = s.substring_char(i, x.len());
    assert(r@ =~= s@.skip(i as int));
    r
}

/// Whether a character is white space (the Unicode property `White_Space`).
pub open spec fn is_white(c: char) -> bool {
    let n = c as u32;
    ||| 0x9 <= n <= 0xd
    ||| n == 0x20
    ||| n == 0x85
    ||| n == 0xa0
    ||| n == 0x1680
    ||| 0x2000 <= n <= 0x200a
    ||| n == 0x2028
    ||| n == 0x2029
    ||| n == 0x202f
    ||| n == 0x205f
    ||| n == 0x3000
}

fn white(c: char) -> (r: bool)
    ensures
        r == is_white(c),
{
    let n: u32 = c as u32;
    (0x9 <= n && n <= 0xd) || n == 0x20 || n == 0x85 || n == 0xa0 || n == 0x1680 || (0x2000 <= n
        && n <= 0x200a) || n == 0x2028 || n == 0x2029 || n == 0x202f || n == 0x205f || n == 0x3000
}

/// `s` without white space at its end.
pub open spec fn without_white_end(s: Seq<char>) -> Seq<char>
    decreases s.len(),
{
    if s.len() > 0 && is_white(s.last()) {
        without_white_end(s.drop_last())
    } else {
        s
    }
}

/// `s` without white space at its start.
pub open spec fn without_white_start(s: Seq<char>) -> Seq<char>
    decreases s.len(),
{
    if s.len() > 0 && is_white(s[0]) {
        without_white_start(s.drop_first())
    } else {
        s
    }
}

/// `s` without white space at its ends.
pub open spec fn stripped(s: Seq<char>) -> Seq<char> {
    without_white_end(without_white_start(s))
}

/// `s` without white space at its ends.
pub fn trim(s: &str) -> (r: &str)
    ensures
        r@ == stripped(s@),
{
    let x: Vec<char> = chars_of(s);
    let mut i: usize = 0;
    assert(s@.skip(0) =~= s@);
    while i < x.len() && white(x[i])
        invariant
            x@ == s@,
            i <= x@.len(),
            without_white_start(s@.skip(i as int)) == without_white_start(s@),
        decreases x@.len() - i,
    {
        assert(s@.skip(i as int).drop_first() =~= s@.skip(i + 1));
        i = i + 1;
    }
    let ghost front = s@.skip(i as int);
    assert(without_white_start(s@) == front);
    let mut n: usize = x.len();
    assert(front.take(n - i) =~= front);
    while n > i && white(x[n - 1])
        invariant
            x@ == s@,
            i <= n <= x@.len(),
            front == s@.skip(i as int),
            without_white_end(front.take(n - i)) == without_white_end(front),
        decreases n,
    {
        assert(front.take(n - i).drop_last() =~= front.take(n - 1 - i));
        n = n - 1;
    }
    let r: &str = s.substring_char(i, n);
    assert(r@ =~= front.take(n - i));
    r
}

/// The words of `s`: the longest pieces without white space.
pub open spec fn words(s: Seq<char>) -> Seq<Seq<char>>
    decreases s.len(),
{
    if s.len() == 0 {
        Seq::empty()
    } else {
        let front = words(s.drop_last());
        if is_white(s.last()) {
            front
        } else if s.len() > 1 && !is_white(s[s.len() - 2]) {
            front.drop_last().push(front.last().push(s.last()))
        } else {
            front.push(seq![s.last()])
        }
    }
}

proof fn lemma_words_nonempty(s: Seq<char>)
    requires
        s.len() > 0,
        !is_white(s.last()),
    ensures
        words(s).len() > 0,
    decreases s.len(),
{
    if s.len() > 1 && !is_white(s[s.len() - 2]) {
        lemma_words_nonempty(s.drop_last());
    }
}

/// The words of `s`.
pub fn split_words(s: &str) -> (r: Vec<String>)
    ensures
        order::views(r@) == words(s@),
{
    let x: Vec<char> = chars_of(s);
    let mut out: Vec<String> = Vec::new();
    let mut i: usize = 0;
    assert(s@.take(0) =~= Seq::empty());
    assert(order::views(out@) =~= words(s@.take(0)));
    while i < x.len()
        invariant
            x@ == s@,
            0 <= i <= x@.len(),
            order::views(out@) == words(s@.take(i as int)),
        decreases x@.len() - i,
    {
        let ghost t = s@.take(i as int);
        let ghost t1 = s@.take(i + 1);
        let ghost before = order::views(out@);
        proof {
            assert(t1.drop_last() =~= t);
            assert(t1.last() == x@[i as int]);
        }
        if !white(x[i]) {
            if i > 0 && !white(x[i - 1]) {
                proof {
                    assert(t.last() == x@[i - 1]);
                    lemma_words_nonempty(t);
                    assert(before.last() == out@.last()@);
                }
                match out.pop() {
                    Some(w) => {
                        let mut w: String = w;
                        w.push(x[i]);
                        out.push(w);
                        assert(order::views(out@) =~= before.drop_last().push(
                            before.last().push(x@[i as int]),
                        ));
                    },
                    None => {},
                }
            } else {
                let mut w: String = String::new();
                w.push(x[i]);
                out.push(w);
                assert(w@ =~= seq![x@[i as int]]);
                assert(order::views(out@) =~= before.push(seq![x@[i as int]]));
            }
        }
        i = i + 1;
    }
    assert(s@.take(s@.len() as int) =~= s@);
    out
}

/// One line without the carriage return at its end.
pub open spec fn line(s: Seq<char>) -> Seq<char> {
    if s.len() > 0 && s.last() == '\r' {
        s.drop_last()
    } else {
        s
    }
}

/// The lines of `s`: what stands between line feeds, without a carriage return at its end, and
/// without an empty last piece.
pub open spec fn line_texts(s: Seq<char>) -> Seq<Seq<char>> {
    let all = pieces(s, '\n');
    let some = if all.last().len() == 0 {
        all.drop_last()
    } else {
        all
    };
    some.map_values(|l: Seq<char>| line(l))
}

/// The lines of `s`.
pub fn lines(s: &str) -> (r: Vec<String>)
    ensures
        order::views(r@) == line_texts(s@),
{
    let all: Vec<String> = split(s, '\n');
    let ghost av = order::views(all@);
    let n: usize = all.len();
    assert(av.last() == all@[n - 1]@);
    let count: usize = if all[n - 1].as_str().is_empty() {
        n - 1
    } else {
        n
    };
    let ghost some = if av.last().len() == 0 {
        av.drop_last()
    } else {
        av
    };
    assert(some =~= av.take(count as int));
    let mut out: Vec<String> = Vec::new();
    let mut i: usize = 0;
    while i < count
        invariant
            0 <= i <= count,
            count <= all@.len(),
            av == order::views(all@),
            some == av.take(count as int),
            out@.len() == i,
            forall|j: int| 0 <= j < i ==> (#[trigger] out@[j])@ == line(some[j]),
        decreases count - i,
    {
        let l: &str = all[i].as_str();
        let len: usize = l.unicode_len();
        assert(some[i as int] == l@);
        if len > 0 && l.get_char(len - 1) == '\r' {
            let cut: &str = l.substring_char(0, len - 1);
            assert(cut@ =~= l@.drop_last());
            out.push(cut.to_owned());
        } else {
            out.push(l.to_owned());
        }
        i = i + 1;
    }
    assert(order::views(out@) =~= line_texts(s@));
    out
}

/// What follows `prefix` in `s`.
pub fn strip_prefix<'a>(s: &'a str, prefix: &str) -> (r: Option<&'a str>)
    ensures
        match r {
            Some(rest) => has_prefix(s@, prefix@) && rest@ == s@.skip(prefix@.len() as int),
            None => !has_prefix(s@, prefix@),
        },
{
    if !starts_with(s, prefix) {
        return None;
    }
    let rest: &str = s.substring_char(prefix.unicode_len(), s.unicode_len());
    assert(rest@ =~= s@.skip(prefix@.len() as int));
    Some(rest)
}

/// What stands before `suffix` in `s`.
pub fn strip_suffix<'a>(s: &'a str, suffix: &str) -> (r: Option<&'a str>)
    ensures
        match r {
            Some(rest) => has_suffix(s@, suffix@) && rest@ == s@.take(s@.len() - suffix@.len()),
            None => !has_suffix(s@, suffix@),
        },
{
    if !ends_with(s, suffix) {
        return None;
    }
    let rest: &str = s.substring_char(0, s.unicode_len() - suffix.unicode_len());
    assert(rest@ =~= s@.take(s@.len() - suffix@.len()));
    Some(rest)
}

/// What stands before and behind the first `c` in `s`.
pub fn split_once<'a>(s: &'a str, c: char) -> (r: Option<(&'a str, &'a str)>)
    ensures
        match r {
            Some((a, b)) => {
                &&& first_index(s@, c) >= 0
                &&& a@ == s@.take(first_index(s@, c))
                &&& b@ == s@.skip(first_index(s@, c) + 1)
            },
            None => first_index(s@, c) < 0,
        },
{
    proof {
        lemma_first_index(s@, c);
    }
    match find(s, c) {
        Some(i) => {
            let n: usize = s.unicode_len();
            let a: &str = s.substring_char(0, i);
            let b: &str = s.substring_char(i + 1, n);
            assert(a@ =~= s@.take(i as int));
            assert(b@ =~= s@.skip(i + 1));
            Some((a, b))
        },
        None => None,
    }
}

/// The texts of a list, each once, in ascending order.
pub fn sorted_unique(items: &Vec<String>) -> (r: Vec<String>)
    ensures
        order::ascending(r@),
        forall|s: Seq<char>| #[trigger] among(r@, s) <==> among(items@, s),
{
    let mut out: order::SortedSet<String> = order::SortedSet::new();
    let mut i: usize = 0;
    while i < items.len()
        invariant
            0 <= i <= items@.len(),
            out.wf(),
            forall|s: Seq<char>| #[trigger]
                out.has(s) <==> among(items@.take(i as int), s),
        decreases items@.len() - i,
    {
        let ghost before = out;
        let fresh: bool = out.insert(items[i].clone());
        proof {
            assert(items@.take(i + 1) =~= items@.take(i as int).push(items@[i as int]));
            assert forall|s: Seq<char>| #[trigger] out.has(s) <==> among(items@.take(i + 1), s) by {
                lemma_among_push(items@.take(i as int), items@[i as int], s);
                assert(before.has(s) <==> among(items@.take(i as int), s));
            }
        }
        i = i + 1;
    }
    assert(items@.take(items@.len() as int) =~= items@);
    assert forall|s: Seq<char>| #[trigger] among(out.items@, s) <==> among(items@, s) by {
        assert(out.has(s) <==> among(items@, s));
    }
    out.items
}

/// What a list holds after one more item.
pub proof fn lemma_among_push(s: Seq<String>, x: String, k: Seq<char>)
    ensures
        among(s.push(x), k) <==> among(s, k) || x@ == k,
{
    if among(s, k) {
        let i = choose|i: int| 0 <= i < s.len() && #[trigger] s[i]@ == k;
        assert(s.push(x)[i]@ == k);
    }
    if x@ == k {
        assert(s.push(x)[s.len() as int]@ == k);
    }
    if among(s.push(x), k) {
        let i = choose|i: int| 0 <= i < s.push(x).len() && #[trigger] s.push(x)[i]@ == k;
        if i < s.len() {
            assert(s[i]@ == k);
        }
    }
}

/// What two lists together hold.
pub proof fn lemma_among_concat(a: Seq<String>, b: Seq<String>, k: Seq<char>)
    ensures
        among(a + b, k) <==> among(a, k) || among(b, k),
{
    if among(a, k) {
        let i = choose|i: int| 0 <= i < a.len() && #[trigger] a[i]@ == k;
        assert((a + b)[i]@ == k);
    }
    if among(b, k) {
        let i = choose|i: int| 0 <= i < b.len() && #[trigger] b[i]@ == k;
        assert((a + b)[a.len() + i]@ == k);
    }
    if among(a + b, k) {
        let i = choose|i: int| 0 <= i < (a + b).len() && #[trigger] (a + b)[i]@ == k;
        if i < a.len() {
            assert(a[i]@ == k);
        } else {
            assert(b[i - a.len()]@ == k);
        }
    }
}

/// Whether `c` is a decimal digit.
pub open spec fn is_digit(c: char) -> bool {
    '0' <= c <= '9'
}

/// What digits are worth.
pub open spec fn digits_value(s: Seq<char>) -> nat
    decreases s.len(),
{
    if s.len() == 0 {
        0
    } else {
        digits_value(s.drop_last()) * 10 + (s.last() as nat - '0' as nat) as nat
    }
}

/// The digits of a numeral: all of it, but for a plus sign in front.
pub open spec fn unsigned_part(s: Seq<char>) -> Seq<char> {
    if s.len() > 0 && s[0] == '+' {
        s.skip(1)
    } else {
        s
    }
}

/// The number that an unsigned numeral stands for: one digit or more, with or without a plus
/// sign in front.
pub open spec fn numeral(s: Seq<char>) -> Option<nat> {
    let d = unsigned_part(s);
    if d.len() > 0 && (forall|i: int| 0 <= i < d.len() ==> is_digit(#[trigger] d[i])) {
        Some(digits_value(d))
    } else {
        None
    }
}

proof fn lemma_digits_grow(s: Seq<char>, i: int)
    requires
        0 <= i <= s.len(),
        forall|j: int| 0 <= j < s.len() ==> is_digit(#[trigger] s[j]),
    ensures
        digits_value(s.take(i)) <= digits_value(s),
    decreases s.len(),
{
    if i == s.len() {
        assert(s.take(i) =~= s);
    } else {
        lemma_digits_grow(s.drop_last(), i);
        assert(s.drop_last().take(i) =~= s.take(i));
        assert(is_digit(s[s.len() - 1]));
    }
}

/// Read an unsigned number.
pub fn parse_u64(s: &str) -> (r: Option<u64>)
    ensures
        match r {
            Some(n) => numeral(s@) == Some(n as nat),
            None => numeral(s@) is None || numeral(s@)->0 > u64::MAX,
        },
{
    let chars: Vec<char> = chars_of(s);
    let mut start: usize = 0;
    if chars.len() > 0 && chars[0] == '+' {
        start = 1;
    }
    let ghost d = unsigned_part(s@);
    assert(d =~= s@.skip(start as int));
    if start == chars.len() {
        return None;
    }
    let mut value: u64 = 0;
    let mut i: usize = start;
    assert(d.take(0) =~= Seq::empty());
    while i < chars.len()
        invariant
            start <= i <= chars@.len(),
            chars@ == s@,
            d == s@.skip(start as int),
            d == unsigned_part(s@),
            d.len() > 0,
            value == digits_value(d.take(i - start)),
            forall|j: int| 0 <= j < i - start ==> is_digit(#[trigger] d[j]),
        decreases chars@.len() - i,
    {
        let c: char = chars[i];
        assert(d[i - start] == c);
        if c < '0' || c > '9' {
            return None;
        }
        let digit: u64 = (c as u32 - '0' as u32) as u64;
        proof {
            let t = d.take(i + 1 - start);
            assert(t.drop_last() =~= d.take(i - start));
            assert(t.last() == c);
            assert(digits_value(t) == value * 10 + digit);
            if numeral(s@) is Some {
                lemma_digits_grow(d, i + 1 - start);
            }
        }
        if value > (u64::MAX - digit) / 10 {
            assert(value * 10 + digit > u64::MAX);
            return None;
        }
        value = value * 10 + digit;
        i = i + 1;
    }
    assert(d.take(d.len() as int) =~= d);
    Some(value)
}

/// What an optional number looks like in a message.
pub open spec fn known(n: Option<u64>) -> Seq<char> {
    match n {
        Some(x) => decimal(x as nat),
        None => "?"@,
    }
}

/// What an optional number looks like in a message.
pub fn opt(n: &Option<u64>) -> (r: String)
    ensures
        r@ == known(*n),
{
    match n {
        Some(x) => dec(*x),
        None => "?".to_owned(),
    }
}

/// Texts with a character between each two.
pub open spec fn rejoined(items: Seq<Seq<char>>, c: char) -> Seq<char>
    decreases items.len(),
{
    if items.len() == 0 {
        Seq::empty()
    } else if items.len() == 1 {
        items[0]
    } else {
        items[0] + seq![c] + rejoined(items.drop_first(), c)
    }
}

/// Splitting a text loses nothing: its pieces, with the separator between them, are the text, and no
/// piece has the separator in it.
pub proof fn law_pieces_join_back(s: &str, c: char, r: Vec<String>, i: int)
    requires
        call_ensures(split, (s, c), r),
    ensures
        rejoined(order::views(r@), c) == s@,
        0 <= i < r@.len() ==> !r@[i]@.contains(c),
        r@.len() > 0,
{
    lemma_pieces_rejoin(s@, c);
    lemma_pieces_lack(s@, c);
    let rv = order::views(r@);
    assert(rv.len() == r@.len());
    if 0 <= i < r@.len() {
        assert(rv[i] == r@[i]@);
    }
}

proof fn lemma_pieces_rejoin(s: Seq<char>, c: char)
    ensures
        rejoined(pieces(s, c), c) == s,
        pieces(s, c).len() > 0,
    decreases s.len(),
{
    lemma_first_index(s, c);
    let i = first_index(s, c);
    if i >= 0 {
        let rest = s.skip(i + 1);
        lemma_pieces_rejoin(rest, c);
        let all = pieces(s, c);
        assert(all.drop_first() =~= pieces(rest, c));
        assert(s =~= s.take(i) + seq![c] + rest);
    }
}

/// A number reads back from its digits, and only digits, after a plus sign if there is one, read as
/// a number.
pub proof fn law_numbers_read_back(n: u64, t: String, s: &str, r: Option<u64>)
    requires
        call_ensures(dec, (n,), t),
        s@ == t@,
        call_ensures(parse_u64, (s,), r),
    ensures
        r == Some(n),
        t@.len() > 0,
{
    lemma_decimal_value(n as nat);
    lemma_decimal_digits(n as nat);
    let d = decimal(n as nat);
    assert(is_digit(d[0]));
    assert(unsigned_part(d) == d);
}

/// The digits of a number have its value.
pub proof fn lemma_decimal_value(n: nat)
    ensures
        digits_value(decimal(n)) == n,
        decimal(n).len() > 0,
        forall|i: int| 0 <= i < decimal(n).len() ==> is_digit(#[trigger] decimal(n)[i]),
        n > 0 ==> decimal(n)[0] != '0',
    decreases n,
{
    if n < 10 {
        let d = decimal(n);
        assert(d.drop_last() =~= Seq::empty());
        assert(d.last() == digit(n));
        reveal_with_fuel(digits_value, 2);
    } else {
        lemma_decimal_value(n / 10);
        let d = decimal(n);
        assert(d.drop_last() =~= decimal(n / 10));
        assert(d.last() == digit(n % 10));
        assert forall|i: int| 0 <= i < d.len() implies is_digit(#[trigger] d[i]) by {
            if i < d.len() - 1 {
                assert(d[i] == decimal(n / 10)[i]);
            }
        }
        assert(d[0] == decimal(n / 10)[0]);
    }
}

/// Trimming takes white space off the ends and nothing else: what is left stands in the text, with
/// white space alone around it, and neither begins nor ends with any.
pub proof fn law_trimming_takes_only_white_space(s: &str, r: &str)
    requires
        call_ensures(trim, (s,), r),
    ensures
        exists|a: int|
            0 <= a && a + r@.len() <= s@.len() && #[trigger] s@.subrange(a, a + r@.len()) == r@ && (
            forall|i: int|
                0 <= i < a || a + r@.len() <= i < s@.len() ==> is_white(#[trigger] s@[i])),
        r@.len() > 0 ==> !is_white(r@[0]) && !is_white(r@.last()),
{
    lemma_stripped(s@);
}

/// What [`stripped`] leaves.
pub proof fn lemma_stripped(s: Seq<char>)
    ensures
        exists|a: int|
            0 <= a && a + stripped(s).len() <= s.len() && #[trigger] s.subrange(
                a,
                a + stripped(s).len(),
            ) == stripped(s) && (forall|i: int|
                0 <= i < a || a + stripped(s).len() <= i < s.len() ==> is_white(#[trigger] s[i])),
        stripped(s).len() > 0 ==> !is_white(stripped(s)[0]) && !is_white(stripped(s).last()),
{
    lemma_white_start(s);
    let t = without_white_start(s);
    lemma_white_end(t);
    let r = without_white_end(t);
    let a = s.len() - t.len();
    assert(s.subrange(a, a + r.len()) =~= r) by {
        assert forall|i: int| 0 <= i < r.len() implies s[a + i] == r[i] by {
            assert(t[i] == s.skip(a)[i]);
            assert(r[i] == t.take(r.len() as int)[i]);
        }
    }
    assert forall|i: int| 0 <= i < a || a + r.len() <= i < s.len() implies is_white(
        #[trigger] s[i],
    ) by {
        if i >= a {
            assert(t[i - a] == s.skip(a)[i - a]);
        }
    }
    if r.len() > 0 {
        assert(r[0] == t[0]);
    }
    assert(stripped(s) == r);
    assert(s.subrange(a, a + stripped(s).len()) == stripped(s));
}

proof fn lemma_white_start(s: Seq<char>)
    ensures
        ({
            let t = without_white_start(s);
            let a = s.len() - t.len();
            &&& t.len() <= s.len()
            &&& t == s.skip(a)
            &&& forall|i: int| 0 <= i < a ==> is_white(#[trigger] s[i])
            &&& t.len() > 0 ==> !is_white(t[0])
        }),
    decreases s.len(),
{
    if s.len() > 0 && is_white(s[0]) {
        lemma_white_start(s.drop_first());
        let t = without_white_start(s);
        let a = s.len() - t.len();
        assert(s.drop_first().skip(a - 1) =~= s.skip(a));
        assert forall|i: int| 0 <= i < a implies is_white(#[trigger] s[i]) by {
            if i > 0 {
                assert(s.drop_first()[i - 1] == s[i]);
            }
        }
    } else {
        assert(s.skip(0) =~= s);
    }
}

proof fn lemma_white_end(s: Seq<char>)
    ensures
        ({
            let t = without_white_end(s);
            &&& t.len() <= s.len()
            &&& t == s.take(t.len() as int)
            &&& forall|i: int| t.len() <= i < s.len() ==> is_white(#[trigger] s[i])
            &&& t.len() > 0 ==> !is_white(t.last())
        }),
    decreases s.len(),
{
    if s.len() > 0 && is_white(s.last()) {
        lemma_white_end(s.drop_last());
        let t = without_white_end(s);
        assert(s.drop_last().take(t.len() as int) =~= s.take(t.len() as int));
        assert forall|i: int| t.len() <= i < s.len() implies is_white(#[trigger] s[i]) by {
            if i < s.len() - 1 {
                assert(s.drop_last()[i] == s[i]);
            }
        }
    } else {
        assert(s.take(s.len() as int) =~= s);
    }
}

/// A list without duplicates has each text that was given once, in order, and no other.
pub proof fn law_sorting_keeps_every_text(items: Vec<String>, r: Vec<String>, i: int, j: int)
    requires
        call_ensures(sorted_unique, (&items,), r),
    ensures
        0 <= i < items@.len() ==> order::views(r@).contains(items@[i]@),
        0 <= i < r@.len() ==> order::views(items@).contains(r@[i]@),
        0 <= i < j < r@.len() ==> text_less(r@[i]@, r@[j]@) && r@[i]@ != r@[j]@,
{
    let (iv, rv) = (order::views(items@), order::views(r@));
    if 0 <= i < items@.len() {
        assert(among(items@, items@[i]@));
        assert(among(r@, items@[i]@));
        let k = choose|k: int| 0 <= k < r@.len() && #[trigger] r@[k]@ == items@[i]@;
        assert(rv[k] == items@[i]@);
    }
    if 0 <= i < r@.len() {
        assert(among(r@, r@[i]@));
        assert(among(items@, r@[i]@));
        let k = choose|k: int| 0 <= k < items@.len() && #[trigger] items@[k]@ == r@[i]@;
        assert(iv[k] == r@[i]@);
    }
    if 0 <= i < j < r@.len() {
        order::lemma_rank_irreflexive(text_rank(r@[i]@));
    }
}

/// The words of a text: white space and one word more is that word more.
pub proof fn law_words_come_one_after_the_other(x: Seq<char>, white: char, w: Seq<char>)
    requires
        is_white(white),
        w.len() > 0,
        forall|i: int| 0 <= i < w.len() ==> !is_white(#[trigger] w[i]),
    ensures
        words(Seq::empty()).len() == 0,
        words(x.push(white)) == words(x),
        words(x.push(white) + w) == words(x).push(w),
    decreases w.len(),
{
    let y = x.push(white);
    assert(y.drop_last() =~= x);
    let s = y + w;
    assert(s.last() == w.last());
    assert(w[w.len() - 1] == w.last());
    if w.len() == 1 {
        assert(s.drop_last() =~= y);
        assert(s[s.len() - 2] == white);
        assert(seq![s.last()] =~= w);
    } else {
        let v = w.drop_last();
        assert forall|i: int| 0 <= i < v.len() implies !is_white(#[trigger] v[i]) by {
            assert(v[i] == w[i]);
        }
        law_words_come_one_after_the_other(x, white, v);
        assert(s.drop_last() =~= y + v);
        assert(s[s.len() - 2] == w[w.len() - 2]);
        let front = words(y + v);
        assert(front.drop_last() =~= words(x));
        assert(front.last() == v);
        assert(v.push(w.last()) =~= w);
    }
}

/// The lines of a text: a line and its end in front of a text is one line more, in front.
pub proof fn law_lines_come_one_after_the_other(l: Seq<char>, rest: Seq<char>)
    requires
        !l.contains('\n'),
        l.len() > 0 ==> l.last() != '\r',
    ensures
        line_texts(Seq::empty()).len() == 0,
        line_texts(l + seq!['\n'] + rest) == seq![l] + line_texts(rest),
{
    let s = l + seq!['\n'] + rest;
    assert(s[l.len() as int] == '\n');
    assert forall|k: int| 0 <= k < l.len() implies s[k] != '\n' by {
        assert(s[k] == l[k]);
        if s[k] == '\n' {
            assert(l.contains(l[k]));
        }
    }
    lemma_first_index_is(s, '\n', l.len() as int);
    assert(s.take(l.len() as int) =~= l);
    assert(s.skip(l.len() as int + 1) =~= rest);
    lemma_pieces_rejoin(rest, '\n');
    let (all, more) = (pieces(s, '\n'), pieces(rest, '\n'));
    assert(all =~= seq![l] + more);
    assert(all.last() == more.last());
    let f = |x: Seq<char>| line(x);
    if more.last().len() == 0 {
        assert(all.drop_last() =~= seq![l] + more.drop_last());
    }
    assert(line_texts(s) =~= seq![l] + line_texts(rest));
    lemma_first_index(Seq::empty(), '\n');
    let none = pieces(Seq::empty(), '\n');
    assert(none =~= seq![Seq::<char>::empty()]);
    assert(line_texts(Seq::empty()) =~= Seq::empty());
}

/// Taking a character off an end takes it off as often as it stands there, and nothing else.
pub proof fn law_trimming_a_character_takes_nothing_else(
    s: &str,
    c: char,
    end: &str,
    start: &str,
)
    requires
        call_ensures(trim_end_char, (s, c), end),
        call_ensures(trim_start_char, (s, c), start),
    ensures
        has_prefix(s@, end@),
        end@.len() > 0 ==> end@.last() != c,
        forall|i: int| end@.len() <= i < s@.len() ==> #[trigger] s@[i] == c,
        has_suffix(s@, start@),
        start@.len() > 0 ==> start@[0] != c,
        forall|i: int| 0 <= i < s@.len() - start@.len() ==> #[trigger] s@[i] == c,
{
    lemma_without_end(s@, c);
    lemma_without_start(s@, c);
}

proof fn lemma_without_end(s: Seq<char>, c: char)
    ensures
        ({
            let t = without_end(s, c);
            &&& t.len() <= s.len() && s.take(t.len() as int) == t
            &&& t.len() > 0 ==> t.last() != c
            &&& forall|i: int| t.len() <= i < s.len() ==> #[trigger] s[i] == c
        }),
    decreases s.len(),
{
    if s.len() > 0 && s.last() == c {
        lemma_without_end(s.drop_last(), c);
        let t = without_end(s, c);
        assert(s.drop_last().take(t.len() as int) =~= s.take(t.len() as int));
        assert forall|i: int| t.len() <= i < s.len() implies #[trigger] s[i] == c by {
            if i < s.len() - 1 {
                assert(s.drop_last()[i] == s[i]);
            }
        }
    } else {
        assert(s.take(s.len() as int) =~= s);
    }
}

proof fn lemma_without_start(s: Seq<char>, c: char)
    ensures
        ({
            let t = without_start(s, c);
            let a = s.len() - t.len();
            &&& t.len() <= s.len() && s.skip(a) == t
            &&& t.len() > 0 ==> t[0] != c
            &&& forall|i: int| 0 <= i < a ==> #[trigger] s[i] == c
        }),
    decreases s.len(),
{
    if s.len() > 0 && s[0] == c {
        lemma_without_start(s.drop_first(), c);
        let t = without_start(s, c);
        let a = s.len() - t.len();
        assert(s.drop_first().skip(a - 1) =~= s.skip(a));
        assert forall|i: int| 0 <= i < a implies #[trigger] s[i] == c by {
            if i > 0 {
                assert(s.drop_first()[i - 1] == s[i]);
            }
        }
    } else {
        assert(s.skip(0) =~= s);
    }
}

/// A text is split at the first of the separators: what stands before it holds none, and the two
/// halves with the separator between them are the text.
pub proof fn law_a_split_is_at_the_first_separator(
    s: &str,
    c: char,
    r: Option<(&str, &str)>,
    last: Option<usize>,
)
    requires
        call_ensures(split_once, (s, c), r),
        call_ensures(rfind, (s, c), last),
    ensures
        r is Some <==> s@.contains(c),
        last is Some <==> s@.contains(c),
        r matches Some((a, b)) ==> s@ == a@.push(c) + b@ && !a@.contains(c),
        last matches Some(i) ==> i < s@.len() && s@[i as int] == c && forall|j: int|
            i < j < s@.len() ==> #[trigger] s@[j] != c,
{
    lemma_first_index(s@, c);
    lemma_last_index(s@, c);
    if let Some((a, b)) = r {
        assert(s@ =~= a@.push(c) + b@);
    }
}

} // verus!
