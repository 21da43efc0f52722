//! Textual network addresses.

use vstd::prelude::*;
use vstd::string::*;
use crate::chunk;
use crate::order;
use crate::text;

verus! {

/// The value of one of the four numbers of an IPv4 address: one to three digits, no leading zero,
/// at most 255.
pub open spec fn octet(s: Seq<char>) -> Option<nat> {
    if 1 <= s.len() <= 3 && (forall|i: int| 0 <= i < s.len() ==> text::is_digit(#[trigger] s[i]))
        && (s.len() > 1 ==> s[0] != '0') && text::digits_value(s) <= 255 {
        Some(text::digits_value(s))
    } else {
        None
    }
}

/// The four numbers of an IPv4 address in dotted form.
pub open spec fn ipv4(s: Seq<char>) -> Option<(nat, nat, nat, nat)> {
    let p = text::pieces(s, '.');
    if p.len() == 4 && octet(p[0]) is Some && octet(p[1]) is Some && octet(p[2]) is Some && octet(
        p[3],
    ) is Some {
        Some((octet(p[0])->0, octet(p[1])->0, octet(p[2])->0, octet(p[3])->0))
    } else {
        None
    }
}

fn read_octet(s: &str) -> (r: Option<u16>)
    ensures
        match r {
            Some(n) => octet(s@) == Some(n as nat),
            None => octet(s@) is None,
        },
{
    let chars: Vec<char> = text::chars_of(s);
    let n: usize = chars.len();
    if n == 0 || n > 3 || (n > 1 && chars[0] == '0') {
        return None;
    }
    let mut value: u16 = 0;
    let mut i: usize = 0;
    assert(s@.take(0) =~= Seq::empty());
    while i < n
        invariant
            0 <= i <= n <= 3,
            n == chars@.len(),
            chars@ == s@,
            value == text::digits_value(s@.take(i as int)),
            i == 0 ==> value == 0,
            i == 1 ==> value <= 9,
            i == 2 ==> value <= 99,
            i == 3 ==> value <= 999,
            forall|j: int| 0 <= j < i ==> text::is_digit(#[trigger] s@[j]),
        decreases n - i,
    {
        let c: char = chars[i];
        if c < '0' || c > '9' {
            assert(!text::is_digit(s@[i as int]));
            return None;
        }
        proof {
            let t = s@.take(i + 1);
            assert(t.drop_last() =~= s@.take(i as int));
            assert(t.last() == c);
        }
        value = value * 10 + (c as u32 - '0' as u32) as u16;
        i = i + 1;
    }
    assert(s@.take(n as int) =~= s@);
    if value <= 255 {
        Some(value)
    } else {
        None
    }
}

fn read_ipv4(s: &str) -> (r: Option<(u16, u16, u16, u16)>)
    ensures
        match r {
            Some((a, b, c, d)) => ipv4(s@) == Some((a as nat, b as nat, c as nat, d as nat)) && a
                <= 255 && b <= 255 && c <= 255 && d <= 255,
            None => ipv4(s@) is None,
        },
{
    let p: Vec<String> = text::split(s, '.');
    let ghost pv = text::pieces(s@, '.');
    if p.len() != 4 {
        assert(pv.len() != 4);
        return None;
    }
    assert(pv[0] == p@[0]@ && pv[1] == p@[1]@ && pv[2] == p@[2]@ && pv[3] == p@[3]@);
    match (
        read_octet(p[0].as_str()),
        read_octet(p[1].as_str()),
        read_octet(p[2].as_str()),
        read_octet(p[3].as_str()),
    ) {
        (Some(a), Some(b), Some(c), Some(d)) => Some((a, b, c, d)),
        _ => None,
    }
}

/// What hexadecimal digits are worth.
pub open spec fn hex_digits_value(s: Seq<char>) -> nat
    decreases s.len(),
{
    if s.len() == 0 {
        0
    } else {
        hex_digits_value(s.drop_last()) * 16 + chunk::hex_value(s.last()).unwrap_or(0)
    }
}

/// The value of one group of an IPv6 address: one to four hexadecimal digits.
pub open spec fn group(s: Seq<char>) -> Option<nat> {
    if 1 <= s.len() <= 4 && (forall|i: int|
        0 <= i < s.len() ==> chunk::hex_value(#[trigger] s[i]) is Some) {
        Some(hex_digits_value(s))
    } else {
        None
    }
}

/// The value of each piece; none if one of them is no group.
pub open spec fn groups_of(pieces: Seq<Seq<char>>) -> Option<Seq<nat>>
    decreases pieces.len(),
{
    if pieces.len() == 0 {
        Some(Seq::empty())
    } else {
        match (groups_of(pieces.drop_last()), group(pieces.last())) {
            (Some(front), Some(g)) => Some(front.push(g)),
            _ => None,
        }
    }
}

/// The groups of a run of an IPv6 address: pieces between colons, the last of which may be an IPv4
/// address, which is worth two groups.
pub open spec fn run(s: Seq<char>, ipv4_may_end: bool) -> Option<Seq<nat>> {
    if s.len() == 0 {
        Some(Seq::empty())
    } else {
        let p = text::pieces(s, ':');
        match ipv4(p.last()) {
            Some((a, b, c, d)) if ipv4_may_end => match groups_of(p.drop_last()) {
                Some(front) => Some(front.push(a * 256 + b).push(c * 256 + d)),
                None => None,
            },
            _ => groups_of(p),
        }
    }
}

/// Where the first `::` begins, or -1.
pub open spec fn gap(s: Seq<char>) -> int
    decreases s.len(),
{
    if s.len() < 2 {
        -1
    } else {
        let front = gap(s.drop_last());
        if front >= 0 {
            front
        } else if s[s.len() - 2] == ':' && s[s.len() - 1] == ':' {
            s.len() - 2
        } else {
            -1
        }
    }
}

/// The eight groups of an IPv6 address. A `::` stands for as many zero groups as are missing, one
/// at least.
pub open spec fn ipv6(s: Seq<char>) -> Option<Seq<nat>> {
    let at = gap(s);
    if at < 0 {
        match run(s, true) {
            Some(g) if g.len() == 8 => Some(g),
            _ => None,
        }
    } else {
        match (run(s.take(at), false), run(s.skip(at + 2), true)) {
            (Some(head), Some(tail)) if head.len() + tail.len() <= 7 => Some(
                head + Seq::new((8 - head.len() - tail.len()) as nat, |i: int| 0) + tail,
            ),
            _ => None,
        }
    }
}

/// Whether a text is an address of this machine: `127.x.y.z`, or `::1` in any of its spellings.
pub open spec fn is_loopback_address(s: Seq<char>) -> bool {
    ||| ipv4(s) is Some && ipv4(s)->0 .0 == 127
    ||| ipv6(s) == Some(seq![0nat, 0nat, 0nat, 0nat, 0nat, 0nat, 0nat, 1nat])
}

fn read_group(s: &str) -> (r: Option<u32>)
    ensures
        match r {
            Some(n) => group(s@) == Some(n as nat),
            None => group(s@) is None,
        },
{
    let chars: Vec<char> = text::chars_of(s);
    let n: usize = chars.len();
    if n == 0 || n > 4 {
        return None;
    }
    let mut value: u32 = 0;
    let mut i: usize = 0;
    assert(s@.take(0) =~= Seq::empty());
    while i < n
        invariant
            0 <= i <= n <= 4,
            n == chars@.len(),
            chars@ == s@,
            value == hex_digits_value(s@.take(i as int)),
            i == 0 ==> value == 0,
            i == 1 ==> value <= 0xf,
            i == 2 ==> value <= 0xff,
            i == 3 ==> value <= 0xfff,
            i == 4 ==> value <= 0xffff,
            forall|j: int| 0 <= j < i ==> chunk::hex_value(#[trigger] s@[j]) is Some,
        decreases n - i,
    {
        let c: char = chars[i];
        let d: u32 = if '0' <= c && c <= '9' {
            c as u32 - '0' as u32
        } else if 'a' <= c && c <= 'f' {
            c as u32 - 'a' as u32 + 10
        } else if 'A' <= c && c <= 'F' {
            c as u32 - 'A' as u32 + 10
        } else {
            assert(chunk::hex_value(s@[i as int]) is None);
            return None;
        };
        proof {
            let t = s@.take(i + 1);
            assert(t.drop_last() =~= s@.take(i as int));
            assert(t.last() == c);
            assert(chunk::hex_value(c) == Some(d as nat));
        }
        value = value * 16 + d;
        i = i + 1;
    }
    assert(s@.take(n as int) =~= s@);
    Some(value)
}

/// Numbers as natural numbers.
pub open spec fn nats(s: Seq<u32>) -> Seq<nat> {
    Seq::new(s.len(), |i: int| s[i] as nat)
}

fn read_groups(pieces: &Vec<String>, count: usize) -> (r: Option<Vec<u32>>)
    requires
        count <= pieces@.len(),
    ensures
        match r {
            Some(g) => groups_of(order::views(pieces@).take(count as int)) == Some(nats(g@)),
            None => groups_of(order::views(pieces@).take(count as int)) is None,
        },
{
    let ghost all = order::views(pieces@);
    let mut out: Vec<u32> = Vec::new();
    let mut i: usize = 0;
    proof {
        assert(all.take(0) =~= Seq::empty());
        assert(nats(out@) =~= Seq::empty());
    }
    while i < count
        invariant
            0 <= i <= count <= pieces@.len(),
            all == order::views(pieces@),
            groups_of(all.take(i as int)) == Some(nats(out@)),
        decreases count - i,
    {
        proof {
            let t = all.take(i + 1);
            assert(t.drop_last() =~= all.take(i as int));
            assert(t.last() == pieces@[i as int]@);
        }
        match read_group(pieces[i].as_str()) {
            Some(g) => {
                let ghost before = nats(out@);
                out.push(g);
                assert(nats(out@) =~= before.push(g as nat));
            },
            None => {
                proof {
                    lemma_no_groups(all, i + 1, count as int);
                }
                return None;
            },
        }
        i = i + 1;
    }
    Some(out)
}

proof fn lemma_no_groups(all: Seq<Seq<char>>, i: int, n: int)
    requires
        0 <= i <= n <= all.len(),
        groups_of(all.take(i)) is None,
    ensures
        groups_of(all.take(n)) is None,
    decreases n - i,
{
    if i < n {
        let t = all.take(i + 1);
        assert(t.drop_last() =~= all.take(i));
        lemma_no_groups(all, i + 1, n);
    }
}

fn read_run(s: &str, ipv4_may_end: bool) -> (r: Option<Vec<u32>>)
    ensures
        match r {
            Some(g) => run(s@, ipv4_may_end) == Some(nats(g@)),
            None => run(s@, ipv4_may_end) is None,
        },
{
    if s.unicode_len() == 0 {
        let none: Vec<u32> = Vec::new();
        assert(nats(none@) =~= Seq::empty());
        return Some(none);
    }
    let pieces: Vec<String> = text::split(s, ':');
    let ghost all = text::pieces(s@, ':');
    let n: usize = pieces.len();
    assert(all.last() == pieces@[n - 1]@);
    if ipv4_may_end {
        if let Some((a, b, c, d)) = read_ipv4(pieces[n - 1].as_str()) {
            assert(all.take(n - 1) =~= all.drop_last());
            return match read_groups(&pieces, n - 1) {
                Some(front) => {
                    let mut out: Vec<u32> = front;
                    let ghost before = nats(out@);
                    out.push(a as u32 * 256 + b as u32);
                    out.push(c as u32 * 256 + d as u32);
                    assert(nats(out@) =~= before.push((a * 256 + b) as nat).push(
                        (c * 256 + d) as nat,
                    ));
                    Some(out)
                },
                None => None,
            };
        }
    }
    assert(all.take(n as int) =~= all);
    read_groups(&pieces, n)
}

fn find_gap(s: &str) -> (r: Option<usize>)
    ensures
        match r {
            Some(i) => gap(s@) == i && i + 2 <= s@.len(),
            None => gap(s@) < 0,
        },
{
    let chars: Vec<char> = text::chars_of(s);
    let n: usize = chars.len();
    if n < 2 {
        return None;
    }
    let mut i: usize = 1;
    while i < n
        invariant
            1 <= i <= n,
            n == chars@.len(),
            chars@ == s@,
            gap(s@.take(i as int)) == -1,
        decreases n - i,
    {
        proof {
            let t = s@.take(i + 1);
            assert(t.drop_last() =~= s@.take(i as int));
            assert(t[i - 1] == s@[i - 1] && t[i as int] == s@[i as int]);
        }
        if chars[i - 1] == ':' && chars[i] == ':' {
            proof {
                lemma_gap_stays(s@, i + 1);
            }
            return Some(i - 1);
        }
        i = i + 1;
    }
    assert(s@.take(n as int) =~= s@);
    None
}

proof fn lemma_gap_stays(s: Seq<char>, i: int)
    requires
        0 <= i <= s.len(),
        gap(s.take(i)) >= 0,
    ensures
        gap(s) == gap(s.take(i)),
    decreases s.len() - i,
{
    if i == s.len() {
        assert(s.take(i) =~= s);
    } else {
        assert(s.take(i + 1).drop_last() =~= s.take(i));
        assert(i >= 2);
        lemma_gap_stays(s, i + 1);
    }
}

fn read_ipv6(s: &str) -> (r: Option<Vec<u32>>)
    ensures
        match r {
            Some(g) => ipv6(s@) == Some(nats(g@)) && g@.len() == 8,
            None => ipv6(s@) is None,
        },
{
    match find_gap(s) {
        None => match read_run(s, true) {
            Some(g) => if g.len() == 8 {
                Some(g)
            } else {
                None
            },
            None => None,
        },
        Some(at) => {
            let n: usize = s.unicode_len();
            let head: &str = s.substring_char(0, at);
            let tail: &str = s.substring_char(at + 2, n);
            assert(head@ =~= s@.take(at as int));
            assert(tail@ =~= s@.skip(at + 2));
            match (read_run(head, false), read_run(tail, true)) {
                (Some(h), Some(t)) => {
                    if h.len() > 7 || t.len() > 7 || h.len() + t.len() > 7 {
                        return None;
                    }
                    Some(filled(h, &t))
                },
                _ => None,
            }
        },
    }
}

fn filled(head: Vec<u32>, tail: &Vec<u32>) -> (r: Vec<u32>)
    requires
        head@.len() + tail@.len() <= 7,
    ensures
        nats(r@) == nats(head@) + Seq::new(
            (8 - head@.len() - tail@.len()) as nat,
            |i: int| 0nat,
        ) + nats(tail@),
        r@.len() == 8,
{
    let ghost front = head@;
    let mut out: Vec<u32> = head;
    let m: usize = 8 - tail.len();
    while out.len() < m
        invariant
            front.len() <= out@.len() <= m,
            m == 8 - tail@.len(),
            out@.take(front.len() as int) == front,
            forall|i: int| front.len() <= i < out@.len() ==> #[trigger] out@[i] == 0,
        decreases m - out@.len(),
    {
        let ghost before = out@;
        out.push(0);
        assert(out@.take(front.len() as int) =~= before.take(front.len() as int));
    }
    let ghost padded = out@;
    let mut k: usize = 0;
    while k < tail.len()
        invariant
            0 <= k <= tail@.len(),
            tail@.len() <= 7,
            padded.len() == 8 - tail@.len(),
            out@ == padded + tail@.take(k as int),
        decreases tail@.len() - k,
    {
        out.push(tail[k]);
        assert(tail@.take(k + 1) =~= tail@.take(k as int).push(tail@[k as int]));
        k = k + 1;
    }
    assert(tail@.take(tail@.len() as int) =~= tail@);
    proof {
        let zeros = Seq::new((8 - front.len() - tail@.len()) as nat, |i: int| 0nat);
        assert forall|i: int| 0 <= i < 8 implies nats(out@)[i] == (nats(front) + zeros + nats(
            tail@,
        ))[i] by {
            if i < front.len() {
                assert(padded.take(front.len() as int)[i] == front[i]);
            }
        }
        assert(nats(out@) =~= nats(front) + zeros + nats(tail@));
    }
    out
}

/// Whether a text is an address of this machine.
pub fn names_loopback(s: &str) -> (r: bool)
    ensures
        r == is_loopback_address(s@),
{
    if let Some((a, _, _, _)) = read_ipv4(s) {
        if a == 127 {
            return true;
        }
    }
    match read_ipv6(s) {
        Some(g) => {
            let same: bool = g[0] == 0 && g[1] == 0 && g[2] == 0 && g[3] == 0 && g[4] == 0 && g[5]
                == 0 && g[6] == 0 && g[7] == 1;
            proof {
                let one = seq![0nat, 0nat, 0nat, 0nat, 0nat, 0nat, 0nat, 1nat];
                let v = nats(g@);
                if same {
                    assert(v =~= one);
                } else if v == one {
                    assert(v[0] == one[0] && v[1] == one[1] && v[2] == one[2] && v[3] == one[3]
                        && v[4] == one[4] && v[5] == one[5] && v[6] == one[6] && v[7] == one[7]);
                }
            }
            same
        },
        None => false,
    }
}

/// An address of a host.
#[derive(Debug, PartialEq, Eq)]
pub enum Host {
    /// The four numbers of an IPv4 address.
    V4(u16, u16, u16, u16),
    /// The eight groups of an IPv6 address, and its scope (zero where none is given).
    V6(Vec<u32>, u32),
}

/// What a host's address stands for.
pub enum HostModel {
    /// An IPv4 address.
    V4(nat, nat, nat, nat),
    /// An IPv6 address.
    V6(Seq<nat>, nat),
}

impl View for Host {
    type V = HostModel;

    open spec fn view(&self) -> HostModel {
        match self {
            Host::V4(a, b, c, d) => HostModel::V4(*a as nat, *b as nat, *c as nat, *d as nat),
            Host::V6(groups, scope) => HostModel::V6(nats(groups@), *scope as nat),
        }
    }
}

/// A host and a port.
#[derive(Debug, PartialEq, Eq)]
pub struct SocketAddress {
    /// The host.
    pub host: Host,
    /// The port.
    pub number: u16,
}

impl SocketAddress {
    /// The port.
    pub fn port(&self) -> (r: u16)
        ensures
            r == self.number,
    {
        self.number
    }
}

/// The value of decimal digits, one at least, if it is at most `max`.
pub open spec fn bounded(s: Seq<char>, max: nat) -> Option<nat> {
    if s.len() > 0 && (forall|i: int| 0 <= i < s.len() ==> text::is_digit(#[trigger] s[i]))
        && text::digits_value(s) <= max {
        Some(text::digits_value(s))
    } else {
        None
    }
}

fn read_bounded(s: &str, max: u32) -> (r: Option<u32>)
    ensures
        match r {
            Some(n) => bounded(s@, max as nat) == Some(n as nat),
            None => bounded(s@, max as nat) is None,
        },
{
    if s.unicode_len() == 0 || s.get_char(0) == '+' {
        assert(s@.len() > 0 ==> !text::is_digit(s@[0]));
        return None;
    }
    assert(text::unsigned_part(s@) == s@);
    match text::parse_u64(s) {
        Some(n) if n <= max as u64 => Some(n as u32),
        _ => None,
    }
}

/// The host and port that a text names: an IPv4 address, a colon and a port; or an IPv6 address in
/// square brackets (a `%` and a numeric scope may follow the address inside them), a colon and a
/// port.
pub open spec fn socket(s: Seq<char>) -> Option<(HostModel, nat)> {
    if s.len() > 0 && s[0] == '[' {
        let close = text::first_index(s, ']');
        if close < 0 || close + 1 >= s.len() || s[close + 1] != ':' {
            None
        } else {
            match (scoped(s.subrange(1, close)), bounded(s.skip(close + 2), 65535)) {
                (Some(host), Some(port)) => Some((host, port)),
                _ => None,
            }
        }
    } else {
        let colon = text::first_index(s, ':');
        if colon < 0 {
            None
        } else {
            match (ipv4(s.take(colon)), bounded(s.skip(colon + 1), 65535)) {
                (Some((a, b, c, d)), Some(port)) => Some((HostModel::V4(a, b, c, d), port)),
                _ => None,
            }
        }
    }
}

/// The IPv6 address and the scope that the text between brackets names.
pub open spec fn scoped(s: Seq<char>) -> Option<HostModel> {
    let at = text::first_index(s, '%');
    if at < 0 {
        match ipv6(s) {
            Some(g) => Some(HostModel::V6(g, 0)),
            None => None,
        }
    } else {
        match (ipv6(s.take(at)), bounded(s.skip(at + 1), 4294967295)) {
            (Some(g), Some(scope)) => Some(HostModel::V6(g, scope)),
            _ => None,
        }
    }
}

fn read_scoped(s: &str) -> (r: Option<Host>)
    ensures
        match r {
            Some(h) => scoped(s@) == Some(h@),
            None => scoped(s@) is None,
        },
{
    proof {
        text::lemma_first_index(s@, '%');
    }
    match text::find(s, '%') {
        None => match read_ipv6(s) {
            Some(g) => Some(Host::V6(g, 0)),
            None => None,
        },
        Some(at) => {
            let n: usize = s.unicode_len();
            let front: &str = s.substring_char(0, at);
            let back: &str = s.substring_char(at + 1, n);
            assert(front@ =~= s@.take(at as int));
            assert(back@ =~= s@.skip(at + 1));
            match (read_ipv6(front), read_bounded(back, 4294967295)) {
                (Some(g), Some(scope)) => Some(Host::V6(g, scope)),
                _ => None,
            }
        },
    }
}

/// Read a host and a port.
pub fn read_socket(s: &str) -> (r: Option<SocketAddress>)
    ensures
        match r {
            Some(a) => socket(s@) == Some((a.host@, a.number as nat)),
            None => socket(s@) is None,
        },
{
    let n: usize = s.unicode_len();
    if n > 0 && s.get_char(0) == '[' {
        proof {
            text::lemma_first_index(s@, ']');
        }
        let close: usize = match text::find(s, ']') {
            Some(i) => i,
            None => {
                return None;
            },
        };
        if n - close < 2 || s.get_char(close + 1) != ':' {
            return None;
        }
        let inside: &str = s.substring_char(1, close);
        let port: &str = s.substring_char(close + 2, n);
        assert(port@ =~= s@.skip(close + 2));
        match (read_scoped(inside), read_bounded(port, 65535)) {
            (Some(host), Some(number)) => Some(SocketAddress { host, number: number as u16 }),
            _ => None,
        }
    } else {
        proof {
            text::lemma_first_index(s@, ':');
        }
        let colon: usize = match text::find(s, ':') {
            Some(i) => i,
            None => {
                return None;
            },
        };
        let front: &str = s.substring_char(0, colon);
        let port: &str = s.substring_char(colon + 1, n);
        assert(front@ =~= s@.take(colon as int));
        assert(port@ =~= s@.skip(colon + 1));
        match (read_ipv4(front), read_bounded(port, 65535)) {
            (Some((a, b, c, d)), Some(number)) => Some(
                SocketAddress { host: Host::V4(a, b, c, d), number: number as u16 },
            ),
            _ => None,
        }
    }
}

proof fn lemma_first_piece(x: Seq<char>, c: char, rest: Seq<char>)
    requires
        !x.contains(c),
    ensures
        text::pieces(x + seq![c] + rest, c) == seq![x] + text::pieces(rest, c),
        text::first_index(x + seq![c] + rest, c) == x.len(),
{
    let s = x + seq![c] + rest;
    assert forall|k: int| 0 <= k < x.len() implies s[k] != c by {
        assert(s[k] == x[k]);
        if x[k] == c {
            assert(x.contains(x[k]));
        }
    }
    assert(s[x.len() as int] == c);
    text::lemma_first_index_is(s, c, x.len() as int);
    assert(s.take(x.len() as int) =~= x);
    assert(s.skip(x.len() as int + 1) =~= rest);
}

proof fn lemma_last_piece(x: Seq<char>, c: char)
    requires
        !x.contains(c),
    ensures
        text::pieces(x, c) == seq![x],
{
    text::lemma_first_index(x, c);
    let i = text::first_index(x, c);
    if i >= 0 {
        assert(x.contains(x[i]));
    }
}

proof fn lemma_octet(n: nat)
    requires
        n <= 255,
    ensures
        octet(text::decimal(n)) == Some(n),
        !text::decimal(n).contains('.'),
        !text::decimal(n).contains(':'),
{
    text::lemma_decimal_value(n);
    let d = text::decimal(n);
    reveal_with_fuel(text::decimal, 4);
    assert(1 <= d.len() <= 3);
    assert forall|c: char| c == '.' || c == ':' implies !d.contains(c) by {
        if d.contains(c) {
            let i = choose|i: int| 0 <= i < d.len() && d[i] == c;
            assert(text::is_digit(d[i]));
        }
    }
    if d.len() > 1 {
        assert(n > 0);
    }
}

/// The dotted form of an address.
pub open spec fn dotted(a: nat, b: nat, c: nat, d: nat) -> Seq<char> {
    text::decimal(a) + seq!['.'] + (text::decimal(b) + seq!['.'] + (text::decimal(c) + seq!['.']
        + text::decimal(d)))
}

proof fn lemma_dotted(a: nat, b: nat, c: nat, d: nat)
    requires
        a <= 255 && b <= 255 && c <= 255 && d <= 255,
    ensures
        ipv4(dotted(a, b, c, d)) == Some((a, b, c, d)),
        !dotted(a, b, c, d).contains(':'),
        dotted(a, b, c, d).len() > 0 && dotted(a, b, c, d)[0] != '[',
{
    lemma_octet(a);
    lemma_octet(b);
    lemma_octet(c);
    lemma_octet(d);
    let (x, y, z, w) = (text::decimal(a), text::decimal(b), text::decimal(c), text::decimal(d));
    let s3 = z + seq!['.'] + w;
    let s2 = y + seq!['.'] + s3;
    let s1 = x + seq!['.'] + s2;
    lemma_last_piece(w, '.');
    lemma_first_piece(z, '.', w);
    lemma_first_piece(y, '.', s3);
    lemma_first_piece(x, '.', s2);
    let p = text::pieces(s1, '.');
    assert(p =~= seq![x, y, z, w]);
    text::lemma_decimal_value(a);
    assert(s1[0] == x[0]);
    assert(text::is_digit(x[0]));
    assert forall|i: int| 0 <= i < s1.len() implies s1[i] != ':' by {
        if s1[i] == ':' {
            if i < x.len() {
                assert(x.contains(x[i]));
            } else if i > x.len() {
                let j = i - x.len() - 1;
                assert(s2[j] == ':');
                if j < y.len() {
                    assert(y.contains(y[j]));
                } else if j > y.len() {
                    let k = j - y.len() - 1;
                    assert(s3[k] == ':');
                    if k < z.len() {
                        assert(z.contains(z[k]));
                    } else if k > z.len() {
                        assert(w.contains(w[k - z.len() - 1]));
                    }
                }
            }
        }
    }
}

/// An address that is written is read back: four numbers with dots between them, a colon and a port
/// name that address and that port, and this machine just if the first number is 127.
pub proof fn law_a_written_address_is_read_back(
    a: nat,
    b: nat,
    c: nat,
    d: nat,
    port: u16,
    s: &str,
    r: Option<SocketAddress>,
    host: &str,
    local: bool,
    number: u16,
)
    requires
        a <= 255 && b <= 255 && c <= 255 && d <= 255,
        s@ == dotted(a, b, c, d) + seq![':'] + text::decimal(port as nat),
        call_ensures(read_socket, (s,), r),
        host@ == dotted(a, b, c, d),
        call_ensures(names_loopback, (host,), local),
        r is Some ==> call_ensures(SocketAddress::port, (&r->0,), number),
    ensures
        r is Some,
        r->0.host@ == HostModel::V4(a, b, c, d),
        number == port,
        a == 127 ==> local,
        local && ipv6(host@) is None ==> a == 127,
{
    lemma_dotted(a, b, c, d);
    let h = dotted(a, b, c, d);
    let p = text::decimal(port as nat);
    lemma_first_piece(h, ':', p);
    assert(s@[0] == h[0]);
    assert(s@.take(h.len() as int) =~= h);
    assert(s@.skip(h.len() as int + 1) =~= p);
    text::lemma_decimal_value(port as nat);
    assert(bounded(p, 65535) == Some(port as nat));
}

/// A text without a colon names no socket, and a port has to be a number of sixteen bits.
pub proof fn law_a_socket_needs_a_port(s: &str, r: Option<SocketAddress>)
    requires
        call_ensures(read_socket, (s,), r),
    ensures
        !s@.contains(':') ==> r is None,
        s@.len() == 0 ==> r is None,
        s@.len() > 0 && s@.last() == ':' && s@[0] != '[' && text::first_index(s@, ':') == s@.len()
            - 1 ==> r is None,
{
    text::lemma_first_index(s@, ':');
    text::lemma_first_index(s@, ']');
    let i = text::first_index(s@, ':');
    if !s@.contains(':') && i >= 0 {
        assert(s@.contains(s@[i]));
    }
    if s@.len() > 0 && s@[0] == '[' && !s@.contains(':') {
        let close = text::first_index(s@, ']');
        if close >= 0 && close + 1 < s@.len() && s@[close + 1] == ':' {
            assert(s@.contains(s@[close + 1]));
        }
    }
}

} // verus!
