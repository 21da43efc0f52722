//! Compact JSON text, as the stored documents are written.

use vstd::prelude::*;
use vstd::string::*;
use crate::chunk;
use crate::order;
use crate::text;

verus! {

/// How one character of a string is written.
pub open spec fn json_char(c: char) -> Seq<char> {
    if c == '"' {
        seq!['\\', '"']
    } else if c == '\\' {
        seq!['\\', '\\']
    } else if c as int == 8 {
        seq!['\\', 'b']
    } else if c as int == 9 {
        seq!['\\', 't']
    } else if c as int == 10 {
        seq!['\\', 'n']
    } else if c as int == 12 {
        seq!['\\', 'f']
    } else if c as int == 13 {
        seq!['\\', 'r']
    } else if (c as int) < 32 {
        seq![
            '\\',
            'u',
            '0',
            '0',
            chunk::hex_digit(c as nat / 16),
            chunk::hex_digit(c as nat % 16),
        ]
    } else {
        seq![c]
    }
}

/// The characters of a string, each written as [`json_char`] says.
pub open spec fn json_chars(s: Seq<char>) -> Seq<char>
    decreases s.len(),
{
    if s.len() == 0 {
        Seq::empty()
    } else {
        json_chars(s.drop_last()) + json_char(s.last())
    }
}

/// A string between its quotes.
pub open spec fn json_string(s: Seq<char>) -> Seq<char> {
    seq!['"'] + json_chars(s) + seq!['"']
}

/// `serde_json::to_string` on a string: its characters between quotes, with quote, backslash
/// and the control characters escaped.
#[verifier::external_body]
pub(crate) fn quote(s: &str) -> (r: String)
    ensures
        r@ == json_string(s@),
{
    serde_json::to_string(s).unwrap_or_default()
}

/// Text without a quote, a backslash or a control character is written as it is.
pub proof fn lemma_plain(s: Seq<char>)
    requires
        forall|i: int| 0 <= i < s.len() ==> json_char(#[trigger] s[i]) == seq![s[i]],
    ensures
        json_chars(s) == s,
    decreases s.len(),
{
    if s.len() > 0 {
        assert forall|i: int| 0 <= i < s.drop_last().len() implies json_char(
            #[trigger] s.drop_last()[i],
        ) == seq![s.drop_last()[i]] by {
            assert(s.drop_last()[i] == s[i]);
        }
        lemma_plain(s.drop_last());
        assert(s =~= s.drop_last() + seq![s.last()]);
    } else {
        assert(s =~= Seq::empty());
    }
}

/// The items with a comma between each two.
pub open spec fn json_list(items: Seq<Seq<char>>) -> Seq<char>
    decreases items.len(),
{
    if items.len() == 0 {
        Seq::empty()
    } else if items.len() == 1 {
        items[0]
    } else {
        json_list(items.drop_last()) + seq![','] + items.last()
    }
}

/// An array of values that are already written.
pub open spec fn json_array(items: Seq<Seq<char>>) -> Seq<char> {
    seq!['['] + json_list(items) + seq![']']
}

/// An object of members that are already written.
pub open spec fn json_object(members: Seq<Seq<char>>) -> Seq<char> {
    seq!['{'] + json_list(members) + seq!['}']
}

/// One member of an object, with a name that needs no escape.
pub open spec fn json_member(name: Seq<char>, value: Seq<char>) -> Seq<char> {
    seq!['"'] + name + seq!['"', ':'] + value
}

/// A signed integer.
pub open spec fn json_int(n: int) -> Seq<char> {
    if n < 0 {
        seq!['-'] + text::decimal((-n) as nat)
    } else {
        text::decimal(n as nat)
    }
}

/// The strings of an array, written.
pub open spec fn json_strings(items: Seq<String>) -> Seq<Seq<char>> {
    Seq::new(items.len(), |i: int| json_string(items[i]@))
}

fn list(items: &Vec<String>) -> (r: String)
    ensures
        r@ == json_list(order::views(items@)),
{
    let mut out: String = String::new();
    let mut i: usize = 0;
    while i < items.len()
        invariant
            0 <= i <= items@.len(),
            out@ == json_list(order::views(items@).take(i as int)),
        decreases items@.len() - i,
    {
        proof {
            let next = order::views(items@).take(i + 1);
            assert(next.drop_last() =~= order::views(items@).take(i as int));
            assert(next.last() == items@[i as int]@);
        }
        if i > 0 {
            out.push(',');
        }
        out.append(items[i].as_str());
        i = i + 1;
        assert(out@ =~= json_list(order::views(items@).take(i as int)));
    }
    assert(order::views(items@).take(items@.len() as int) =~= order::views(items@));
    out
}

/// An array of values that are already written.
pub fn array(items: &Vec<String>) -> (r: String)
    ensures
        r@ == json_array(order::views(items@)),
{
    let mut out: String = String::new();
    out.push('[');
    out.append(list(items).as_str());
    out.push(']');
    assert(out@ =~= json_array(order::views(items@)));
    out
}

/// An object of members that are already written.
pub fn object(members: &Vec<String>) -> (r: String)
    ensures
        r@ == json_object(order::views(members@)),
{
    let mut out: String = String::new();
    out.push('{');
    out.append(list(members).as_str());
    out.push('}');
    assert(out@ =~= json_object(order::views(members@)));
    out
}

/// One member of an object.
pub fn member(name: &str, value: &str) -> (r: String)
    ensures
        r@ == json_member(name@, value@),
{
    let mut out: String = String::new();
    out.push('"');
    out.append(name);
    out.push('"');
    out.push(':');
    out.append(value);
    assert(out@ =~= json_member(name@, value@));
    out
}

/// An array of strings.
pub fn strings(items: &Vec<String>) -> (r: String)
    ensures
        r@ == json_array(json_strings(items@)),
{
    let mut quoted: Vec<String> = Vec::new();
    let mut i: usize = 0;
    while i < items.len()
        invariant
            0 <= i <= items@.len(),
            quoted@.len() == i,
            forall|j: int| 0 <= j < i ==> (#[trigger] quoted@[j])@ == json_string(items@[j]@),
        decreases items@.len() - i,
    {
        quoted.push(quote(items[i].as_str()));
        i = i + 1;
    }
    assert(order::views(quoted@) =~= json_strings(items@));
    array(&quoted)
}

/// A signed integer.
pub fn integer(n: i64) -> (r: String)
    ensures
        r@ == json_int(n as int),
{
    if n >= 0 {
        text::dec(n as u64)
    } else {
        let mut out: String = String::new();
        out.push('-');
        let magnitude: u64 = if n == i64::MIN {
            9_223_372_036_854_775_808
        } else {
            (-n) as u64
        };
        out.append(text::dec(magnitude).as_str());
        assert(out@ =~= json_int(n as int));
        out
    }
}

/// The UTF-8 bytes of a document.
pub open spec fn document_bytes(s: Seq<char>) -> Seq<u8> {
    vstd::utf8::encode_utf8(s)
}

/// The UTF-8 bytes of a document.
pub fn bytes_of(s: &str) -> (r: Vec<u8>)
    ensures
        r@ == document_bytes(s@),
{
    s.as_bytes_vec()
}

/// Whether a text stands somewhere in another.
pub open spec fn holds_text(s: Seq<char>, t: Seq<char>) -> bool {
    exists|i: int| 0 <= i && i + t.len() <= s.len() && #[trigger] s.subrange(i, i + t.len()) == t
}

/// What stands in a part of a text stands in the text.
pub proof fn lemma_holds_inside(before: Seq<char>, s: Seq<char>, after: Seq<char>, t: Seq<char>)
    requires
        holds_text(s, t),
    ensures
        holds_text(before + s + after, t),
{
    let i = choose|i: int|
        0 <= i && i + t.len() <= s.len() && #[trigger] s.subrange(i, i + t.len()) == t;
    let all = before + s + after;
    let at = before.len() + i;
    assert(all.subrange(at, at + t.len()) =~= t);
}

/// A text stands in itself.
pub proof fn lemma_holds_itself(t: Seq<char>)
    ensures
        holds_text(t, t),
{
    assert(t.subrange(0int, 0int + t.len()) =~= t);
}

/// Every item of a list stands in it.
pub proof fn lemma_list_holds(items: Seq<Seq<char>>, i: int)
    requires
        0 <= i < items.len(),
    ensures
        holds_text(json_list(items), items[i]),
    decreases items.len(),
{
    let none = Seq::<char>::empty();
    if items.len() == 1 {
        lemma_holds_itself(items[0]);
    } else if i == items.len() - 1 {
        lemma_holds_itself(items[i]);
        let before = json_list(items.drop_last()) + seq![','];
        lemma_holds_inside(before, items[i], none, items[i]);
        assert(before + items[i] + none =~= json_list(items));
    } else {
        let front = items.drop_last();
        lemma_list_holds(front, i);
        let after = seq![','] + items.last();
        lemma_holds_inside(none, json_list(front), after, items[i]);
        assert(none + json_list(front) + after =~= json_list(items));
    }
}

/// Every member of an object stands in it, with its name, and every item of an array.
pub proof fn law_objects_and_arrays_hold_their_items(
    members: Seq<Seq<char>>,
    i: int,
    name: Seq<char>,
    value: Seq<char>,
)
    requires
        0 <= i < members.len(),
    ensures
        holds_text(json_object(members), members[i]),
        holds_text(json_array(members), members[i]),
        members[i] == json_member(name, value) ==> holds_text(
            json_object(members),
            "\""@ + name + "\":"@ + value,
        ),
{
    reveal_strlit("\"");
    reveal_strlit("\":");
    lemma_list_holds(members, i);
    lemma_holds_inside(seq!['{'], json_list(members), seq!['}'], members[i]);
    lemma_holds_inside(seq!['['], json_list(members), seq![']'], members[i]);
    assert("\""@ =~= seq!['"']);
    assert("\":"@ =~= seq!['"', ':']);
}

} // verus!
