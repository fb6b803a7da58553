//! The parts of a JSON text, as they stand in it: the members of an object, repeated ones among
//! them, and the items of an array.

use crate::json::json_read;
use crate::json::{json_open, Node};
use crate::json::{json_parse, Parsed, Tree};
use crate::text::numeral;
use serde::de::IgnoredAny;
use vstd::prelude::*;
use vstd::slice::{slice_subrange, slice_to_vec};
use vstd::utf8::encode_utf8;

verus! {

/// How many bytes the JSON value takes that the bytes begin with, if they begin with one. White space
/// before it counts.
pub uninterp spec fn value_len(bytes: Seq<u8>) -> Option<nat>;

/// The natural number that bytes hold as JSON, if they hold one.
pub uninterp spec fn natural_in(bytes: Seq<u8>) -> Option<u128>;

/// Whether the byte is white space between the parts of a JSON text.
pub open spec fn blank(b: u8) -> bool {
    b == 32 || b == 10 || b == 13 || b == 9
}

/// The bytes without the white space before them.
pub open spec fn unspaced(b: Seq<u8>) -> Seq<u8>
    decreases b.len(),
{
    if b.len() > 0 && blank(b[0]) {
        unspaced(b.skip(1))
    } else {
        b
    }
}

/// The bytes without the white space after them.
pub open spec fn unspaced_after(b: Seq<u8>) -> Seq<u8>
    decreases b.len(),
{
    if b.len() > 0 && blank(b.last()) {
        unspaced_after(b.drop_last())
    } else {
        b
    }
}

/// The first item of a `serde_json::StreamDeserializer` that skips its values: how far it reaches,
/// if the bytes begin with a JSON value. However deep the value nests, it is skipped.
#[verifier::external_body]
fn skip_value(bytes: &[u8]) -> (r: Option<usize>)
    ensures
        match r {
            Some(n) => value_len(bytes@) == Some(n as nat) && 0 < n <= bytes@.len(),
            None => value_len(bytes@) is None,
        },
{
    let mut values = serde_json::Deserializer::from_slice(bytes).into_iter::<IgnoredAny>();
    match values.next() {
        Some(Ok(_)) => Some(values.byte_offset()),
        _ => None,
    }
}

/// `serde_json::from_slice` into a `u128`: the number of which the bytes are the decimal numeral, with
/// or without white space around it.
#[verifier::external_body]
pub(crate) fn read_natural(bytes: &[u8]) -> (r: Option<u128>)
    ensures
        r == natural_in(bytes@),
        match r {
            Some(n) => unspaced_after(unspaced(bytes@)) == encode_utf8(numeral(n as nat)),
            None => forall|n: u128|
                unspaced_after(unspaced(bytes@)) != encode_utf8(#[trigger] numeral(n as nat)),
        },
{
    serde_json::from_slice(bytes).ok()
}

/// The value that the bytes begin with, white space aside, and what follows it.
pub open spec fn value_at(b: Seq<u8>) -> Option<(Seq<u8>, Seq<u8>)> {
    let s = unspaced(b);
    match value_len(s) {
        Some(n) => if n <= s.len() {
            Some((s.take(n as int), s.skip(n as int)))
        } else {
            None
        },
        None => None,
    }
}

/// The part that the bytes begin with, and what follows it: its value, and in an object before that
/// its name and a colon.
pub open spec fn part_at(b: Seq<u8>, named: bool) -> Option<(Seq<char>, Seq<u8>, Seq<u8>)> {
    match value_at(b) {
        Some((value, rest)) => if !named {
            Some((Seq::empty(), value, rest))
        } else {
            match json_parse(value) {
                Parsed::Document(Tree::Text(name)) => {
                    let s = unspaced(rest);
                    if s.len() > 0 && s[0] == 58 {
                        match value_at(s.skip(1)) {
                            Some((value, rest)) => Some((name, value, rest)),
                            None => None,
                        }
                    } else {
                        None
                    }
                },
                _ => None,
            }
        },
        None => None,
    }
}

proof fn lemma_unspaced_shorter(b: Seq<u8>)
    ensures
        unspaced(b).len() <= b.len(),
    decreases b.len(),
{
    if b.len() > 0 && blank(b[0]) {
        lemma_unspaced_shorter(b.skip(1));
    }
}

/// What follows a part is no longer than what begins with it.
pub proof fn lemma_part_shorter(b: Seq<u8>, named: bool)
    ensures
        part_at(b, named) matches Some((_, _, rest)) ==> unspaced(rest).len() <= b.len(),
{
    lemma_unspaced_shorter(b);
    if let Some((_, rest)) = value_at(b) {
        lemma_unspaced_shorter(rest);
        let s = unspaced(rest);
        if s.len() > 0 {
            lemma_unspaced_shorter(s.skip(1));
            if let Some((_, last)) = value_at(s.skip(1)) {
                lemma_unspaced_shorter(last);
            }
        }
    }
}

/// The parts that the bytes begin with, one at least, with commas between them, and what follows the
/// closing bracket behind them.
pub open spec fn parts_from(b: Seq<u8>, close: u8, named: bool) -> Option<
    (Seq<(Seq<char>, Seq<u8>)>, Seq<u8>),
>
    decreases b.len(),
{
    match part_at(b, named) {
        Some((name, value, rest)) => {
            let s = unspaced(rest);
            if s.len() > 0 && s[0] == close {
                Some((seq![(name, value)], s.skip(1)))
            } else if s.len() > 0 && s[0] == 44 {
                proof {
                    lemma_part_shorter(b, named);
                }
                match parts_from(s.skip(1), close, named) {
                    Some((more, end)) => Some((seq![(name, value)] + more, end)),
                    None => None,
                }
            } else {
                None
            }
        },
        None => None,
    }
}

/// The parts of an object, with their names, or of an array.
pub struct Parts {
    pub named: bool,
    pub items: Seq<(Seq<char>, Seq<u8>)>,
}

/// The parts behind an opening bracket, if nothing follows the closing one.
pub open spec fn parts_behind(b: Seq<u8>, close: u8, named: bool) -> Option<Parts> {
    let s = unspaced(b);
    if s.len() > 0 && s[0] == close {
        if unspaced(s.skip(1)).len() == 0 {
            Some(Parts { named, items: Seq::empty() })
        } else {
            None
        }
    } else {
        match parts_from(b, close, named) {
            Some((items, end)) => if unspaced(end).len() == 0 {
                Some(Parts { named, items })
            } else {
                None
            },
            None => None,
        }
    }
}

/// The parts of the object or array that the bytes hold as JSON, if they hold one.
pub open spec fn parts(b: Seq<u8>) -> Option<Parts> {
    let s = unspaced(b);
    if s.len() > 0 && s[0] == 123 {
        parts_behind(s.skip(1), 125, true)
    } else if s.len() > 0 && s[0] == 91 {
        parts_behind(s.skip(1), 93, false)
    } else {
        None
    }
}

/// The parts that a vector lists.
pub open spec fn part_list(s: Seq<(String, Vec<u8>)>) -> Seq<(Seq<char>, Seq<u8>)> {
    Seq::new(s.len(), |i: int| (s[i].0@, s[i].1@))
}

fn is_blank(b: u8) -> (r: bool)
    ensures
        r == blank(b),
{
    b == 32 || b == 10 || b == 13 || b == 9
}

/// Where the bytes from `i` on go on behind white space.
fn skip_blanks(b: &[u8], i: usize) -> (r: usize)
    requires
        i <= b@.len(),
    ensures
        i <= r <= b@.len(),
        b@.skip(r as int) == unspaced(b@.skip(i as int)),
{
    let mut r: usize = i;
    while r < b.len() && is_blank(b[r])
        invariant
            i <= r <= b@.len(),
            unspaced(b@.skip(i as int)) == unspaced(b@.skip(r as int)),
        decreases b.len() - r,
    {
        assert(b@.skip(r as int).skip(1) =~= b@.skip(r + 1));
        r += 1;
    }
    r
}

/// Where the value begins that the bytes from `i` on begin with, and where it ends.
fn find_value(b: &[u8], i: usize) -> (r: Option<(usize, usize)>)
    requires
        i <= b@.len(),
    ensures
        match r {
            Some((from, to)) => i <= from < to <= b@.len() && value_at(b@.skip(i as int)) == Some(
                (b@.subrange(from as int, to as int), b@.skip(to as int)),
            ),
            None => value_at(b@.skip(i as int)) is None,
        },
{
    let from: usize = skip_blanks(b, i);
    let rest = slice_subrange(b, from, b.len());
    assert(rest@ =~= b@.skip(from as int));
    match skip_value(rest) {
        Some(n) => {
            assert(rest@.take(n as int) =~= b@.subrange(from as int, from + n));
            assert(rest@.skip(n as int) =~= b@.skip(from + n));
            Some((from, from + n))
        },
        None => None,
    }
}

/// The name of the part that the bytes from `i` on begin with, where its value begins and where it
/// ends.
fn find_part(b: &[u8], i: usize, named: bool) -> (r: Option<(String, usize, usize)>)
    requires
        i <= b@.len(),
    ensures
        match r {
            Some((name, from, to)) => i <= from < to <= b@.len() && part_at(
                b@.skip(i as int),
                named,
            ) == Some((name@, b@.subrange(from as int, to as int), b@.skip(to as int))),
            None => part_at(b@.skip(i as int), named) is None,
        },
{
    let (from, to) = match find_value(b, i) {
        Some(p) => p,
        None => {
            return None;
        },
    };
    if !named {
        let name = String::new();
        assert(name@ =~= Seq::<char>::empty());
        return Some((name, from, to));
    }
    let key = slice_subrange(b, from, to);
    let name = match json_read(key) {
        Ok(j) => match json_open(j) {
            Node::Text(name) => name,
            _ => {
                return None;
            },
        },
        Err(_) => {
            return None;
        },
    };
    let colon: usize = skip_blanks(b, to);
    assert(colon < b@.len() ==> b@.skip(colon as int)[0] == b@[colon as int]);
    if colon >= b.len() || b[colon] != 58 {
        return None;
    }
    assert(b@.skip(colon as int).skip(1) =~= b@.skip(colon + 1));
    match find_value(b, colon + 1) {
        Some((from, to)) => Some((name, from, to)),
        None => None,
    }
}

/// What comes before the parts, if there are any.
spec fn prefixed(
    before: Seq<(Seq<char>, Seq<u8>)>,
    p: Option<(Seq<(Seq<char>, Seq<u8>)>, Seq<u8>)>,
) -> Option<(Seq<(Seq<char>, Seq<u8>)>, Seq<u8>)> {
    match p {
        Some((more, end)) => Some((before + more, end)),
        None => None,
    }
}

/// The parts that the bytes from `start` on begin with, and where that begins which follows them.
fn read_parts_from(b: &[u8], start: usize, close: u8, named: bool) -> (r: Option<
    (Vec<(String, Vec<u8>)>, usize),
>)
    requires
        start <= b@.len(),
    ensures
        match r {
            Some((items, end)) => end <= b@.len() && parts_from(
                b@.skip(start as int),
                close,
                named,
            ) == Some((part_list(items@), b@.skip(end as int))),
            None => parts_from(b@.skip(start as int), close, named) is None,
        },
{
    let ghost whole = parts_from(b@.skip(start as int), close, named);
    let mut items: Vec<(String, Vec<u8>)> = Vec::new();
    let mut i: usize = start;
    proof {
        assert(part_list(items@) =~= Seq::<(Seq<char>, Seq<u8>)>::empty());
        if let Some((more, _)) = whole {
            assert(part_list(items@) + more =~= more);
        }
    }
    loop
        invariant
            i <= b@.len(),
            whole == parts_from(b@.skip(start as int), close, named),
            whole == prefixed(part_list(items@), parts_from(b@.skip(i as int), close, named)),
        decreases b@.len() - i,
    {
        let ghost rest = b@.skip(i as int);
        let (name, from, to) = match find_part(b, i, named) {
            Some(p) => p,
            None => {
                return None;
            },
        };
        let ghost part = (name@, b@.subrange(from as int, to as int));
        let ghost before = part_list(items@);
        let value = slice_to_vec(slice_subrange(b, from, to));
        assert(value@ =~= part.1);
        items.push((name, value));
        assert(part_list(items@) =~= before.push(part));
        let next: usize = skip_blanks(b, to);
        if next >= b.len() {
            return None;
        }
        assert(b@.skip(next as int)[0] == b@[next as int]);
        assert(b@.skip(next as int).skip(1) =~= b@.skip(next + 1));
        if b[next] == close {
            assert(before + seq![part] =~= before.push(part));
            return Some((items, next + 1));
        }
        if b[next] != 44 {
            return None;
        }
        proof {
            if let Some((more, _)) = parts_from(b@.skip(next + 1), close, named) {
                assert(before + (seq![part] + more) =~= before.push(part) + more);
            }
        }
        i = next + 1;
    }
}

/// The parts behind an opening bracket, if nothing follows the closing one.
fn read_parts_behind(b: &[u8], start: usize, close: u8, named: bool) -> (r: Option<
    Vec<(String, Vec<u8>)>,
>)
    requires
        start <= b@.len(),
    ensures
        match r {
            Some(items) => parts_behind(b@.skip(start as int), close, named) == Some(
                Parts { named, items: part_list(items@) },
            ),
            None => parts_behind(b@.skip(start as int), close, named) is None,
        },
{
    let first: usize = skip_blanks(b, start);
    assert(first < b@.len() ==> b@.skip(first as int)[0] == b@[first as int]);
    let (items, end) = if first < b.len() && b[first] == close {
        let items: Vec<(String, Vec<u8>)> = Vec::new();
        assert(part_list(items@) =~= Seq::<(Seq<char>, Seq<u8>)>::empty());
        assert(b@.skip(first as int).skip(1) =~= b@.skip(first + 1));
        (items, first + 1)
    } else {
        match read_parts_from(b, start, close, named) {
            Some(p) => p,
            None => {
                return None;
            },
        }
    };
    if skip_blanks(b, end) == b.len() {
        Some(items)
    } else {
        None
    }
}

/// The parts of the object or array that the bytes hold as JSON, and whether they have names.
pub fn read_parts(b: &[u8]) -> (r: Option<(bool, Vec<(String, Vec<u8>)>)>)
    ensures
        match r {
            Some((named, items)) => parts(b@) == Some(Parts { named, items: part_list(items@) }),
            None => parts(b@) is None,
        },
{
    assert(b@.skip(0) =~= b@);
    let first: usize = skip_blanks(b, 0);
    if first >= b.len() {
        return None;
    }
    assert(b@.skip(first as int)[0] == b@[first as int]);
    assert(b@.skip(first as int).skip(1) =~= b@.skip(first + 1));
    if b[first] == 123 {
        match read_parts_behind(b, first + 1, 125, true) {
            Some(items) => Some((true, items)),
            None => None,
        }
    } else if b[first] == 91 {
        match read_parts_behind(b, first + 1, 93, false) {
            Some(items) => Some((false, items)),
            None => None,
        }
    } else {
        None
    }
}

/// White space are the space, the tab and the two that end a line.
pub proof fn lemma_blanks(b: u8)
    ensures
        blank(b) <==> b as char == ' ' || b as char == '\t' || b as char == '\n' || b as char == '\r',
{
}

proof fn lemma_unspaced_at(b: Seq<u8>, i: int)
    requires
        0 <= i <= b.len(),
        forall|j: int| 0 <= j < i ==> blank(#[trigger] b[j]),
        i < b.len() ==> !blank(b[i]),
    ensures
        unspaced(b) == b.skip(i),
    decreases i,
{
    if i > 0 {
        assert(blank(b[0]));
        let rest = b.skip(1);
        assert forall|j: int| 0 <= j < i - 1 implies blank(#[trigger] rest[j]) by {
            assert(rest[j] == b[j + 1]);
        }
        lemma_unspaced_at(rest, i - 1);
        assert(rest.skip(i - 1) =~= b.skip(i));
    } else {
        assert(b.skip(0) =~= b);
    }
}

/// Only what begins with a bracket, behind white space, has parts: with names behind `{` and without
/// behind `[`. A pair of brackets with only white space in it and behind it has no part.
pub proof fn lemma_brackets(b: Seq<u8>, i: int, k: int)
    requires
        0 <= i < b.len(),
        forall|j: int| 0 <= j < i ==> blank(#[trigger] b[j]),
        !blank(b[i]),
        i < k < b.len(),
        forall|j: int| i < j < k ==> blank(#[trigger] b[j]),
        !blank(b[k]),
    ensures
        b[i] as char != '{' && b[i] as char != '[' ==> parts(b) is None,
        parts(b) matches Some(p) ==> (p.named <==> b[i] as char == '{'),
        (forall|j: int| k < j < b.len() ==> blank(#[trigger] b[j])) && (b[i] as char == '{' && b[k] as char
            == '}' || b[i] as char == '[' && b[k] as char == ']') ==> (parts(b) matches Some(p)
            && p.items.len() == 0),
        b[i] as char == '{' && b[k] as char == '}' && (exists|j: int|
            k < j < b.len() && !blank(#[trigger] b[j])) ==> parts(b) is None,
{
    lemma_unspaced_at(b, i);
    let s = b.skip(i);
    let inner = s.skip(1);
    let at = k - i - 1;
    assert forall|j: int| 0 <= j < at implies blank(#[trigger] inner[j]) by {
        assert(inner[j] == b[i + 1 + j]);
    }
    assert(inner[at] == b[k]);
    lemma_unspaced_at(inner, at);
    let end = inner.skip(at).skip(1);
    assert(end =~= b.skip(k + 1));
    if forall|j: int| k < j < b.len() ==> blank(#[trigger] b[j]) {
        assert forall|j: int| 0 <= j < end.len() implies blank(#[trigger] end[j]) by {
            assert(end[j] == b[k + 1 + j]);
        }
        lemma_unspaced_at(end, end.len() as int);
    }
    if exists|j: int| k < j < b.len() && !blank(#[trigger] b[j]) {
        let j = choose|j: int| k < j < b.len() && !blank(#[trigger] b[j]);
        assert(end[j - k - 1] == b[j]);
        lemma_unspaced_some(end, j - k - 1);
    }
}

proof fn lemma_unspaced_some(b: Seq<u8>, i: int)
    requires
        0 <= i < b.len(),
        !blank(b[i]),
    ensures
        unspaced(b).len() > 0,
    decreases b.len(),
{
    if blank(b[0]) {
        assert(b.skip(1)[i - 1] == b[i]);
        lemma_unspaced_some(b.skip(1), i - 1);
    }
}

} // verus!
