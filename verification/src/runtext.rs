//! Records of runs in JSON text. Of the fields of a record none may stand twice, and what stands
//! beside them is not looked at.

use crate::json::{json_distinct, json_parse, Parsed, Tree};
use crate::json::{json_read, json_unrepeated};
use crate::jsontext::{natural_in, part_list, parts, Parts};
use crate::jsontext::{read_natural, read_parts};
use crate::record::{
    is_run, meta_fields, node_fields, run_fields, run_from, MetaRec, RunMetadata, RunRec,
};
use crate::record::{meta_names, node_names, run_from_json, run_names, RunRecord};
use crate::strmap::{lemma_lookup_absent, lookup};
use crate::text::texts;
use crate::text::{holds_text, same_text};
use vstd::prelude::*;
use vstd::utf8::encode_utf8;

verus! {

/// The members among these that are fields, if none of the fields stands twice.
pub open spec fn known(items: Seq<(Seq<char>, Seq<u8>)>, names: Seq<Seq<char>>) -> Option<
    Seq<(Seq<char>, Seq<u8>)>,
>
    decreases items.len(),
{
    if items.len() == 0 {
        Some(Seq::empty())
    } else {
        match known(items.drop_last(), names) {
            Some(fields) => if !names.contains(items.last().0) {
                Some(fields)
            } else if lookup(fields, items.last().0) is Some {
                None
            } else {
                Some(fields.push(items.last()))
            },
            None => None,
        }
    }
}

/// The fields in a JSON text: those among the members of an object, or the items of an array that has
/// one for each field.
pub open spec fn fields(b: Seq<u8>, names: Seq<Seq<char>>) -> Option<Seq<(Seq<char>, Seq<u8>)>> {
    match parts(b) {
        Some(p) => if p.named {
            known(p.items, names)
        } else if p.items.len() == names.len() {
            Some(Seq::new(names.len(), |i: int| (names[i], p.items[i].1)))
        } else {
            None
        },
        None => None,
    }
}

/// The fields with another text in the place of that of one of them.
pub open spec fn replaced(
    s: Seq<(Seq<char>, Seq<u8>)>,
    name: Seq<char>,
    text: Seq<u8>,
) -> Seq<(Seq<char>, Seq<u8>)> {
    Seq::new(
        s.len(),
        |i: int|
            if s[i].0 == name {
                (name, text)
            } else {
                s[i]
            },
    )
}

/// The texts with commas between them.
pub open spec fn listed(s: Seq<Seq<u8>>) -> Seq<u8>
    decreases s.len(),
{
    if s.len() == 0 {
        Seq::empty()
    } else if s.len() == 1 {
        s[0]
    } else {
        listed(s.drop_last()) + seq![44u8] + s.last()
    }
}

/// The text of a member.
pub open spec fn member_text(m: (Seq<char>, Seq<u8>)) -> Seq<u8> {
    seq![34u8] + encode_utf8(m.0) + seq![34u8, 58u8] + m.1
}

/// The text of an object with these members.
pub open spec fn object_text(s: Seq<(Seq<char>, Seq<u8>)>) -> Seq<u8> {
    seq![123u8] + listed(Seq::new(s.len(), |i: int| member_text(s[i]))) + seq![125u8]
}

/// The text of an array of these items.
pub open spec fn array_text(s: Seq<Seq<u8>>) -> Seq<u8> {
    seq![91u8] + listed(s) + seq![93u8]
}

/// Whether a field can name a variant: an object that does has one member.
pub open spec fn names_variant(b: Option<Seq<u8>>) -> bool {
    match b {
        Some(b) => parts(b) matches Some(p) ==> !p.named || p.items.len() == 1,
        None => true,
    }
}

/// The number that a field holds, if it is a natural number that 64 bits do not hold.
pub open spec fn wide_in(b: Option<Seq<u8>>) -> Option<u128> {
    match b {
        Some(b) => match natural_in(b) {
            Some(n) => if n > u64::MAX {
                Some(n)
            } else {
                None
            },
            None => None,
        },
        None => None,
    }
}

/// The text of metadata without what is not a field of it, and the duration, if 64 bits do not hold
/// it: zero then stands in its place.
pub open spec fn meta_part(b: Seq<u8>) -> Option<(Seq<u8>, Option<u128>)> {
    match fields(b, meta_fields()) {
        Some(s) => if !names_variant(lookup(s, "status"@)) {
            None
        } else {
            match wide_in(lookup(s, "duration_ms"@)) {
                Some(n) => Some((object_text(replaced(s, "duration_ms"@, seq![48u8])), Some(n))),
                None => Some((object_text(s), None)),
            }
        },
        None => None,
    }
}

/// The text of the record of a node without what is not a field of it.
pub open spec fn node_part(b: Seq<u8>) -> Option<Seq<u8>> {
    match fields(b, node_fields()) {
        Some(s) => if names_variant(lookup(s, "status"@)) {
            Some(object_text(s))
        } else {
            None
        },
        None => None,
    }
}

/// The texts of records of nodes without what is not a field of them.
pub open spec fn node_parts(items: Seq<(Seq<char>, Seq<u8>)>) -> Option<Seq<Seq<u8>>>
    decreases items.len(),
{
    if items.len() == 0 {
        Some(Seq::empty())
    } else {
        match (node_parts(items.drop_last()), node_part(items.last().1)) {
            (Some(s), Some(t)) => Some(s.push(t)),
            _ => None,
        }
    }
}

/// The text of a list of records of nodes without what is not a field of them.
pub open spec fn nodes_part(b: Seq<u8>) -> Option<Seq<u8>> {
    match parts(b) {
        Some(p) => if p.named {
            None
        } else {
            match node_parts(p.items) {
                Some(s) => Some(array_text(s)),
                None => None,
            }
        },
        None => None,
    }
}

/// The text of the record of a run without what is not a field of it, and its duration, if 64 bits do
/// not hold it.
pub open spec fn run_part(b: Seq<u8>) -> Option<(Seq<u8>, Option<u128>)> {
    match fields(b, run_fields()) {
        Some(s) => match (lookup(s, "metadata"@), lookup(s, "nodes"@)) {
            (Some(d), Some(n)) => match (meta_part(d), nodes_part(n)) {
                (Some((metadata, wide)), Some(nodes)) => Some(
                    (
                        object_text(
                            replaced(replaced(s, "metadata"@, metadata), "nodes"@, nodes),
                        ),
                        wide,
                    ),
                ),
                _ => None,
            },
            _ => None,
        },
        None => None,
    }
}

/// The document of a record in a JSON text, if each of its fields stands there once at most, and the
/// duration, if 64 bits do not hold it. Where no object of the text names a member twice, and the
/// text as a whole is one of a record, its document is the one.
pub open spec fn run_document(b: Seq<u8>) -> Option<(Tree, Option<u128>)> {
    if json_distinct(b) && (json_parse(b) matches Parsed::Document(t) && is_run(t)) {
        Some((json_parse(b)->Document_0, None))
    } else {
        match run_part(b) {
            Some((text, wide)) => match json_parse(text) {
                Parsed::Document(t) => Some((t, wide)),
                Parsed::Fault(_) => None,
            },
            None => None,
        }
    }
}

/// The record with another duration.
pub open spec fn lasting(r: RunRec, duration_ms: u128) -> RunRec {
    RunRec { metadata: MetaRec { duration_ms, ..r.metadata }, ..r }
}

/// Whether the bytes are JSON text of a record of a run.
pub open spec fn run_bytes(b: Seq<u8>) -> bool {
    run_document(b) matches Some((t, _)) && is_run(t)
}

/// Whether the bytes are JSON text of that record of a run.
pub open spec fn holds_run(b: Seq<u8>, r: RunRec) -> bool {
    match run_document(b) {
        Some((t, None)) => run_from(t, r),
        Some((t, Some(n))) => r.metadata.duration_ms == n && exists|d: u128| #[trigger]
            run_from(t, lasting(r, d)),
        None => false,
    }
}

proof fn lemma_known_repeated(
    items: Seq<(Seq<char>, Seq<u8>)>,
    names: Seq<Seq<char>>,
    i: int,
    j: int,
)
    requires
        0 <= i < j < items.len(),
        items[i].0 == items[j].0,
        names.contains(items[i].0),
    ensures
        known(items, names) is None,
{
    let name = items[i].0;
    let before = items.take(j);
    lemma_known_holds(before, names, i);
    assert(items.take(j + 1).drop_last() =~= before);
    assert(items.take(j + 1).last() == items[j]);
    lemma_known_fault(items, names, j + 1);
}

proof fn lemma_known_holds(items: Seq<(Seq<char>, Seq<u8>)>, names: Seq<Seq<char>>, i: int)
    requires
        0 <= i < items.len(),
        names.contains(items[i].0),
    ensures
        known(items, names) matches Some(s) ==> lookup(s, items[i].0) is Some,
    decreases items.len(),
{
    if i < items.len() - 1 {
        assert(items.drop_last()[i] == items[i]);
        lemma_known_holds(items.drop_last(), names, i);
    }
    match known(items.drop_last(), names) {
        Some(s) => {
            if names.contains(items.last().0) {
                lemma_lookup_push(s, items.last(), items[i].0);
            }
        },
        None => {},
    }
}

proof fn lemma_lookup_push(
    s: Seq<(Seq<char>, Seq<u8>)>,
    last: (Seq<char>, Seq<u8>),
    name: Seq<char>,
)
    ensures
        lookup(s.push(last), name) is Some <==> lookup(s, name) is Some || last.0 == name,
    decreases s.len(),
{
    let t = s.push(last);
    if s.len() == 0 {
        assert(t.drop_first() =~= Seq::<(Seq<char>, Seq<u8>)>::empty());
    } else {
        assert(t.drop_first() =~= s.drop_first().push(last));
        lemma_lookup_push(s.drop_first(), last, name);
    }
}

/// Whether an object in JSON text has one of the fields twice.
pub open spec fn repeats(b: Seq<u8>, names: Seq<Seq<char>>) -> bool {
    parts(b) matches Some(p) && p.named && exists|i: int, j: int|
        0 <= i < j < p.items.len() && (#[trigger] p.items[i]).0 == (#[trigger] p.items[j]).0
            && names.contains(p.items[i].0)
}

/// Whether one of the records of nodes in a JSON text has one of its fields twice.
pub open spec fn node_repeats(b: Seq<u8>) -> bool {
    parts(b) matches Some(p) && exists|k: int|
        0 <= k < p.items.len() && repeats((#[trigger] p.items[k]).1, node_fields())
}

/// Whether one of the fields of a record of a run stands twice in a JSON text: one of its own, of its
/// metadata or of one of its nodes.
pub open spec fn run_repeats(b: Seq<u8>) -> bool {
    repeats(b, run_fields()) || (fields(b, run_fields()) matches Some(s) && {
        ||| lookup(s, "metadata"@) matches Some(d) && repeats(d, meta_fields())
        ||| lookup(s, "nodes"@) matches Some(n) && node_repeats(n)
    })
}

proof fn lemma_repeats(b: Seq<u8>, names: Seq<Seq<char>>)
    requires
        repeats(b, names),
    ensures
        fields(b, names) is None,
{
    let items = parts(b)->Some_0.items;
    let (i, j) = choose|i: int, j: int|
        0 <= i < j < items.len() && (#[trigger] items[i]).0 == (#[trigger] items[j]).0
            && names.contains(items[i].0);
    lemma_known_repeated(items, names, i, j);
}

/// A text in which one of the fields of a record stands twice is no record.
pub proof fn lemma_repeated_field_refused(b: Seq<u8>)
    requires
        !json_distinct(b),
        run_repeats(b),
    ensures
        !run_bytes(b),
{
    if repeats(b, run_fields()) {
        lemma_repeats(b, run_fields());
    } else {
        let s = fields(b, run_fields())->Some_0;
        if let Some(d) = lookup(s, "metadata"@) {
            if repeats(d, meta_fields()) {
                lemma_repeats(d, meta_fields());
            }
        }
        if let Some(n) = lookup(s, "nodes"@) {
            if node_repeats(n) {
                let items = parts(n)->Some_0.items;
                let k = choose|k: int|
                    0 <= k < items.len() && repeats((#[trigger] items[k]).1, node_fields());
                lemma_repeats(items[k].1, node_fields());
                assert(items.take(k + 1).last() == items[k]);
                lemma_node_parts_fault(items, k + 1);
            }
        }
    }
}

/// A member that is no field is not looked at, whatever it holds.
pub proof fn lemma_other_member_ignored(
    items: Seq<(Seq<char>, Seq<u8>)>,
    other: (Seq<char>, Seq<u8>),
    names: Seq<Seq<char>>,
    at: int,
)
    requires
        0 <= at <= items.len(),
        !names.contains(other.0),
    ensures
        known(items.insert(at, other), names) == known(items, names),
    decreases items.len(),
{
    let more = items.insert(at, other);
    if at == items.len() {
        assert(more.drop_last() =~= items);
        assert(more.last() == other);
    } else {
        assert(more.drop_last() =~= items.drop_last().insert(at, other));
        assert(more.last() == items.last());
        lemma_other_member_ignored(items.drop_last(), other, names, at);
    }
}

/// Where the member of that name stands.
fn find(s: &Vec<(String, Vec<u8>)>, name: &str) -> (r: Option<usize>)
    ensures
        match r {
            Some(i) => i < s@.len() && lookup(part_list(s@), name@) == Some(s@[i as int].1@),
            None => lookup(part_list(s@), name@) is None,
        },
{
    let ghost list = part_list(s@);
    let mut i: usize = 0;
    while i < s.len()
        invariant
            i <= s@.len(),
            list == part_list(s@),
            forall|j: int| 0 <= j < i ==> (#[trigger] list[j]).0 != name@,
        decreases s.len() - i,
    {
        if same_text(s[i].0.as_str(), name) {
            proof {
                crate::record::lemma_lookup_first(list, i as int);
            }
            return Some(i);
        }
        i += 1;
    }
    proof {
        lemma_lookup_absent(list, name@);
    }
    None
}

proof fn lemma_known_fault(items: Seq<(Seq<char>, Seq<u8>)>, names: Seq<Seq<char>>, i: int)
    requires
        0 <= i <= items.len(),
        known(items.take(i), names) is None,
    ensures
        known(items, names) is None,
    decreases items.len(),
{
    if i < items.len() {
        assert(items.drop_last().take(i) =~= items.take(i));
        lemma_known_fault(items.drop_last(), names, i);
    } else {
        assert(items.take(i) =~= items);
    }
}

fn read_known(items: Vec<(String, Vec<u8>)>, names: &Vec<String>) -> (r: Option<
    Vec<(String, Vec<u8>)>,
>)
    ensures
        match r {
            Some(s) => known(part_list(items@), texts(names@)) == Some(part_list(s@)),
            None => known(part_list(items@), texts(names@)) is None,
        },
{
    let ghost list = part_list(items@);
    let ghost all = texts(names@);
    let mut r: Vec<(String, Vec<u8>)> = Vec::new();
    assert(list.take(0) =~= Seq::<(Seq<char>, Seq<u8>)>::empty());
    assert(part_list(r@) =~= Seq::<(Seq<char>, Seq<u8>)>::empty());
    for item in it: items.into_iter()
        invariant
            it.seq() == items@,
            list == part_list(items@),
            all == texts(names@),
            known(list.take(it.index() as int), all) == Some(part_list(r@)),
    {
        let ghost k = it.index() as int;
        let ghost before = part_list(r@);
        proof {
            assert(list.take(k + 1).drop_last() =~= list.take(k));
            assert(list.take(k + 1).last() == (item.0@, item.1@));
        }
        if holds_text(names, item.0.as_str()) {
            match find(&r, item.0.as_str()) {
                Some(_) => {
                    proof {
                        lemma_known_fault(list, all, k + 1);
                    }
                    return None;
                },
                None => {},
            }
            let ghost last = (item.0@, item.1@);
            r.push(item);
            assert(part_list(r@) =~= before.push(last));
        }
    }
    assert(list.take(items@.len() as int) =~= list);
    Some(r)
}

/// The fields in a JSON text.
fn read_fields(b: &[u8], names: Vec<String>) -> (r: Option<Vec<(String, Vec<u8>)>>)
    ensures
        match r {
            Some(s) => fields(b@, texts(names@)) == Some(part_list(s@)),
            None => fields(b@, texts(names@)) is None,
        },
{
    let (named, items) = match read_parts(b) {
        Some(p) => p,
        None => {
            return None;
        },
    };
    if named {
        return read_known(items, &names);
    }
    if items.len() != names.len() {
        return None;
    }
    let ghost list = part_list(items@);
    let mut r: Vec<(String, Vec<u8>)> = Vec::new();
    for item in it: items.into_iter()
        invariant
            it.seq() == items@,
            items@.len() == names@.len(),
            list == part_list(items@),
            r@.len() == it.index(),
            forall|i: int|
                0 <= i < r@.len() ==> (#[trigger] r@[i]).0@ == names@[i]@ && r@[i].1@ == list[i].1,
    {
        let k: usize = r.len();
        assert(list[k as int].1 == item.1@);
        r.push((names[k].clone(), item.1));
    }
    assert(part_list(r@) =~= Seq::new(
        names@.len(),
        |i: int| (texts(names@)[i], list[i].1),
    ));
    Some(r)
}

/// Puts another text in the place of that of one of the fields.
fn replace(s: &mut Vec<(String, Vec<u8>)>, name: &str, text: Vec<u8>)
    ensures
        part_list(final(s)@) == replaced(part_list(old(s)@), name@, text@),
{
    let ghost before = part_list(s@);
    let mut i: usize = 0;
    while i < s.len()
        invariant
            i <= s@.len() == before.len(),
            forall|j: int|
                0 <= j < i ==> (#[trigger] part_list(s@)[j]) == replaced(before, name@, text@)[j],
            forall|j: int| i <= j < s@.len() ==> (#[trigger] part_list(s@)[j]) == before[j],
        decreases s.len() - i,
    {
        assert(part_list(s@)[i as int] == before[i as int]);
        if same_text(s[i].0.as_str(), name) {
            let copy = text.clone();
            assert(copy@ =~= text@);
            let key = s[i].0.clone();
            let ghost earlier = part_list(s@);
            s.set(i, (key, copy));
            assert(part_list(s@) =~= earlier.update(i as int, (name@, text@)));
        }
        i += 1;
    }
    assert(part_list(s@) =~= replaced(before, name@, text@));
}

/// The bytes of texts.
pub open spec fn byte_lists(s: Seq<Vec<u8>>) -> Seq<Seq<u8>> {
    Seq::new(s.len(), |i: int| s[i]@)
}

fn append_bytes(r: &mut Vec<u8>, b: &[u8])
    ensures
        final(r)@ == old(r)@ + b@,
{
    let ghost before = r@;
    let mut i: usize = 0;
    assert(before + b@.take(0) =~= before);
    while i < b.len()
        invariant
            i <= b@.len(),
            r@ == before + b@.take(i as int),
        decreases b.len() - i,
    {
        r.push(b[i]);
        assert(before + b@.take(i + 1) =~= (before + b@.take(i as int)).push(b@[i as int]));
        i += 1;
    }
    assert(b@.take(b@.len() as int) =~= b@);
}

/// The texts between two brackets, with commas between them.
fn bracketed(open: u8, s: &Vec<Vec<u8>>, close: u8) -> (r: Vec<u8>)
    ensures
        r@ == seq![open] + listed(byte_lists(s@)) + seq![close],
{
    let ghost list = byte_lists(s@);
    let mut r: Vec<u8> = Vec::new();
    r.push(open);
    let mut i: usize = 0;
    assert(list.take(0) =~= Seq::<Seq<u8>>::empty());
    assert(r@ =~= seq![open] + listed(list.take(0)));
    while i < s.len()
        invariant
            i <= s@.len(),
            list == byte_lists(s@),
            r@ == seq![open] + listed(list.take(i as int)),
        decreases s.len() - i,
    {
        let ghost front = listed(list.take(i as int));
        proof {
            assert(list.take(i + 1).drop_last() =~= list.take(i as int));
            assert(list.take(i + 1).last() == s@[i as int]@);
        }
        if i > 0 {
            r.push(44);
            assert(r@ =~= seq![open] + front + seq![44u8]);
        } else {
            assert(front =~= Seq::<u8>::empty());
        }
        append_bytes(&mut r, s[i].as_slice());
        assert(r@ =~= seq![open] + listed(list.take(i + 1)));
        i += 1;
    }
    assert(list.take(s@.len() as int) =~= list);
    r.push(close);
    assert(r@ =~= seq![open] + listed(list) + seq![close]);
    r
}

/// The text of an object with these members.
fn write_object(s: &Vec<(String, Vec<u8>)>) -> (r: Vec<u8>)
    ensures
        r@ == object_text(part_list(s@)),
{
    let ghost list = part_list(s@);
    let mut members: Vec<Vec<u8>> = Vec::new();
    let mut i: usize = 0;
    while i < s.len()
        invariant
            i <= s@.len(),
            list == part_list(s@),
            members@.len() == i,
            forall|j: int| 0 <= j < i ==> (#[trigger] members@[j])@ == member_text(list[j]),
        decreases s.len() - i,
    {
        let mut m: Vec<u8> = Vec::new();
        m.push(34);
        append_bytes(&mut m, s[i].0.as_str().as_bytes());
        m.push(34);
        m.push(58);
        append_bytes(&mut m, s[i].1.as_slice());
        assert(m@ =~= member_text(list[i as int]));
        members.push(m);
        i += 1;
    }
    assert(byte_lists(members@) =~= Seq::new(list.len(), |i: int| member_text(list[i])));
    bracketed(123, &members, 125)
}

fn can_name_variant(s: &Vec<(String, Vec<u8>)>, name: &str) -> (r: bool)
    ensures
        r == names_variant(lookup(part_list(s@), name@)),
{
    match find(s, name) {
        Some(i) => match read_parts(s[i].1.as_slice()) {
            Some((named, items)) => !named || items.len() == 1,
            None => true,
        },
        None => true,
    }
}

fn read_meta_part(b: &[u8]) -> (r: Option<(Vec<u8>, Option<u128>)>)
    ensures
        match r {
            Some((text, wide)) => meta_part(b@) == Some((text@, wide)),
            None => meta_part(b@) is None,
        },
{
    let mut s = match read_fields(b, meta_names()) {
        Some(s) => s,
        None => {
            return None;
        },
    };
    if !can_name_variant(&s, "status") {
        return None;
    }
    let number = match find(&s, "duration_ms") {
        Some(i) => read_natural(s[i].1.as_slice()),
        None => None,
    };
    match number {
        Some(n) => if n > u64::MAX as u128 {
            let mut zero: Vec<u8> = Vec::new();
            zero.push(48);
            assert(zero@ =~= seq![48u8]);
            replace(&mut s, "duration_ms", zero);
            Some((write_object(&s), Some(n)))
        } else {
            Some((write_object(&s), None))
        },
        None => Some((write_object(&s), None)),
    }
}

fn read_node_part(b: &[u8]) -> (r: Option<Vec<u8>>)
    ensures
        match r {
            Some(text) => node_part(b@) == Some(text@),
            None => node_part(b@) is None,
        },
{
    match read_fields(b, node_names()) {
        Some(s) => if can_name_variant(&s, "status") {
            Some(write_object(&s))
        } else {
            None
        },
        None => None,
    }
}

proof fn lemma_node_parts_fault(items: Seq<(Seq<char>, Seq<u8>)>, i: int)
    requires
        0 <= i <= items.len(),
        node_parts(items.take(i)) is None,
    ensures
        node_parts(items) is None,
    decreases items.len(),
{
    if i < items.len() {
        assert(items.drop_last().take(i) =~= items.take(i));
        lemma_node_parts_fault(items.drop_last(), i);
    } else {
        assert(items.take(i) =~= items);
    }
}

fn read_nodes_part(b: &[u8]) -> (r: Option<Vec<u8>>)
    ensures
        match r {
            Some(text) => nodes_part(b@) == Some(text@),
            None => nodes_part(b@) is None,
        },
{
    let (named, items) = match read_parts(b) {
        Some(p) => p,
        None => {
            return None;
        },
    };
    if named {
        return None;
    }
    let ghost list = part_list(items@);
    let mut texts: Vec<Vec<u8>> = Vec::new();
    let mut i: usize = 0;
    assert(list.take(0) =~= Seq::<(Seq<char>, Seq<u8>)>::empty());
    assert(byte_lists(texts@) =~= Seq::<Seq<u8>>::empty());
    while i < items.len()
        invariant
            i <= items@.len(),
            list == part_list(items@),
            parts(b@) == Some(Parts { named: false, items: list }),
            node_parts(list.take(i as int)) == Some(byte_lists(texts@)),
        decreases items.len() - i,
    {
        let ghost before = byte_lists(texts@);
        proof {
            assert(list.take(i + 1).drop_last() =~= list.take(i as int));
            assert(list.take(i + 1).last() == list[i as int]);
        }
        match read_node_part(items[i].1.as_slice()) {
            Some(text) => {
                let ghost t = text@;
                texts.push(text);
                assert(byte_lists(texts@) =~= before.push(t));
            },
            None => {
                proof {
                    lemma_node_parts_fault(list, i + 1);
                }
                return None;
            },
        }
        i += 1;
    }
    assert(list.take(items@.len() as int) =~= list);
    Some(bracketed(91, &texts, 93))
}

fn read_run_part(b: &[u8]) -> (r: Option<(Vec<u8>, Option<u128>)>)
    ensures
        match r {
            Some((text, wide)) => run_part(b@) == Some((text@, wide)),
            None => run_part(b@) is None,
        },
{
    let mut s = match read_fields(b, run_names()) {
        Some(s) => s,
        None => {
            return None;
        },
    };
    let (d, n) = match (find(&s, "metadata"), find(&s, "nodes")) {
        (Some(d), Some(n)) => (d, n),
        _ => {
            return None;
        },
    };
    match (read_meta_part(s[d].1.as_slice()), read_nodes_part(s[n].1.as_slice())) {
        (Some((metadata, wide)), Some(nodes)) => {
            replace(&mut s, "metadata", metadata);
            replace(&mut s, "nodes", nodes);
            Some((write_object(&s), wide))
        },
        _ => None,
    }
}

/// The record of a run that bytes hold as JSON text, if they hold one.
pub fn run_of_bytes(b: &[u8]) -> (r: Option<RunRecord>)
    ensures
        match r {
            Some(d) => holds_run(b@, d@) && run_bytes(b@),
            None => !run_bytes(b@),
        },
{
    if json_unrepeated(b) {
        match json_read(b) {
            Ok(j) => match run_from_json(j) {
                Some(d) => {
                    return Some(d);
                },
                None => {},
            },
            Err(_) => {},
        }
    }
    let (text, wide) = match read_run_part(b) {
        Some(p) => p,
        None => {
            return None;
        },
    };
    let found = match json_read(text.as_slice()) {
        Ok(j) => run_from_json(j),
        Err(_) => None,
    };
    match (found, wide) {
        (Some(d), Some(n)) => {
            let ghost short = d@;
            let metadata = RunMetadata { duration_ms: n, ..d.metadata };
            let long = RunRecord { metadata, ..d };
            assert(lasting(long@, short.metadata.duration_ms) == short);
            Some(long)
        },
        (found, _) => found,
    }
}

/// The duration that is set apart is the one under `duration_ms`, and it is set apart if and only if it
/// is a whole number that takes more than 64 bits.
pub proof fn lemma_wide_duration(b: Seq<u8>, s: Seq<(Seq<char>, Seq<u8>)>)
    requires
        fields(b, meta_fields()) == Some(s),
    ensures
        meta_part(b) matches Some((_, Some(n))) ==> n > u64::MAX && (lookup(s, "duration_ms"@) matches Some(t)
            && natural_in(t) == Some(n)),
        meta_part(b) matches Some((_, None)) ==> (lookup(s, "duration_ms"@) matches Some(t) ==> (
        natural_in(t) matches Some(n) ==> n <= u64::MAX)),
        meta_part(b) is None ==> (lookup(s, "status"@) matches Some(t) && (parts(t) matches Some(p)
            && p.named && p.items.len() != 1)),
        (lookup(s, "status"@) matches Some(t) && (parts(t) matches Some(p) && p.named && p.items.len()
            != 1)) ==> meta_part(b) is None,
{
}

/// A record needs its metadata and its nodes, and the nodes are a list.
pub proof fn lemma_run_needs(b: Seq<u8>, s: Seq<(Seq<char>, Seq<u8>)>)
    requires
        fields(b, run_fields()) == Some(s),
        run_part(b) is Some,
    ensures
        lookup(s, "metadata"@) matches Some(d) && (meta_part(d) matches Some((_, v)) && (
        run_part(b) matches Some((_, w)) && v == w)),
        lookup(s, "nodes"@) matches Some(n) && (parts(n) matches Some(p) && !p.named),
{
}

/// The text of a member is replaced under its name and nowhere else.
pub proof fn lemma_member_replaced(
    s: Seq<(Seq<char>, Seq<u8>)>,
    name: Seq<char>,
    text: Seq<u8>,
    i: int,
)
    requires
        0 <= i < s.len(),
    ensures
        replaced(s, name, text).len() == s.len(),
        replaced(s, name, text)[i].0 == s[i].0,
        s[i].0 == name ==> replaced(s, name, text)[i].1 == text,
        s[i].0 != name ==> replaced(s, name, text)[i] == s[i],
{
}

/// A document that lists its fields without their names gives each field what stands at its place, and
/// is refused if it has more of them or fewer.
pub proof fn lemma_fields_by_place(b: Seq<u8>, names: Seq<Seq<char>>, i: int)
    requires
        parts(b) matches Some(p) && !p.named,
    ensures
        fields(b, names) is Some <==> parts(b)->Some_0.items.len() == names.len(),
        fields(b, names) matches Some(s) ==> s.len() == names.len() && (0 <= i < names.len() ==> s[i].0
            == names[i] && s[i].1 == parts(b)->Some_0.items[i].1),
{
}

} // verus!
