//! JSON documents, and values as JSON.

use crate::strmap::{ascending, listing, lemma_put_ascending, lemma_put_last, put, StrMap};
use crate::strmap::{lemma_put_lookup, lookup};
use crate::text::{cat, contains_text, hex_text, signed_text};
use crate::text::{
    hex, hex_value, lemma_hex_read, lemma_signed_numeral_read, lemma_text_lt_irreflexive, occurs,
    signed_numeral, signed_value, text_lt,
};
use crate::value::{
    dict_view, lemma_dict_view, lemma_pair_vals_put, list_view, pair_vals, Float, Val, Value,
};
use serde_json::Value as Json;
use vstd::prelude::*;
use vstd::utf8::encode_utf8;

verus! {

/// A JSON value of the `serde_json` crate.
#[verifier::external_type_specification]
#[verifier::external_body]
pub struct ExJsonValue(Json);

/// A JSON document. A number is a natural number, a negative integer, or a floating-point number
/// by its displayed text. The members of an object stand in document order.
pub enum Tree {
    Null,
    Bool(bool),
    Unsigned(u64),
    Negative(i64),
    Float(Seq<char>),
    Text(Seq<char>),
    Array(Seq<Tree>),
    Object(Seq<(Seq<char>, Tree)>),
}

/// The document that a JSON value holds.
pub uninterp spec fn json_tree(v: Json) -> Tree;

/// The compact JSON text of a document.
pub uninterp spec fn json_text(t: Tree) -> Seq<char>;

/// The indented JSON text of a document.
pub uninterp spec fn json_pretty_text(t: Tree) -> Seq<char>;

/// What comes of reading JSON text: a document, or a message that says what is wrong.
pub enum Parsed {
    Document(Tree),
    Fault(Seq<char>),
}

/// What comes of reading bytes as JSON text.
pub uninterp spec fn json_parse(bytes: Seq<u8>) -> Parsed;

/// Whether bytes are JSON text in which no object names a member twice.
pub uninterp spec fn json_distinct(bytes: Seq<u8>) -> bool;

/// The displayed text of the finite floating-point number that a text reads as, if it reads as one.
pub uninterp spec fn finite_text(text: Seq<char>) -> Option<Seq<char>>;

/// The displayed text of a natural number that was turned into a floating-point number.
pub uninterp spec fn wide_text(n: u64) -> Seq<char>;

/// One level of a JSON document.
pub enum Node {
    Null,
    Bool(bool),
    Unsigned(u64),
    Negative(i64),
    Float(String),
    Text(String),
    Array(Vec<Json>),
    Object(Vec<(String, Json)>),
}

/// The number that a floating-point number is written as, or null if it is not finite.
pub open spec fn float_tree(text: Seq<char>) -> Tree {
    match finite_text(text) {
        Some(t) => Tree::Float(t),
        None => Tree::Null,
    }
}

/// The documents of a sequence of JSON values.
pub open spec fn trees(s: Seq<Json>) -> Seq<Tree> {
    Seq::new(s.len(), |i: int| json_tree(s[i]))
}

/// The documents of a sequence of members.
pub open spec fn member_trees(s: Seq<(String, Json)>) -> Seq<(Seq<char>, Tree)> {
    Seq::new(s.len(), |i: int| (s[i].0@, json_tree(s[i].1)))
}

/// The document that a level is the top of.
pub open spec fn node_tree(n: Node) -> Tree {
    match n {
        Node::Null => Tree::Null,
        Node::Bool(b) => Tree::Bool(b),
        Node::Unsigned(u) => Tree::Unsigned(u),
        Node::Negative(i) => Tree::Negative(i),
        Node::Float(t) => Tree::Float(t@),
        Node::Text(s) => Tree::Text(s@),
        Node::Array(v) => Tree::Array(trees(v@)),
        Node::Object(v) => Tree::Object(member_trees(v@)),
    }
}

/// Whether no member name occurs twice.
pub open spec fn distinct_names<V>(s: Seq<(Seq<char>, V)>) -> bool {
    forall|i: int, j: int| 0 <= i < j < s.len() ==> (#[trigger] s[i]).0 != (#[trigger] s[j]).0
}

/// Whether a level can be one of a document: no two members share a name, and a negative number
/// is below zero.
pub open spec fn node_sound(n: Node) -> bool {
    match n {
        Node::Negative(i) => i < 0,
        Node::Object(v) => distinct_names(member_trees(v@)),
        _ => true,
    }
}

/// Whether the document is read back as it was written: it holds no floating-point number, nests
/// at most `room` levels deep, and each of its levels is sound.
pub open spec fn exact(t: Tree, room: nat) -> bool
    decreases t,
{
    match t {
        Tree::Float(_) => false,
        Tree::Negative(i) => i < 0,
        Tree::Array(s) => room > 0 && forall|i: int|
            0 <= i < s.len() ==> exact(#[trigger] s[i], (room - 1) as nat),
        Tree::Object(s) => room > 0 && distinct_names(s) && forall|i: int|
            0 <= i < s.len() ==> exact((#[trigger] s[i]).1, (room - 1) as nat),
        _ => true,
    }
}

/// How deep a document may nest for the parser to accept it.
pub const MAX_JSON_DEPTH: u64 = 127;

/// Builds a `serde_json::Value` with the given top level. Every level but a floating-point one is
/// held as given; `serde_json::Number::from_f64` decides what a floating-point number becomes.
#[verifier::external_body]
pub(crate) fn json_make(node: Node) -> (r: Json)
    requires
        node_sound(node),
    ensures
        json_tree(r) == match node {
            Node::Float(t) => match finite_text(t@) {
                Some(x) => Tree::Float(x),
                None => Tree::Null,
            },
            _ => node_tree(node),
        },
{
    match node {
        Node::Null => Json::Null,
        Node::Bool(b) => Json::Bool(b),
        Node::Unsigned(u) => Json::Number(u.into()),
        Node::Negative(i) => Json::Number(i.into()),
        Node::Float(t) => Json::from(
            t.parse().ok().and_then(serde_json::Number::from_f64).map(Json::Number),
        ),
        Node::Text(s) => Json::String(s),
        Node::Array(v) => Json::Array(v),
        Node::Object(v) => Json::Object(v.into_iter().collect()),
    }
}

/// Takes the top level off a `serde_json::Value`. A number is told apart by `Number::as_u64` and
/// `Number::as_i64`: what is neither is a floating-point number.
#[verifier::external_body]
pub(crate) fn json_open(v: Json) -> (r: Node)
    ensures
        node_tree(r) == json_tree(v),
        node_sound(r),
{
    match v {
        Json::Null => Node::Null,
        Json::Bool(b) => Node::Bool(b),
        Json::Number(n) => match (n.as_u64(), n.as_i64()) {
            (Some(u), _) => Node::Unsigned(u),
            (None, Some(i)) => Node::Negative(i),
            (None, None) => Node::Float(n.as_f64().map(|x| x.to_string()).unwrap_or_default()),
        },
        Json::String(s) => Node::Text(s),
        Json::Array(v) => Node::Array(v),
        Json::Object(m) => Node::Object(m.into_iter().collect()),
    }
}

/// `serde_json::to_vec`, which never fails on a `serde_json::Value`: the compact text in UTF-8.
/// Reading what was written gives the same document back, if it can be read back exactly, and none of
/// its objects names a member twice.
#[verifier::external_body]
pub(crate) fn json_write(v: &Json) -> (r: Vec<u8>)
    ensures
        r@ == encode_utf8(json_text(json_tree(*v))),
        exact(json_tree(*v), MAX_JSON_DEPTH as nat) ==> json_parse(r@) == Parsed::Document(
            json_tree(*v),
        ) && json_distinct(r@),
{
    serde_json::to_vec(v).unwrap_or_default()
}

/// `serde_json::to_string`, which never fails on a `serde_json::Value`: the compact text.
#[verifier::external_body]
pub(crate) fn json_show(v: &Json) -> (r: String)
    ensures
        r@ == json_text(json_tree(*v)),
{
    serde_json::to_string(v).unwrap_or_default()
}

/// `serde_json::to_string_pretty`, which never fails on a `serde_json::Value`: the indented text.
#[verifier::external_body]
pub(crate) fn json_show_pretty(v: &Json) -> (r: String)
    ensures
        r@ == json_pretty_text(json_tree(*v)),
{
    serde_json::to_string_pretty(v).unwrap_or_default()
}

/// `serde_json::from_slice` into a `serde_json::Value`: the document, or the parser's message.
#[verifier::external_body]
pub(crate) fn json_read(bytes: &[u8]) -> (r: Result<Json, String>)
    ensures
        match r {
            Ok(v) => json_parse(bytes@) == Parsed::Document(json_tree(v)),
            Err(e) => json_parse(bytes@) == Parsed::Fault(e@),
        },
{
    serde_json::from_slice(bytes).map_err(|e| e.to_string())
}

/// `serde_json::from_slice` into a `serde_yaml::Value`, which refuses an object that names a member
/// twice, as it refuses what is not JSON.
#[verifier::external_body]
pub(crate) fn json_unrepeated(bytes: &[u8]) -> (r: bool)
    ensures
        r == json_distinct(bytes@),
{
    serde_json::from_slice::<serde_yaml::Value>(bytes).is_ok()
}

/// `serde_json::Number::as_f64` of a natural number, displayed.
#[verifier::external_body]
fn wide_number(n: u64) -> (r: String)
    ensures
        r@ == wide_text(n),
{
    serde_json::Number::from(n).as_f64().map(|x| x.to_string()).unwrap_or_default()
}

/// The documents of the bytes of a string of bytes: each is a number.
pub open spec fn byte_trees(b: Seq<u8>) -> Seq<Tree> {
    Seq::new(b.len(), |i: int| Tree::Unsigned(b[i] as u64))
}

/// The document that a value is written as.
pub open spec fn val_tree(v: Val) -> Tree
    decreases v,
{
    match v {
        Val::Null => Tree::Null,
        Val::Bool(b) => Tree::Bool(b),
        Val::Int(i) => if i >= 0 {
            Tree::Unsigned(i as u64)
        } else {
            Tree::Negative(i)
        },
        Val::Float(t) => float_tree(t),
        Val::Text(s) => Tree::Text(s),
        Val::Bytes(b) => Tree::Array(byte_trees(b)),
        Val::List(s) => Tree::Array(item_trees(s)),
        Val::Table(s) => Tree::Array(item_trees(s)),
        Val::Dict(s) => Tree::Object(entry_trees(s)),
        Val::Object(s) => Tree::Object(entry_trees(s)),
    }
}

/// The documents that items are written as.
pub open spec fn item_trees(s: Seq<Val>) -> Seq<Tree>
    decreases s,
{
    Seq::new(
        s.len(),
        |i: int|
            if 0 <= i < s.len() {
                val_tree(s[i])
            } else {
                Tree::Null
            },
    )
}

/// The members that entries are written as.
pub open spec fn entry_trees(s: Seq<(Seq<char>, Val)>) -> Seq<(Seq<char>, Tree)>
    decreases s,
{
    Seq::new(
        s.len(),
        |i: int|
            if 0 <= i < s.len() {
                (s[i].0, val_tree(s[i].1))
            } else {
                (Seq::empty(), Tree::Null)
            },
    )
}

/// Whether the document is a number that fits a byte.
pub open spec fn byte_tree(t: Tree) -> bool {
    t matches Tree::Unsigned(u) && u <= 255
}

/// The byte that a number is.
pub open spec fn tree_byte(t: Tree) -> u8 {
    match t {
        Tree::Unsigned(u) => u as u8,
        _ => 0,
    }
}

/// Whether every item fits a byte.
pub open spec fn byte_array(s: Seq<Tree>) -> bool {
    forall|i: int| 0 <= i < s.len() ==> byte_tree(#[trigger] s[i])
}

/// The entries in key order; of two under one key the later one counts.
pub open spec fn collected<V>(s: Seq<(Seq<char>, V)>) -> Seq<(Seq<char>, V)>
    decreases s.len(),
{
    if s.len() == 0 {
        s
    } else {
        put(collected(s.drop_last()), s.last().0, s.last().1)
    }
}

/// The value that a document is read as. An array of bytes is read as bytes, any other array as a
/// list, an object as a map, and a number too large for an integer as a floating-point number.
pub open spec fn tree_val(t: Tree) -> Val
    decreases t,
{
    match t {
        Tree::Null => Val::Null,
        Tree::Bool(b) => Val::Bool(b),
        Tree::Unsigned(u) => if u <= i64::MAX {
            Val::Int(u as i64)
        } else {
            Val::Float(wide_text(u))
        },
        Tree::Negative(i) => Val::Int(i),
        Tree::Float(x) => Val::Float(x),
        Tree::Text(s) => Val::Text(s),
        Tree::Array(s) => if byte_array(s) {
            Val::Bytes(Seq::new(s.len(), |i: int| tree_byte(s[i])))
        } else {
            Val::List(item_vals(s))
        },
        Tree::Object(s) => Val::Dict(collected(entry_vals(s))),
    }
}

/// The values that items are read as.
pub open spec fn item_vals(s: Seq<Tree>) -> Seq<Val>
    decreases s,
{
    Seq::new(
        s.len(),
        |i: int|
            if 0 <= i < s.len() {
                tree_val(s[i])
            } else {
                Val::Null
            },
    )
}

/// The entries that members are read as.
pub open spec fn entry_vals(s: Seq<(Seq<char>, Tree)>) -> Seq<(Seq<char>, Val)>
    decreases s,
{
    Seq::new(
        s.len(),
        |i: int|
            if 0 <= i < s.len() {
                (s[i].0, tree_val(s[i].1))
            } else {
                (Seq::empty(), Val::Null)
            },
    )
}

/// Whether the entries of every map in the value are in key order.
pub open spec fn orderly(v: Val) -> bool
    decreases v,
{
    match v {
        Val::List(s) => forall|i: int| 0 <= i < s.len() ==> orderly(#[trigger] s[i]),
        Val::Table(s) => forall|i: int| 0 <= i < s.len() ==> orderly(#[trigger] s[i]),
        Val::Dict(s) => ascending(s) && forall|i: int|
            0 <= i < s.len() ==> orderly((#[trigger] s[i]).1),
        Val::Object(s) => ascending(s) && forall|i: int|
            0 <= i < s.len() ==> orderly((#[trigger] s[i]).1),
        _ => true,
    }
}

/// Whether the value is an integer that fits a byte.
pub open spec fn byte_val(v: Val) -> bool {
    v matches Val::Int(i) && 0 <= i <= 255
}

/// The byte that an integer is.
pub open spec fn val_byte(v: Val) -> u8 {
    match v {
        Val::Int(i) => i as u8,
        _ => 0,
    }
}

/// Whether every item is an integer that fits a byte.
pub open spec fn byte_items(s: Seq<Val>) -> bool {
    forall|i: int| 0 <= i < s.len() ==> byte_val(#[trigger] s[i])
}

/// What is left of a value once it was written as JSON and read back: a list or table whose items
/// all fit a byte comes back as bytes, another table as a list, and an object as a map.
pub open spec fn plain(v: Val) -> Val
    decreases v,
{
    match v {
        Val::Float(t) => tree_val(float_tree(t)),
        Val::List(s) => plain_list(s),
        Val::Table(s) => plain_list(s),
        Val::Dict(s) => Val::Dict(plain_entries(s)),
        Val::Object(s) => Val::Dict(plain_entries(s)),
        _ => v,
    }
}

/// What is left of a list or a table.
pub open spec fn plain_list(s: Seq<Val>) -> Val
    decreases s,
{
    if byte_items(s) {
        Val::Bytes(Seq::new(s.len(), |i: int| val_byte(s[i])))
    } else {
        Val::List(
            Seq::new(
                s.len(),
                |i: int|
                    if 0 <= i < s.len() {
                        plain(s[i])
                    } else {
                        Val::Null
                    },
            ),
        )
    }
}

/// What is left of the entries of a map or an object.
pub open spec fn plain_entries(s: Seq<(Seq<char>, Val)>) -> Seq<(Seq<char>, Val)>
    decreases s,
{
    Seq::new(
        s.len(),
        |i: int|
            if 0 <= i < s.len() {
                (s[i].0, plain(s[i].1))
            } else {
                (Seq::empty(), Val::Null)
            },
    )
}

/// Entries in key order are collected as they are.
pub proof fn lemma_collected_ascending<V>(s: Seq<(Seq<char>, V)>)
    requires
        ascending(s),
    ensures
        collected(s) == s,
    decreases s.len(),
{
    if s.len() > 0 {
        let t = s.drop_last();
        assert(ascending(t)) by {
            assert forall|a: int, b: int| 0 <= a < b < t.len() implies text_lt(
                #[trigger] t[a].0,
                #[trigger] t[b].0,
            ) by {
                assert(t[a] == s[a] && t[b] == s[b]);
            }
        }
        lemma_collected_ascending(t);
        assert forall|i: int| 0 <= i < t.len() implies text_lt((#[trigger] t[i]).0, s.last().0) by {
            assert(t[i] == s[i] && s.last() == s[s.len() - 1]);
        }
        lemma_put_last(t, s.last().0, s.last().1);
        assert(t.push(s.last()) =~= s);
    }
}

/// Collected entries are in key order.
pub proof fn lemma_collected_order<V>(s: Seq<(Seq<char>, V)>)
    ensures
        ascending(collected(s)),
    decreases s.len(),
{
    if s.len() > 0 {
        lemma_collected_order(s.drop_last());
        lemma_put_ascending(collected(s.drop_last()), s.last().0, s.last().1);
    }
}

/// A value that was written as JSON is read back as its plain form.
pub proof fn lemma_value_round_trip(v: Val)
    requires
        orderly(v),
    ensures
        tree_val(val_tree(v)) == plain(v),
    decreases v, 1int,
{
    match v {
        Val::Bytes(b) => {
            let s = byte_trees(b);
            assert(byte_array(s));
            assert(Seq::new(s.len(), |i: int| tree_byte(s[i])) =~= b);
        },
        Val::List(s) => {
            lemma_items_round_trip(v, s);
        },
        Val::Table(s) => {
            lemma_items_round_trip(v, s);
        },
        Val::Dict(s) => {
            lemma_members_round_trip(v, s);
        },
        Val::Object(s) => {
            lemma_members_round_trip(v, s);
        },
        _ => {},
    }
}

proof fn lemma_items_round_trip(v: Val, s: Seq<Val>)
    requires
        orderly(v),
        v == Val::List(s) || v == Val::Table(s),
    ensures
        tree_val(val_tree(v)) == plain(v),
    decreases v, 0int,
{
    let t = val_tree(v)->Array_0;
    assert forall|i: int| 0 <= i < s.len() implies #[trigger] t[i] == val_tree(s[i]) && tree_val(
        t[i],
    ) == plain(s[i]) && byte_tree(t[i]) == byte_val(s[i]) && (byte_val(s[i]) ==> tree_byte(t[i])
        == val_byte(s[i])) by {
        assert(orderly(s[i]));
        lemma_value_round_trip(s[i]);
    }
    if byte_array(t) {
        assert forall|i: int| 0 <= i < s.len() implies byte_val(#[trigger] s[i]) by {
            assert(byte_tree(t[i]));
        }
        assert(tree_val(val_tree(v))->Bytes_0 =~= plain(v)->Bytes_0);
    } else {
        let k = choose|k: int| 0 <= k < t.len() && !byte_tree(#[trigger] t[k]);
        assert(!byte_val(s[k]));
        assert(tree_val(val_tree(v))->List_0 =~= plain(v)->List_0);
    }
}

proof fn lemma_members_round_trip(v: Val, s: Seq<(Seq<char>, Val)>)
    requires
        orderly(v),
        v == Val::Dict(s) || v == Val::Object(s),
    ensures
        tree_val(val_tree(v)) == plain(v),
    decreases v, 0int,
{
    let t = val_tree(v)->Object_0;
    assert forall|i: int| 0 <= i < s.len() implies (#[trigger] t[i]).0 == s[i].0 && tree_val(t[i].1)
        == plain(s[i].1) by {
        assert(orderly(s[i].1));
        lemma_value_round_trip(s[i].1);
    }
    let p = plain(v)->Dict_0;
    assert(entry_vals(t) =~= p);
    assert(ascending(p)) by {
        assert forall|a: int, b: int| 0 <= a < b < p.len() implies text_lt(
            #[trigger] p[a].0,
            #[trigger] p[b].0,
        ) by {
            assert(p[a].0 == s[a].0 && p[b].0 == s[b].0);
        }
    }
    lemma_collected_ascending(p);
}

/// The JSON value that a value is written as.
pub fn value_to_json(v: &Value) -> (r: Json)
    ensures
        json_tree(r) == val_tree(v@),
        orderly(v@),
    decreases v, 1int,
{
    match v {
        Value::Null => json_make(Node::Null),
        Value::Bool(b) => json_make(Node::Bool(*b)),
        Value::Int(i) => if *i >= 0 {
            json_make(Node::Unsigned(*i as u64))
        } else {
            json_make(Node::Negative(*i))
        },
        Value::Float(f) => json_make(Node::Float(f.text.clone())),
        Value::String(s) => json_make(Node::Text(s.clone())),
        Value::Bytes(b) => bytes_to_json(b),
        Value::List(l) => list_to_json(l),
        Value::Table(l) => list_to_json(l),
        Value::Dict(m) => dict_to_json(m),
        Value::Object(m) => dict_to_json(m),
    }
}

fn bytes_to_json(b: &Vec<u8>) -> (r: Json)
    ensures
        json_tree(r) == Tree::Array(byte_trees(b@)),
{
    let mut items: Vec<Json> = Vec::new();
    let mut k: usize = 0;
    while k < b.len()
        invariant
            k <= b@.len(),
            items@.len() == k,
            forall|i: int| 0 <= i < k ==> json_tree(#[trigger] items@[i]) == byte_trees(b@)[i],
        decreases b.len() - k,
    {
        items.push(json_make(Node::Unsigned(b[k] as u64)));
        k += 1;
    }
    assert(trees(items@) =~= byte_trees(b@));
    json_make(Node::Array(items))
}

fn list_to_json(l: &Vec<Value>) -> (r: Json)
    ensures
        json_tree(r) == Tree::Array(item_trees(list_view(*l))),
        forall|i: int| 0 <= i < list_view(*l).len() ==> orderly(#[trigger] list_view(*l)[i]),
    decreases l, 0int,
{
    let ghost s = list_view(*l);
    let mut items: Vec<Json> = Vec::new();
    let mut k: usize = 0;
    while k < l.len()
        invariant
            k <= l@.len(),
            items@.len() == k,
            s == list_view(*l),
            forall|i: int|
                0 <= i < k ==> json_tree(#[trigger] items@[i]) == item_trees(s)[i],
            forall|i: int| 0 <= i < k ==> orderly(#[trigger] s[i]),
        decreases l.len() - k,
    {
        let item = value_to_json(&l[k]);
        assert(s[k as int] == l@[k as int].view());
        items.push(item);
        k += 1;
    }
    assert(trees(items@) =~= item_trees(s));
    json_make(Node::Array(items))
}

fn dict_to_json(m: &StrMap<Value>) -> (r: Json)
    ensures
        json_tree(r) == Tree::Object(entry_trees(dict_view(*m))),
        ascending(dict_view(*m)),
        forall|i: int| 0 <= i < dict_view(*m).len() ==> orderly((#[trigger] dict_view(*m)[i]).1),
    decreases m, 0int,
{
    let ghost s = dict_view(*m);
    m.check_order();
    proof {
        m.lemma_pairs();
        lemma_dict_view(*m);
        lemma_pair_vals_ascending(m.pairs());
    }
    let mut members: Vec<(String, Json)> = Vec::new();
    let mut k: usize = 0;
    while k < m.entries.len()
        invariant
            k <= m.entries@.len(),
            members@.len() == k,
            s == dict_view(*m),
            s == pair_vals(m.pairs()),
            m.pairs() == listing(m.entries@),
            forall|i: int|
                0 <= i < k ==> (#[trigger] members@[i]).0@ == s[i].0 && json_tree(members@[i].1)
                    == entry_trees(s)[i].1,
            forall|i: int| 0 <= i < k ==> orderly((#[trigger] s[i]).1),
        decreases m.entries.len() - k,
    {
        let (key, value) = &m.entries[k];
        let item = value_to_json(value);
        assert(s[k as int] == (key@, value.view()));
        members.push((key.clone(), item));
        k += 1;
    }
    assert(member_trees(members@) =~= entry_trees(s));
    proof {
        lemma_ascending_distinct(s);
        assert(distinct_names(member_trees(members@))) by {
            assert forall|i: int, j: int| 0 <= i < j < s.len() implies (#[trigger] entry_trees(
                s,
            )[i]).0 != (#[trigger] entry_trees(s)[j]).0 by {
                assert(s[i].0 != s[j].0);
            }
        }
    }
    json_make(Node::Object(members))
}

/// No key occurs twice among ascending keys.
pub proof fn lemma_ascending_distinct<V>(s: Seq<(Seq<char>, V)>)
    requires
        ascending(s),
    ensures
        distinct_names(s),
{
    assert forall|i: int, j: int| 0 <= i < j < s.len() implies (#[trigger] s[i]).0 != (
    #[trigger] s[j]).0 by {
        assert(text_lt(s[i].0, s[j].0));
        lemma_text_lt_irreflexive(s[i].0);
    }
}

proof fn lemma_pair_vals_ascending(s: Seq<(Seq<char>, Value)>)
    requires
        ascending(s),
    ensures
        ascending(pair_vals(s)),
{
    let p = pair_vals(s);
    assert forall|a: int, b: int| 0 <= a < b < p.len() implies text_lt(
        #[trigger] p[a].0,
        #[trigger] p[b].0,
    ) by {
        assert(p[a].0 == s[a].0 && p[b].0 == s[b].0);
    }
}

/// The value that a JSON value is read as.
pub fn value_from_json(j: Json) -> (r: Value)
    ensures
        r@ == tree_val(json_tree(j)),
        byte_val(r@) == byte_tree(json_tree(j)),
    decreases json_tree(j), 1int,
{
    match json_open(j) {
        Node::Null => Value::Null,
        Node::Bool(b) => Value::Bool(b),
        Node::Unsigned(u) => if u <= i64::MAX as u64 {
            Value::Int(u as i64)
        } else {
            Value::Float(Float { text: wide_number(u) })
        },
        Node::Negative(i) => Value::Int(i),
        Node::Float(x) => Value::Float(Float { text: x }),
        Node::Text(s) => Value::String(s),
        Node::Array(items) => array_from_json(items),
        Node::Object(members) => object_from_json(members),
    }
}

fn array_from_json(items: Vec<Json>) -> (r: Value)
    ensures
        r@ == tree_val(Tree::Array(trees(items@))),
    decreases trees(items@), 0int,
{
    let ghost s = trees(items@);
    let mut list: Vec<Value> = Vec::new();
    let mut bytes: Vec<u8> = Vec::new();
    let mut all_bytes: bool = true;
    for j in it: items.into_iter()
        invariant
            it.seq() == items@,
            s == trees(items@),
            list@.len() == it.index(),
            forall|i: int| 0 <= i < list@.len() ==> (#[trigger] list@[i]).view() == tree_val(s[i]),
            all_bytes == (forall|i: int| 0 <= i < it.index() ==> byte_tree(#[trigger] s[i])),
            all_bytes ==> bytes@ == Seq::new(it.index() as nat, |i: int| tree_byte(s[i])),
    {
        let ghost k = it.index();
        assert(json_tree(j) == s[k]);
        assert(decreases_to!(s => s[k]));
        let value = value_from_json(j);
        match value {
            Value::Int(b) if 0 <= b && b <= 255 => {
                bytes.push(b as u8);
                assert(tree_byte(s[k]) == b as u8);
            },
            _ => {
                assert(!byte_tree(s[k]));
                all_bytes = false;
            },
        }
        list.push(value);
        assert(all_bytes ==> bytes@ =~= Seq::new((k + 1) as nat, |i: int| tree_byte(s[i])));
    }
    if all_bytes {
        assert(byte_array(s));
        Value::Bytes(bytes)
    } else {
        assert(!byte_array(s));
        assert(list_view(list) =~= item_vals(s));
        Value::List(list)
    }
}

fn object_from_json(members: Vec<(String, Json)>) -> (r: Value)
    ensures
        r@ == tree_val(Tree::Object(member_trees(members@))),
    decreases member_trees(members@), 0int,
{
    let ghost s = member_trees(members@);
    let ghost e = entry_vals(s);
    let mut map: StrMap<Value> = StrMap::new();
    assert(e.take(0) =~= Seq::<(Seq<char>, Val)>::empty());
    assert(pair_vals(map.pairs()) =~= collected(e.take(0)));
    for member in it: members.into_iter()
        invariant
            it.seq() == members@,
            s == member_trees(members@),
            e == entry_vals(s),
            pair_vals(map.pairs()) == collected(e.take(it.index() as int)),
    {
        let ghost k = it.index() as int;
        let (name, j) = member;
        assert(json_tree(j) == s[k].1 && name@ == s[k].0);
        assert(decreases_to!(s => s[k]));
        assert(decreases_to!(s[k] => s[k].1));
        let value = value_from_json(j);
        proof {
            lemma_pair_vals_put(map.pairs(), name@, value);
            assert(e.take(k + 1).drop_last() =~= e.take(k));
            assert(e.take(k + 1).last() == e[k]);
        }
        map.insert(name, value);
    }
    assert(e.take(e.len() as int) =~= e);
    proof {
        lemma_dict_view(map);
    }
    Value::Dict(map)
}

/// The text of the finite number that a text reads as, without a fraction, if it reads as one.
pub uninterp spec fn fixed_text(text: Seq<char>) -> Option<Seq<char>>;

/// `format!` of a finite floating-point number with no digits after the point.
#[verifier::external_body]
fn fixed_number(text: &str) -> (r: Option<String>)
    ensures
        match r {
            Some(s) => fixed_text(text@) == Some(s@),
            None => fixed_text(text@) is None,
        },
{
    let number = text.parse().ok().and_then(serde_json::Number::from_f64)?.as_f64()?;
    Some(format!("{:.0}", number))
}

/// The text by which a value serves as an identifier.
pub open spec fn id_text(v: Val) -> Seq<char> {
    match v {
        Val::Text(s) => s,
        Val::Int(i) => signed_numeral(i as int),
        Val::Float(t) => match (occurs(t, "."@), fixed_text(t)) {
            (false, Some(s)) => s,
            _ => t,
        },
        Val::Bool(b) => if b {
            "true"@
        } else {
            "false"@
        },
        Val::Bytes(b) => "bytes:"@ + hex(b),
        Val::Null => "null"@,
        _ => json_text(val_tree(v)),
    }
}

impl Value {
    /// The text by which the value serves as an identifier.
    pub fn normalize_to_id_string(&self) -> (r: String)
        ensures
            r@ == id_text(self@),
    {
        match self {
            Value::String(s) => s.clone(),
            Value::Int(i) => signed_text(*i),
            Value::Float(f) => {
                if !contains_text(f.text.as_str(), ".") {
                    match fixed_number(f.text.as_str()) {
                        Some(s) => s,
                        None => f.text.clone(),
                    }
                } else {
                    f.text.clone()
                }
            },
            Value::Bool(b) => if *b {
                "true".to_owned()
            } else {
                "false".to_owned()
            },
            Value::Bytes(bytes) => cat("bytes:", hex_text(bytes.as_slice()).as_str()),
            Value::Null => "null".to_owned(),
            _ => json_show(&value_to_json(self)),
        }
    }
}

/// The compact JSON text of a value.
pub fn json_of_value(v: &Value) -> (r: String)
    ensures
        r@ == json_text(val_tree(v@)),
{
    json_show(&value_to_json(v))
}

/// The value that a JSON text holds, if it is one.
pub fn value_of_json(text: &str) -> (r: Option<Value>)
    ensures
        match r {
            Some(v) => json_parse(encode_utf8(text@)) matches Parsed::Document(t) && v@ == tree_val(
                t,
            ),
            None => json_parse(encode_utf8(text@)) is Fault,
        },
{
    match json_read(text.as_bytes()) {
        Ok(j) => Some(value_from_json(j)),
        Err(_) => None,
    }
}

/// The form of a value as JSON: nothing as null, truth values, integers and texts as themselves, bytes
/// as the array of their numbers, a list or a table as the array of its items, and a map as an object
/// with the same names.
pub proof fn lemma_value_form(v: Val)
    ensures
        v is Null ==> val_tree(v) == Tree::Null,
        v matches Val::Bool(b) ==> val_tree(v) == Tree::Bool(b),
        v matches Val::Int(i) ==> match val_tree(v) {
            Tree::Unsigned(u) => i >= 0 && u == i,
            Tree::Negative(n) => i < 0 && n == i,
            _ => false,
        },
        v matches Val::Text(s) ==> val_tree(v) == Tree::Text(s),
        v matches Val::Bytes(b) ==> (val_tree(v) matches Tree::Array(a) && a.len() == b.len() && forall|
            i: int,
        |
            0 <= i < b.len() ==> #[trigger] a[i] == Tree::Unsigned(b[i] as u64)),
        v matches Val::List(s) ==> (val_tree(v) matches Tree::Array(a) && a.len() == s.len() && forall|
            i: int,
        |
            0 <= i < s.len() ==> #[trigger] a[i] == val_tree(s[i])),
        v matches Val::Table(s) ==> val_tree(v) == val_tree(Val::List(s)),
        v matches Val::Dict(s) ==> (val_tree(v) matches Tree::Object(m) && m.len() == s.len() && forall|
            i: int,
        |
            0 <= i < s.len() ==> (#[trigger] m[i]).0 == s[i].0 && m[i].1 == val_tree(s[i].1)),
        v matches Val::Object(s) ==> val_tree(v) == val_tree(Val::Dict(s)),
{
}

proof fn lemma_collected_last<V>(s: Seq<(Seq<char>, V)>, i: int)
    requires
        0 <= i < s.len(),
        forall|j: int| i < j < s.len() ==> (#[trigger] s[j]).0 != s[i].0,
    ensures
        lookup(collected(s), s[i].0) == Some(s[i].1),
    decreases s.len(),
{
    let front = s.drop_last();
    lemma_put_lookup(collected(front), s.last().0, s.last().1, s[i].0);
    if i < s.len() - 1 {
        assert(s[s.len() - 1].0 != s[i].0);
        assert(front[i] == s[i]);
        assert forall|j: int| i < j < front.len() implies (#[trigger] front[j]).0 != front[i].0 by {
            assert(front[j] == s[j]);
        }
        lemma_collected_last(front, i);
    }
}

proof fn lemma_collected_none<V>(s: Seq<(Seq<char>, V)>, key: Seq<char>)
    requires
        forall|j: int| 0 <= j < s.len() ==> (#[trigger] s[j]).0 != key,
    ensures
        lookup(collected(s), key) is None,
    decreases s.len(),
{
    if s.len() > 0 {
        let front = s.drop_last();
        assert(s[s.len() - 1].0 != key);
        lemma_put_lookup(collected(front), s.last().0, s.last().1, key);
        assert forall|j: int| 0 <= j < front.len() implies (#[trigger] front[j]).0 != key by {
            assert(front[j] == s[j]);
        }
        lemma_collected_none(front, key);
    }
}

/// The value that a JSON document stands for: null, truth values, integers of 64 bits and texts stand
/// for themselves, an array of numbers up to 255 for bytes, and any other for the list of what its
/// items stand for.
pub proof fn lemma_document_value(t: Tree)
    ensures
        t is Null ==> tree_val(t) == Val::Null,
        t matches Tree::Bool(b) ==> tree_val(t) == Val::Bool(b),
        t matches Tree::Unsigned(u) ==> (u <= i64::MAX ==> (tree_val(t) matches Val::Int(i) && i == u)),
        t matches Tree::Negative(n) ==> tree_val(t) == Val::Int(n),
        t matches Tree::Float(x) ==> tree_val(t) == Val::Float(x),
        t matches Tree::Text(s) ==> tree_val(t) == Val::Text(s),
        t matches Tree::Array(a) ==> match tree_val(t) {
            Val::Bytes(b) => b.len() == a.len() && forall|i: int|
                0 <= i < a.len() ==> #[trigger] a[i] == Tree::Unsigned(b[i] as u64),
            Val::List(s) => s.len() == a.len() && (forall|i: int|
                0 <= i < a.len() ==> #[trigger] s[i] == tree_val(a[i])) && exists|i: int|
                0 <= i < a.len() && !(#[trigger] a[i] matches Tree::Unsigned(u) && u <= 255),
            _ => false,
        },
        t is Object ==> tree_val(t) is Dict,
{
    if let Tree::Array(a) = t {
        if byte_array(a) {
            let b = Seq::new(a.len(), |i: int| tree_byte(a[i]));
            assert forall|i: int| 0 <= i < a.len() implies #[trigger] a[i] == Tree::Unsigned(
                b[i] as u64,
            ) by {
                assert(byte_tree(a[i]));
            }
        } else {
            let i = choose|i: int| 0 <= i < a.len() && !byte_tree(#[trigger] a[i]);
            assert(!(a[i] matches Tree::Unsigned(u) && u <= 255));
            assert forall|i: int| 0 <= i < a.len() implies #[trigger] item_vals(a)[i] == tree_val(
                a[i],
            ) by {}
        }
    }
}

/// The map that an object stands for holds under each name what the last member of that name stands
/// for, and nothing under other names.
pub proof fn lemma_object_value(m: Seq<(Seq<char>, Tree)>, key: Seq<char>, i: int)
    requires
        (0 <= i < m.len() && m[i].0 == key && forall|j: int|
            i < j < m.len() ==> (#[trigger] m[j]).0 != key) || (forall|j: int|
            0 <= j < m.len() ==> (#[trigger] m[j]).0 != key),
    ensures
        tree_val(Tree::Object(m)) matches Val::Dict(s) && ascending(s) && lookup(s, key) == if exists|
            j: int,
        |
            0 <= j < m.len() && (#[trigger] m[j]).0 == key {
            Some(tree_val(m[i].1))
        } else {
            None
        },
{
    let s = entry_vals(m);
    assert forall|j: int| 0 <= j < m.len() implies #[trigger] s[j] == (m[j].0, tree_val(m[j].1)) by {}
    lemma_collected_order(s);
    if exists|j: int| 0 <= j < m.len() && (#[trigger] m[j]).0 == key {
        assert forall|j: int| i < j < s.len() implies (#[trigger] s[j]).0 != s[i].0 by {
            assert(m[j].0 != key);
        }
        lemma_collected_last(s, i);
    } else {
        assert forall|j: int| 0 <= j < s.len() implies (#[trigger] s[j]).0 != key by {
            assert(m[j].0 != key);
        }
        lemma_collected_none(s, key);
    }
}

/// Whether a value is one that JSON can tell from all others: it holds no floating-point number, no
/// table and no object, and no list that could be one of bytes.
pub open spec fn plain_kind(v: Val) -> bool
    decreases v,
{
    match v {
        Val::Float(_) => false,
        Val::Table(_) => false,
        Val::Object(_) => false,
        Val::List(s) => (exists|i: int|
            0 <= i < s.len() && !(#[trigger] s[i] matches Val::Int(n) && 0 <= n <= 255)) && forall|i: int|
            0 <= i < s.len() ==> plain_kind(#[trigger] s[i]),
        Val::Dict(s) => ascending(s) && forall|i: int|
            0 <= i < s.len() ==> plain_kind((#[trigger] s[i]).1),
        _ => true,
    }
}

/// Such a value is the same once it was written as JSON and read back.
pub proof fn lemma_plain_kind_kept(v: Val)
    requires
        plain_kind(v),
    ensures
        orderly(v),
        plain(v) == v,
        tree_val(val_tree(v)) == v,
    decreases v,
{
    match v {
        Val::List(s) => {
            assert forall|i: int| 0 <= i < s.len() implies orderly(#[trigger] s[i]) && plain(s[i])
                == s[i] by {
                lemma_plain_kind_kept(s[i]);
            }
            let i = choose|i: int|
                0 <= i < s.len() && !(#[trigger] s[i] matches Val::Int(n) && 0 <= n <= 255);
            assert(!byte_val(s[i]));
            assert(plain(v)->List_0 =~= s);
        },
        Val::Dict(s) => {
            assert forall|i: int| 0 <= i < s.len() implies orderly((#[trigger] s[i]).1) && plain(
                s[i].1,
            ) == s[i].1 by {
                lemma_plain_kind_kept(s[i].1);
            }
            assert(plain(v)->Dict_0 =~= s);
        },
        _ => {},
    }
    lemma_value_round_trip(v);
}

/// What is left of the other kinds of values: a table comes back as a list, an object as a map, and a
/// list of small numbers as bytes.
pub proof fn lemma_other_kinds_kept(s: Seq<Val>, m: Seq<(Seq<char>, Val)>)
    ensures
        plain(Val::Table(s)) == plain(Val::List(s)),
        plain(Val::Object(m)) == plain(Val::Dict(m)),
        (forall|i: int| 0 <= i < s.len() ==> (#[trigger] s[i] matches Val::Int(n) && 0 <= n <= 255)) ==> (
        plain(Val::List(s)) matches Val::Bytes(b) && b.len() == s.len() && forall|i: int|
            0 <= i < s.len() ==> #[trigger] s[i] == Val::Int(b[i] as i64)),
        plain(Val::Dict(m)) matches Val::Dict(p) && p.len() == m.len() && forall|i: int|
            0 <= i < m.len() ==> (#[trigger] p[i]).0 == m[i].0 && p[i].1 == plain(m[i].1),
{
    if forall|i: int| 0 <= i < s.len() ==> (#[trigger] s[i] matches Val::Int(n) && 0 <= n <= 255) {
        assert forall|i: int| 0 <= i < s.len() implies byte_val(#[trigger] s[i]) by {}
        let b = Seq::new(s.len(), |i: int| val_byte(s[i]));
        assert(plain(Val::List(s)) == Val::Bytes(b));
        assert forall|i: int| 0 <= i < s.len() implies #[trigger] s[i] == Val::Int(b[i] as i64) by {
            assert(byte_val(s[i]));
        }
    }
}

/// A value serves as an identifier by its text, a numeral of it, the word for it, or its bytes in
/// hexadecimal digits, from which it can be read again.
pub proof fn lemma_identifiers(v: Val)
    ensures
        v matches Val::Text(s) ==> id_text(v) == s,
        v matches Val::Int(i) ==> signed_value(id_text(v)) == Some(i as int),
        v matches Val::Bool(b) ==> (id_text(v) == "true"@ <==> b) && (id_text(v) == "false"@ <==> !b),
        v is Null ==> id_text(v) == "null"@,
        v matches Val::Bytes(b) ==> id_text(v).len() == 6 + 2 * b.len() && id_text(v).take(6) == "bytes:"@
            && forall|i: int|
            0 <= i < b.len() ==> #[trigger] b[i] == 16 * hex_value(id_text(v)[6 + 2 * i]) + hex_value(
                id_text(v)[7 + 2 * i],
            ),
        v matches Val::Float(t) ==> (occurs(t, "."@) ==> id_text(v) == t),
        v is List || v is Table || v is Dict || v is Object ==> id_text(v) == json_text(val_tree(v)),
{
    reveal_strlit("true");
    reveal_strlit("false");
    reveal_strlit("bytes:");
    assert("true"@.len() == 4 && "false"@.len() == 5);
    match v {
        Val::Int(i) => {
            lemma_signed_numeral_read(i as int);
        },
        Val::Bytes(b) => {
            lemma_hex_read(b);
            let s = id_text(v);
            assert(s.take(6) =~= "bytes:"@);
            assert forall|i: int| 0 <= i < b.len() implies #[trigger] b[i] == 16 * hex_value(
                s[6 + 2 * i],
            ) + hex_value(s[7 + 2 * i]) by {
                assert(s[6 + 2 * i] == hex(b)[2 * i]);
                assert(s[7 + 2 * i] == hex(b)[2 * i + 1]);
            }
        },
        _ => {},
    }
}

} // verus!
