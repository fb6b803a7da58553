//! A store of runs, entries and edges, all kept as JSON documents under text keys.

use crate::json::{
    exact, json_read, json_text, json_write, val_tree, value_from_json, value_to_json, Parsed,
    Tree, MAX_JSON_DEPTH,
};
use crate::json::{json_distinct, json_parse, lemma_value_round_trip, orderly, plain, tree_val};
use crate::record::{
    lemma_run_round_trip, plain_run, run_rec_orderly, run_reads_back, run_times_common,
    run_to_json, run_tree, MetaRec, RunMetadata, RunRec, RunRecord,
};
use crate::runtext::run_of_bytes;
use crate::runtext::{holds_run, run_bytes};
use crate::strmap::{
    ascending, lemma_map_ascending, lemma_map_lookup, lemma_map_put, lemma_map_without,
    lemma_lookup_at, lemma_lookup_found, lemma_put_lookup, lemma_without_lookup, lookup,
    map_values, put, without, StrMap,
};
use crate::text::{begins_with, stripped, texts};
use crate::text::{cat, cat3, holds_text, same_text, starts_with};
use crate::value::{list_view, vals, Val, Value};
use vstd::prelude::*;
use vstd::utf8::encode_utf8;

verus! {

/// Why the store could not do what it was asked to.
#[derive(Debug)]
pub enum StoreError {
    /// What is stored, or was to be stored, is not of the form that was asked for.
    Serialization(String),
    /// The storage itself failed.
    Storage(String),
}

/// What is said of a failure.
pub open spec fn store_message(e: StoreError) -> Seq<char> {
    match e {
        StoreError::Serialization(s) => "serialization failed: "@ + s@,
        StoreError::Storage(s) => "storage failed: "@ + s@,
    }
}

impl StoreError {
    /// The message for the user.
    pub fn message(&self) -> (r: String)
        ensures
            r@ == store_message(*self),
    {
        match self {
            StoreError::Serialization(s) => cat("serialization failed: ", s.as_str()),
            StoreError::Storage(s) => cat("storage failed: ", s.as_str()),
        }
    }
}

/// Stored documents by key.
pub type Contents = Seq<(Seq<char>, Seq<u8>)>;

/// The key of an edge.
pub open spec fn edge_key(edge_type: Seq<char>, edge_id: Seq<char>) -> Seq<char> {
    "edge:"@ + edge_type + ":"@ + edge_id
}

/// The key of the index of a vertex.
pub open spec fn vertex_key(target: Seq<char>) -> Seq<char> {
    "vertex_idx:"@ + target
}

/// The bytes that a document is stored as.
pub open spec fn stored(t: Tree) -> Seq<u8> {
    encode_utf8(json_text(t))
}

/// Whether a stored document is read back as it was, and none of its objects names a member twice.
pub open spec fn reads_back(t: Tree) -> bool {
    json_parse(stored(t)) == Parsed::Document(t) && json_distinct(stored(t))
}

/// The documents that texts are written as.
pub open spec fn text_trees(s: Seq<Seq<char>>) -> Tree {
    Tree::Array(Seq::new(s.len(), |i: int| Tree::Text(s[i])))
}

/// The texts among items.
pub open spec fn text_items(s: Seq<Val>) -> Seq<Seq<char>>
    decreases s.len(),
{
    if s.len() == 0 {
        Seq::empty()
    } else {
        let rest = text_items(s.drop_last());
        match s.last() {
            Val::Text(t) => rest.push(t),
            _ => rest,
        }
    }
}

/// The texts that a value lists.
pub open spec fn listed(v: Val) -> Seq<Seq<char>> {
    match v {
        Val::List(s) => text_items(s),
        Val::Table(s) => text_items(s),
        _ => Seq::empty(),
    }
}

/// The texts that stored bytes list; none where they are not JSON.
pub open spec fn listed_in(b: Seq<u8>) -> Seq<Seq<char>> {
    match json_parse(b) {
        Parsed::Document(t) => listed(tree_val(t)),
        Parsed::Fault(_) => Seq::empty(),
    }
}

/// The texts that are listed under a key.
pub open spec fn refs_at(c: Contents, key: Seq<char>) -> Seq<Seq<char>> {
    match lookup(c, key) {
        Some(b) => listed_in(b),
        None => Seq::empty(),
    }
}

/// Whether exactly these texts are listed under a key, and read back from there.
pub open spec fn holds(c: Contents, key: Seq<char>, refs: Seq<Seq<char>>) -> bool {
    lookup(c, key) == Some(stored(text_trees(refs))) && reads_back(text_trees(refs))
}

/// The texts with `e` among them, at the end if it was not among them.
pub open spec fn linked(refs: Seq<Seq<char>>, e: Seq<char>) -> Seq<Seq<char>> {
    if refs.contains(e) {
        refs
    } else {
        refs.push(e)
    }
}

/// The texts that are not `e`.
pub open spec fn unlinked(refs: Seq<Seq<char>>, e: Seq<char>) -> Seq<Seq<char>>
    decreases refs.len(),
{
    if refs.len() == 0 {
        refs
    } else {
        let rest = unlinked(refs.drop_last(), e);
        if refs.last() == e {
            rest
        } else {
            rest.push(refs.last())
        }
    }
}

/// Whether what is stored under a key is JSON.
pub open spec fn is_json_at(c: Contents, key: Seq<char>) -> bool {
    lookup(c, key) matches Some(b) && json_parse(b) is Document
}

/// Whether `e` was taken from the list under a key. A list that is left empty is removed; what is
/// not JSON is left alone.
pub open spec fn unlinked_at(before: Contents, after: Contents, key: Seq<char>, e: Seq<char>) -> bool {
    if is_json_at(before, key) {
        let refs = unlinked(refs_at(before, key), e);
        if refs.len() == 0 {
            lookup(after, key) is None
        } else {
            holds(after, key, refs)
        }
    } else {
        lookup(after, key) == lookup(before, key)
    }
}

/// Whether the key is that of the index of one of the vertices.
pub open spec fn is_index_of(key: Seq<char>, targets: Seq<Seq<char>>) -> bool {
    exists|i: int| 0 <= i < targets.len() && key == vertex_key(#[trigger] targets[i])
}

/// Whether an edge was set: its targets are listed under its key, each target's index lists the
/// edge, the index of each earlier target that is a target no more lists it no more, and nothing
/// else changed.
pub open spec fn edge_set(
    before: Contents,
    after: Contents,
    e: Seq<char>,
    targets: Seq<Seq<char>>,
) -> bool {
    &&& holds(after, e, targets)
    &&& forall|k: Seq<char>|
        k != e ==> #[trigger] key_after_set(before, after, e, targets, k)
}

/// What setting an edge does to a key other than its own.
pub open spec fn key_after_set(
    before: Contents,
    after: Contents,
    e: Seq<char>,
    targets: Seq<Seq<char>>,
    k: Seq<char>,
) -> bool {
    if is_index_of(k, targets) {
        holds(after, k, linked(refs_at(before, k), e))
    } else if is_index_of(k, refs_at(before, e)) {
        unlinked_at(before, after, k, e)
    } else {
        lookup(after, k) == lookup(before, k)
    }
}

/// Whether an edge was removed: nothing is stored under its key, the index of each of its targets
/// lists it no more, and nothing else changed.
pub open spec fn edge_removed(before: Contents, after: Contents, e: Seq<char>) -> bool {
    &&& lookup(after, e) is None
    &&& forall|k: Seq<char>| k != e ==> #[trigger] key_after_removal(before, after, e, k)
}

/// What removing an edge does to a key other than its own.
pub open spec fn key_after_removal(
    before: Contents,
    after: Contents,
    e: Seq<char>,
    k: Seq<char>,
) -> bool {
    if is_index_of(k, refs_at(before, e)) {
        unlinked_at(before, after, k, e)
    } else {
        lookup(after, k) == lookup(before, k)
    }
}

/// A key inside of scopes, the outermost first.
pub open spec fn scoped(scopes: Seq<Seq<char>>, key: Seq<char>) -> Seq<char>
    decreases scopes.len(),
{
    if scopes.len() == 0 {
        key
    } else {
        scoped(scopes.drop_last(), scopes.last() + key)
    }
}

/// A text without the names of the scopes that it begins with, taken off from the outermost in.
pub open spec fn unscoped(scopes: Seq<Seq<char>>, text: Seq<char>) -> Seq<char>
    decreases scopes.len(),
{
    if scopes.len() == 0 {
        text
    } else {
        stripped(unscoped(scopes.drop_last(), text), scopes.last())
    }
}

/// Each key inside of scopes.
pub open spec fn all_scoped(scopes: Seq<Seq<char>>, keys: Seq<Seq<char>>) -> Seq<Seq<char>> {
    Seq::new(keys.len(), |i: int| scoped(scopes, keys[i]))
}

/// Each text without the names of the scopes.
pub open spec fn all_unscoped(scopes: Seq<Seq<char>>, keys: Seq<Seq<char>>) -> Seq<Seq<char>> {
    Seq::new(keys.len(), |i: int| unscoped(scopes, keys[i]))
}

/// The entries whose keys begin with a prefix.
pub open spec fn hits(c: Contents, prefix: Seq<char>) -> Contents
    decreases c.len(),
{
    if c.len() == 0 {
        c
    } else {
        let rest = hits(c.drop_last(), prefix);
        if begins_with(c.last().0, prefix) {
            rest.push(c.last())
        } else {
            rest
        }
    }
}

/// The entries after the first `offset`, at most `limit` of them.
pub open spec fn page(c: Contents, limit: nat, offset: nat) -> Contents {
    if offset >= c.len() {
        Seq::empty()
    } else if c.len() - offset <= limit {
        c.skip(offset as int)
    } else {
        c.skip(offset as int).take(limit as int)
    }
}

/// Whether the value is the one that the bytes hold.
pub open spec fn holds_value(b: Seq<u8>, v: Val) -> bool {
    json_parse(b) matches Parsed::Document(t) && v == tree_val(t)
}

/// Whether the metadata is that of the record that the bytes hold.
pub open spec fn holds_meta(b: Seq<u8>, d: MetaRec) -> bool {
    exists|r: RunRec| #[trigger] holds_run(b, r) && r.metadata == d
}

/// Whether the bytes hold no record of a run. Of bytes that are not even JSON, the message says why.
pub open spec fn not_a_run(b: Seq<u8>, message: Seq<char>) -> bool {
    !run_bytes(b) && (json_parse(b) matches Parsed::Fault(e) ==> message == e)
}

/// Whether one of the documents is not that of a run, and the message is the one for the first.
pub open spec fn first_other(c: Contents, message: Seq<char>) -> bool {
    exists|i: int|
        0 <= i < c.len() && not_a_run((#[trigger] c[i]).1, message) && all_runs(c.take(i))
}

/// Whether every document is that of a run.
pub open spec fn all_runs(c: Contents) -> bool {
    forall|i: int| 0 <= i < c.len() ==> run_bytes((#[trigger] c[i]).1)
}

/// Whether one of the documents is not JSON, and the message is the one for the first.
pub open spec fn first_fault(c: Contents, message: Seq<char>) -> bool {
    exists|i: int|
        0 <= i < c.len() && json_parse((#[trigger] c[i]).1) == Parsed::Fault(message) && all_json(
            c.take(i),
        )
}

/// Whether every document is JSON.
pub open spec fn all_json(c: Contents) -> bool {
    forall|i: int| 0 <= i < c.len() ==> json_parse((#[trigger] c[i]).1) is Document
}

/// Runs, entries and edges under text keys.
///
/// A store may be a part of another: then the keys of its entries and edges stand in the scopes
/// that it has there. Runs are shared by all scopes.
pub trait Store: Sized {
    /// Everything that is stored, in key order.
    spec fn contents(&self) -> Contents;

    /// The scopes of this store, the outermost first.
    spec fn scopes(&self) -> Seq<Seq<char>>;

    /// Whether the storage never fails.
    spec fn infallible(&self) -> bool;

    /// Stores a run under its identifier.
    fn put_run(&mut self, record: RunRecord) -> (r: Result<(), StoreError>)
        requires
            record.metadata.duration_ms <= u64::MAX,
        ensures
            final(self).scopes() == old(self).scopes(),
            final(self).infallible() == old(self).infallible(),
            match r {
                Ok(_) => {
                    &&& final(self).contents() == put(
                        old(self).contents(),
                        record@.metadata.run_id,
                        stored(run_tree(record@)),
                    )
                    &&& exact(run_tree(record@), MAX_JSON_DEPTH as nat) ==> reads_back(
                        run_tree(record@),
                    )
                    &&& run_rec_orderly(record@)
                    &&& run_times_common(record@) ==> run_reads_back(record@)
                },
                Err(e) => e is Storage && !old(self).infallible(),
            },
    ;

    /// The run with that identifier, if there is one.
    fn get_run(&self, run_id: &str) -> (r: Result<Option<RunRecord>, StoreError>)
        ensures
            match r {
                Ok(None) => lookup(self.contents(), run_id@) is None,
                Ok(Some(record)) => lookup(self.contents(), run_id@) matches Some(b) && holds_run(
                    b,
                    record@,
                ),
                Err(StoreError::Serialization(s)) => lookup(self.contents(), run_id@) matches Some(
                    b,
                ) && not_a_run(b, s@),
                Err(StoreError::Storage(_)) => !self.infallible(),
            },
    ;

    /// The metadata of all runs, in the order of their identifiers. Everything that is stored must
    /// be a run.
    fn list_runs(&self) -> (r: Result<Vec<RunMetadata>, StoreError>)
        ensures
            match r {
                Ok(list) => ascending(self.contents()) && list@.len() == self.contents().len()
                    && forall|i: int|
                    0 <= i < list@.len() ==> holds_meta(
                        (#[trigger] self.contents()[i]).1,
                        list@[i]@,
                    ),
                Err(StoreError::Serialization(s)) => first_other(self.contents(), s@),
                Err(StoreError::Storage(_)) => !self.infallible(),
            },
    ;

    /// Stores a value under a key.
    fn put_entry(&mut self, key: &str, value: Value) -> (r: Result<(), StoreError>)
        ensures
            final(self).scopes() == old(self).scopes(),
            final(self).infallible() == old(self).infallible(),
            match r {
                Ok(_) => {
                    &&& final(self).contents() == put(
                        old(self).contents(),
                        scoped(old(self).scopes(), key@),
                        stored(val_tree(value@)),
                    )
                    &&& exact(val_tree(value@), MAX_JSON_DEPTH as nat) ==> reads_back(
                        val_tree(value@),
                    )
                    &&& orderly(value@)
                },
                Err(e) => e is Storage && !old(self).infallible(),
            },
    ;

    /// The value under a key, if there is one.
    fn get_entry(&self, key: &str) -> (r: Result<Option<Value>, StoreError>)
        ensures
            match r {
                Ok(None) => lookup(self.contents(), scoped(self.scopes(), key@)) is None,
                Ok(Some(value)) => lookup(
                    self.contents(),
                    scoped(self.scopes(), key@),
                ) matches Some(b) && holds_value(b, value@),
                Err(StoreError::Serialization(s)) => lookup(
                    self.contents(),
                    scoped(self.scopes(), key@),
                ) matches Some(b) && json_parse(b) == Parsed::Fault(s@),
                Err(StoreError::Storage(_)) => !self.infallible(),
            },
    ;

    /// Removes what is stored under a key.
    fn delete_entry(&mut self, key: &str) -> (r: Result<(), StoreError>)
        ensures
            final(self).scopes() == old(self).scopes(),
            final(self).infallible() == old(self).infallible(),
            match r {
                Ok(_) => ascending(old(self).contents()) && final(self).contents() == without(
                    old(self).contents(),
                    scoped(old(self).scopes(), key@),
                ),
                Err(e) => e is Storage && !old(self).infallible(),
            },
    ;

    /// Sets the targets of an edge, and keeps the indexes of the vertices in step.
    fn put_edge(&mut self, edge_type: &str, edge_id: &str, targets: &Vec<String>) -> (r: Result<
        (),
        StoreError,
    >)
        ensures
            final(self).scopes() == old(self).scopes(),
            final(self).infallible() == old(self).infallible(),
            match r {
                Ok(_) => ascending(final(self).contents()) && edge_set(
                    old(self).contents(),
                    final(self).contents(),
                    edge_key(scoped(old(self).scopes(), edge_type@), edge_id@),
                    all_scoped(old(self).scopes(), texts(targets@)),
                ),
                Err(e) => e is Storage && !old(self).infallible(),
            },
    ;

    /// The targets of an edge, if it is stored.
    fn get_edge_targets(&self, edge_type: &str, edge_id: &str) -> (r: Result<
        Option<Vec<String>>,
        StoreError,
    >)
        ensures
            ({
                let found = lookup(
                    self.contents(),
                    edge_key(scoped(self.scopes(), edge_type@), edge_id@),
                );
                match r {
                    Ok(None) => found is None,
                    Ok(Some(list)) => found matches Some(b) && json_parse(b) is Document && texts(
                        list@,
                    ) == all_unscoped(self.scopes(), listed_in(b)),
                    Err(StoreError::Serialization(s)) => found matches Some(b) && json_parse(b)
                        == Parsed::Fault(s@),
                    Err(StoreError::Storage(_)) => !self.infallible(),
                }
            }),
    ;

    /// The edges that have a vertex among their targets.
    fn get_vertex_edges(&self, target_id: &str) -> (r: Result<Vec<String>, StoreError>)
        ensures
            ({
                let found = lookup(
                    self.contents(),
                    vertex_key(scoped(self.scopes(), target_id@)),
                );
                match r {
                    Ok(list) => match found {
                        None => list@.len() == 0,
                        Some(b) => json_parse(b) is Document && texts(list@) == all_unscoped(
                            self.scopes(),
                            listed_in(b),
                        ),
                    },
                    Err(StoreError::Serialization(s)) => found matches Some(b) && json_parse(b)
                        == Parsed::Fault(s@),
                    Err(StoreError::Storage(_)) => !self.infallible(),
                }
            }),
    ;

    /// The entries whose keys begin with a prefix, in key order: those after the first `offset`, at
    /// most `limit` of them.
    fn scan_prefix(&self, prefix: &str, limit: usize, offset: usize) -> (r: Result<
        Vec<(String, Value)>,
        StoreError,
    >)
        ensures
            ({
                let found = page(
                    hits(self.contents(), scoped(self.scopes(), prefix@)),
                    limit as nat,
                    offset as nat,
                );
                match r {
                    Ok(list) => ascending(self.contents()) && list@.len() == found.len() && forall|
                        i: int,
                    |
                        0 <= i < found.len() ==> (#[trigger] list@[i]).0@ == unscoped(
                            self.scopes(),
                            found[i].0,
                        ) && holds_value(found[i].1, list@[i].1@),
                    Err(StoreError::Serialization(s)) => first_fault(found, s@),
                    Err(StoreError::Storage(_)) => !self.infallible(),
                }
            }),
    ;

    /// Removes an edge, and keeps the indexes of the vertices in step.
    fn delete_edge(&mut self, edge_type: &str, edge_id: &str) -> (r: Result<(), StoreError>)
        ensures
            final(self).scopes() == old(self).scopes(),
            final(self).infallible() == old(self).infallible(),
            match r {
                Ok(_) => ascending(final(self).contents()) && edge_removed(
                    old(self).contents(),
                    final(self).contents(),
                    edge_key(scoped(old(self).scopes(), edge_type@), edge_id@),
                ),
                Err(e) => e is Storage && !old(self).infallible(),
            },
    ;
}

/// The bytes of a vector.
pub open spec fn bytes_of() -> spec_fn(Vec<u8>) -> Seq<u8> {
    |b: Vec<u8>| b@
}

/// What a map of stored documents holds.
pub open spec fn documents(m: StrMap<Vec<u8>>) -> Contents {
    map_values(m.pairs(), bytes_of())
}

/// The key under which an edge is stored.
pub fn edge_storage_key(edge_type: &str, edge_id: &str) -> (r: String)
    ensures
        r@ == edge_key(edge_type@, edge_id@),
{
    let mut r = cat3("edge:", edge_type, ":");
    r.append(edge_id);
    r
}

/// The key under which the index of a vertex is stored.
pub fn vertex_index_key(target_id: &str) -> (r: String)
    ensures
        r@ == vertex_key(target_id@),
{
    cat("vertex_idx:", target_id)
}

/// The bytes that a value is stored as.
pub fn serialize_value(value: &Value) -> (r: Vec<u8>)
    ensures
        r@ == stored(val_tree(value@)),
        orderly(value@),
        exact(val_tree(value@), MAX_JSON_DEPTH as nat) ==> reads_back(val_tree(value@)),
{
    json_write(&value_to_json(value))
}

/// The value that stored bytes hold.
pub fn deserialize_value(bytes: &[u8]) -> (r: Result<Value, StoreError>)
    ensures
        match r {
            Ok(v) => holds_value(bytes@, v@),
            Err(StoreError::Serialization(e)) => json_parse(bytes@) == Parsed::Fault(e@),
            Err(StoreError::Storage(_)) => false,
        },
{
    match json_read(bytes) {
        Ok(j) => Ok(value_from_json(j)),
        Err(e) => Err(StoreError::Serialization(e)),
    }
}

/// The record of a run that stored bytes hold.
pub fn deserialize_run(bytes: &[u8]) -> (r: Result<RunRecord, StoreError>)
    ensures
        match r {
            Ok(d) => holds_run(bytes@, d@),
            Err(StoreError::Serialization(s)) => not_a_run(bytes@, s@),
            Err(StoreError::Storage(_)) => false,
        },
{
    match run_of_bytes(bytes) {
        Some(d) => Ok(d),
        None => match json_read(bytes) {
            Ok(_) => Err(StoreError::Serialization("not a record of a run".to_owned())),
            Err(e) => Err(StoreError::Serialization(e)),
        },
    }
}

/// The texts that a value lists.
pub fn string_items(value: &Value) -> (r: Vec<String>)
    ensures
        texts(r@) == listed(value@),
{
    let mut r: Vec<String> = Vec::new();
    assert(texts(r@) =~= Seq::<Seq<char>>::empty());
    match value.as_list() {
        Some(items) => {
            let ghost s = vals(items@);
            let mut i: usize = 0;
            assert(s.take(0) =~= Seq::<Val>::empty());
            while i < items.len()
                invariant
                    i <= items@.len(),
                    s == vals(items@),
                    texts(r@) == text_items(s.take(i as int)),
                decreases items.len() - i,
            {
                let ghost earlier = texts(r@);
                proof {
                    assert(s.take(i + 1).drop_last() =~= s.take(i as int));
                    assert(s.take(i + 1).last() == items@[i as int].view());
                }
                match items[i].as_str() {
                    Some(t) => {
                        r.push(t.to_owned());
                        assert(texts(r@) =~= earlier.push(t@));
                    },
                    None => {},
                }
                i += 1;
            }
            assert(s.take(i as int) =~= s);
        },
        None => {},
    }
    r
}

/// The list of texts as a value.
pub fn text_list(refs: &Vec<String>) -> (r: Value)
    ensures
        r@ is List,
        val_tree(r@) == text_trees(texts(refs@)),
        r@ == Val::List(Seq::new(refs@.len(), |i: int| Val::Text(refs@[i]@))),
{
    let mut items: Vec<Value> = Vec::new();
    let mut i: usize = 0;
    while i < refs.len()
        invariant
            i <= refs@.len(),
            items@.len() == i,
            forall|j: int| 0 <= j < i ==> (#[trigger] items@[j]).view() == Val::Text(refs@[j]@),
        decreases refs.len() - i,
    {
        items.push(Value::String(refs[i].clone()));
        i += 1;
    }
    let ghost s = list_view(items);
    assert(s =~= Seq::new(refs@.len(), |i: int| Val::Text(refs@[i]@)));
    assert(crate::json::item_trees(s) =~= text_trees(texts(refs@))->Array_0);
    Value::List(items)
}

proof fn lemma_texts_exact(s: Seq<Seq<char>>)
    ensures
        exact(text_trees(s), MAX_JSON_DEPTH as nat),
{
    let t = text_trees(s)->Array_0;
    assert forall|i: int| 0 <= i < t.len() implies exact(
        #[trigger] t[i],
        (MAX_JSON_DEPTH - 1) as nat,
    ) by {}
}

/// A stored list of texts lists those texts.
pub proof fn lemma_texts_listed(s: Seq<Seq<char>>)
    ensures
        listed(tree_val(text_trees(s))) == s,
{
    let t = text_trees(s)->Array_0;
    if s.len() == 0 {
        assert(s =~= Seq::<Seq<char>>::empty());
        assert(crate::json::byte_array(t));
    } else {
        assert(!crate::json::byte_tree(t[0]));
        let v = crate::json::item_vals(t);
        assert(v =~= Seq::new(s.len(), |i: int| Val::Text(s[i])));
        lemma_text_items(s);
    }
}

proof fn lemma_text_items(s: Seq<Seq<char>>)
    ensures
        text_items(Seq::new(s.len(), |i: int| Val::Text(s[i]))) == s,
    decreases s.len(),
{
    let v = Seq::new(s.len(), |i: int| Val::Text(s[i]));
    if s.len() > 0 {
        let rest = s.drop_last();
        lemma_text_items(rest);
        assert(v.drop_last() =~= Seq::new(rest.len(), |i: int| Val::Text(rest[i])));
        assert(rest.push(s.last()) =~= s);
    } else {
        assert(s =~= Seq::<Seq<char>>::empty());
    }
}

/// What is held under a key is listed there.
pub proof fn lemma_holds_refs(c: Contents, key: Seq<char>, refs: Seq<Seq<char>>)
    requires
        holds(c, key, refs),
    ensures
        refs_at(c, key) == refs,
        is_json_at(c, key),
{
    lemma_texts_listed(refs);
}

/// The texts that are listed under a key.
pub(crate) fn read_refs(m: &StrMap<Vec<u8>>, key: &str) -> (r: Vec<String>)
    ensures
        texts(r@) == refs_at(documents(*m), key@),
{
    proof {
        lemma_map_lookup(m.pairs(), bytes_of(), key@);
    }
    match m.get(key) {
        Some(bytes) => match deserialize_value(bytes.as_slice()) {
            Ok(value) => string_items(&value),
            Err(_) => {
                let r: Vec<String> = Vec::new();
                assert(texts(r@) =~= Seq::<Seq<char>>::empty());
                r
            },
        },
        None => {
            let r: Vec<String> = Vec::new();
            assert(texts(r@) =~= Seq::<Seq<char>>::empty());
            r
        },
    }
}

/// The document that lists texts. It reads back as it was.
pub(crate) fn refs_document(refs: &Vec<String>) -> (r: Vec<u8>)
    ensures
        r@ == stored(text_trees(texts(refs@))),
        reads_back(text_trees(texts(refs@))),
{
    proof {
        lemma_texts_exact(texts(refs@));
    }
    serialize_value(&text_list(refs))
}

/// Stores a list of texts under a key.
fn write_refs(m: &mut StrMap<Vec<u8>>, key: String, refs: &Vec<String>)
    ensures
        documents(*final(m)) == put(documents(*old(m)), key@, stored(text_trees(texts(refs@)))),
        reads_back(text_trees(texts(refs@))),
{
    let bytes = refs_document(refs);
    proof {
        lemma_map_put(m.pairs(), bytes_of(), key@, bytes);
    }
    m.insert(key, bytes);
}

/// The texts that are listed under a key, but for one. Nothing where there is no JSON.
pub(crate) fn refs_without(m: &StrMap<Vec<u8>>, key: &str, e: &str) -> (r: Option<Vec<String>>)
    ensures
        match r {
            Some(kept) => is_json_at(documents(*m), key@) && texts(kept@) == unlinked(
                refs_at(documents(*m), key@),
                e@,
            ),
            None => !is_json_at(documents(*m), key@),
        },
{
    proof {
        lemma_map_lookup(m.pairs(), bytes_of(), key@);
    }
    let value = match m.get(key) {
        Some(bytes) => match deserialize_value(bytes.as_slice()) {
            Ok(value) => value,
            Err(_) => {
                return None;
            },
        },
        None => {
            return None;
        },
    };
    let refs = string_items(&value);
    let ghost all = texts(refs@);
    let mut kept: Vec<String> = Vec::new();
    let mut i: usize = 0;
    assert(all.take(0) =~= Seq::<Seq<char>>::empty());
    assert(texts(kept@) =~= Seq::<Seq<char>>::empty());
    while i < refs.len()
        invariant
            i <= refs@.len(),
            all == texts(refs@),
            texts(kept@) == unlinked(all.take(i as int), e@),
        decreases refs.len() - i,
    {
        let ghost earlier = texts(kept@);
        proof {
            assert(all.take(i + 1).drop_last() =~= all.take(i as int));
            assert(all.take(i + 1).last() == refs@[i as int]@);
        }
        if !same_text(refs[i].as_str(), e) {
            kept.push(refs[i].clone());
            assert(texts(kept@) =~= earlier.push(refs@[i as int]@));
        }
        i += 1;
    }
    assert(all.take(i as int) =~= all);
    Some(kept)
}

/// Takes a text from the list under a key.
fn unlink(m: &mut StrMap<Vec<u8>>, key: String, e: &str)
    ensures
        unlinked_at(documents(*old(m)), documents(*final(m)), key@, e@),
        forall|k: Seq<char>|
            k != key@ ==> #[trigger] lookup(documents(*final(m)), k) == lookup(
                documents(*old(m)),
                k,
            ),
{
    let ghost c = documents(*m);
    m.check_order();
    proof {
        lemma_map_lookup(m.pairs(), bytes_of(), key@);
        lemma_map_ascending(m.pairs(), bytes_of());
    }
    let kept = match refs_without(m, key.as_str(), e) {
        Some(kept) => kept,
        None => {
            return ;
        },
    };
    let ghost k = key@;
    if kept.len() == 0 {
        proof {
            lemma_map_without(m.pairs(), bytes_of(), k);
        }
        let removed = m.remove(key.as_str());
        proof {
            assert forall|x: Seq<char>| #[trigger] lookup(without(c, k), x) == if x == k {
                None
            } else {
                lookup(c, x)
            } by {
                lemma_without_lookup(c, k, x);
            }
        }
    } else {
        write_refs(m, key, &kept);
        proof {
            let b = stored(text_trees(texts(kept@)));
            assert forall|x: Seq<char>| #[trigger] lookup(put(c, k, b), x) == if x == k {
                Some(b)
            } else {
                lookup(c, x)
            } by {
                lemma_put_lookup(c, k, b, x);
            }
        }
    }
}

/// Adds a text to the list under a key, unless it is in it.
fn link(m: &mut StrMap<Vec<u8>>, key: String, e: &str)
    ensures
        holds(documents(*final(m)), key@, linked(refs_at(documents(*old(m)), key@), e@)),
        forall|k: Seq<char>|
            k != key@ ==> #[trigger] lookup(documents(*final(m)), k) == lookup(
                documents(*old(m)),
                k,
            ),
{
    let ghost c = documents(*m);
    let ghost k = key@;
    let mut refs = read_refs(m, key.as_str());
    let ghost earlier = texts(refs@);
    if !holds_text(&refs, e) {
        refs.push(e.to_owned());
        assert(texts(refs@) =~= earlier.push(e@));
    }
    write_refs(m, key, &refs);
    proof {
        let b = stored(text_trees(texts(refs@)));
        assert forall|x: Seq<char>| #[trigger] lookup(put(c, k, b), x) == if x == k {
            Some(b)
        } else {
            lookup(c, x)
        } by {
            lemma_put_lookup(c, k, b, x);
        }
    }
}

/// The key of an edge is never that of an index.
pub proof fn lemma_edge_key_apart(edge_type: Seq<char>, edge_id: Seq<char>, target: Seq<char>)
    ensures
        edge_key(edge_type, edge_id) != vertex_key(target),
{
    reveal_strlit("edge:");
    reveal_strlit("vertex_idx:");
    assert(edge_key(edge_type, edge_id)[0] == 'e');
    assert(vertex_key(target)[0] == 'v');
}

/// Different vertices have different index keys.
pub proof fn lemma_vertex_key_injective(a: Seq<char>, b: Seq<char>)
    requires
        vertex_key(a) == vertex_key(b),
    ensures
        a == b,
{
    let p = "vertex_idx:"@;
    assert(vertex_key(a).subrange(p.len() as int, vertex_key(a).len() as int) =~= a);
    assert(vertex_key(b).subrange(p.len() as int, vertex_key(b).len() as int) =~= b);
}

/// What is left are the texts other than the one taken out.
pub proof fn lemma_unlinked_contains(refs: Seq<Seq<char>>, e: Seq<char>, x: Seq<char>)
    ensures
        unlinked(refs, e).contains(x) <==> refs.contains(x) && x != e,
    decreases refs.len(),
{
    if refs.len() > 0 {
        let front = refs.drop_last();
        let rest = unlinked(front, e);
        lemma_unlinked_contains(front, e, x);
        assert(refs =~= front.push(refs.last()));
        lemma_text_contains_push(front, refs.last(), x);
        lemma_text_contains_push(rest, refs.last(), x);
    }
}

/// What a list with one more text contains.
pub proof fn lemma_text_contains_push(s: Seq<Seq<char>>, y: Seq<char>, x: Seq<char>)
    ensures
        s.push(y).contains(x) <==> s.contains(x) || x == y,
{
    let t = s.push(y);
    assert(t[s.len() as int] == y);
    if s.contains(x) {
        let i = choose|i: int| 0 <= i < s.len() && s[i] == x;
        assert(t[i] == x);
    }
    if t.contains(x) {
        let i = choose|i: int| 0 <= i < t.len() && t[i] == x;
        assert(i < s.len() ==> s[i] == x);
    }
}

/// Taking out what is not there changes nothing.
pub proof fn lemma_unlinked_absent(refs: Seq<Seq<char>>, e: Seq<char>)
    requires
        !refs.contains(e),
    ensures
        unlinked(refs, e) == refs,
    decreases refs.len(),
{
    if refs.len() > 0 {
        let front = refs.drop_last();
        assert(refs =~= front.push(refs.last()));
        lemma_text_contains_push(front, refs.last(), e);
        lemma_unlinked_absent(front, e);
    }
}

proof fn lemma_unlinked_twice(
    before: Contents,
    between: Contents,
    after: Contents,
    key: Seq<char>,
    e: Seq<char>,
)
    requires
        unlinked_at(before, between, key, e),
        unlinked_at(between, after, key, e),
    ensures
        unlinked_at(before, after, key, e),
{
    if is_json_at(before, key) {
        let refs = unlinked(refs_at(before, key), e);
        if refs.len() > 0 {
            lemma_holds_refs(between, key, refs);
            lemma_unlinked_contains(refs_at(before, key), e, e);
            lemma_unlinked_absent(refs, e);
        }
    }
}

/// Whether the key is the index of one of the first `n` earlier targets that is a target no more.
pub open spec fn stale(key: Seq<char>, olds: Seq<Seq<char>>, targets: Seq<Seq<char>>, n: int) -> bool {
    exists|j: int|
        0 <= j < n && !targets.contains(olds[j]) && key == vertex_key(#[trigger] olds[j])
}

/// One more vertex has one more index.
pub proof fn lemma_index_of_step(key: Seq<char>, targets: Seq<Seq<char>>, i: int)
    requires
        0 <= i < targets.len(),
    ensures
        is_index_of(key, targets.take(i + 1)) <==> is_index_of(key, targets.take(i)) || key
            == vertex_key(targets[i]),
{
    let a = targets.take(i);
    let b = targets.take(i + 1);
    assert(b[i] == targets[i]);
    if is_index_of(key, a) {
        let j = choose|j: int| 0 <= j < a.len() && key == vertex_key(#[trigger] a[j]);
        assert(b[j] == a[j]);
    }
    if is_index_of(key, b) {
        let j = choose|j: int| 0 <= j < b.len() && key == vertex_key(#[trigger] b[j]);
        assert(j < i ==> a[j] == b[j]);
    }
}

/// Sets the targets of an edge in a map of stored documents.
pub(crate) fn set_edge(m: &mut StrMap<Vec<u8>>, e: &str, targets: &Vec<String>)
    requires
        forall|t: Seq<char>| e@ != #[trigger] vertex_key(t),
    ensures
        edge_set(documents(*old(m)), documents(*final(m)), e@, texts(targets@)),
{
    let ghost c0 = documents(*m);
    let ghost ts = texts(targets@);
    let olds = read_refs(m, e);
    let ghost os = texts(olds@);
    write_refs(m, e.to_owned(), targets);
    proof {
        let b = stored(text_trees(ts));
        assert forall|x: Seq<char>| #[trigger] lookup(put(c0, e@, b), x) == if x == e@ {
            Some(b)
        } else {
            lookup(c0, x)
        } by {
            lemma_put_lookup(c0, e@, b, x);
        }
    }
    let mut i: usize = 0;
    while i < olds.len()
        invariant
            i <= olds@.len(),
            os == texts(olds@),
            ts == texts(targets@),
            forall|t: Seq<char>| e@ != #[trigger] vertex_key(t),
            holds(documents(*m), e@, ts),
            forall|k: Seq<char>|
                k != e@ ==> #[trigger] after_unlinks(c0, documents(*m), e@, os, ts, i as int, k),
        decreases olds.len() - i,
    {
        let ghost c = documents(*m);
        if !holds_text(targets, olds[i].as_str()) {
            let key = vertex_index_key(olds[i].as_str());
            let ghost k0 = key@;
            unlink(m, key, e);
            proof {
                let d = documents(*m);
                assert(os[i as int] == olds@[i as int]@);
                assert(unlinked_at(c, d, k0, e@));
                assert forall|k: Seq<char>| k != e@ implies #[trigger] after_unlinks(
                    c0,
                    d,
                    e@,
                    os,
                    ts,
                    i + 1,
                    k,
                ) by {
                    assert(after_unlinks(c0, c, e@, os, ts, i as int, k));
                    lemma_stale_step(k, os, ts, i as int);
                    if k == k0 {
                        if stale(k, os, ts, i as int) {
                            lemma_unlinked_twice(c0, c, d, k, e@);
                        }
                    } else {
                        assert(lookup(d, k) == lookup(c, k));
                    }
                }
                assert(e@ != vertex_key(os[i as int]));
                assert(lookup(d, e@) == lookup(c, e@));
            }
        } else {
            proof {
                assert(os[i as int] == olds@[i as int]@);
                assert forall|k: Seq<char>| k != e@ implies #[trigger] after_unlinks(
                    c0,
                    c,
                    e@,
                    os,
                    ts,
                    i + 1,
                    k,
                ) by {
                    assert(after_unlinks(c0, c, e@, os, ts, i as int, k));
                    lemma_stale_step(k, os, ts, i as int);
                }
            }
        }
        i += 1;
    }
    let ghost n = os.len() as int;
    proof {
        let c = documents(*m);
        assert(ts.take(0) =~= Seq::<Seq<char>>::empty());
        assert forall|k: Seq<char>| k != e@ implies #[trigger] after_links(
            c0,
            c,
            e@,
            os,
            ts,
            0,
            k,
        ) by {
            assert(after_unlinks(c0, c, e@, os, ts, n, k));
        }
    }
    let mut i: usize = 0;
    while i < targets.len()
        invariant
            i <= targets@.len(),
            ts == texts(targets@),
            n == os.len(),
            forall|t: Seq<char>| e@ != #[trigger] vertex_key(t),
            holds(documents(*m), e@, ts),
            forall|k: Seq<char>|
                k != e@ ==> #[trigger] after_links(c0, documents(*m), e@, os, ts, i as int, k),
        decreases targets.len() - i,
    {
        let ghost c = documents(*m);
        let key = vertex_index_key(targets[i].as_str());
        let ghost k0 = key@;
        link(m, key, e);
        proof {
            let d = documents(*m);
            assert(ts[i as int] == targets@[i as int]@);
            assert(e@ != vertex_key(ts[i as int]));
            assert(lookup(d, e@) == lookup(c, e@));
            assert forall|k: Seq<char>| k != e@ implies #[trigger] after_links(
                c0,
                d,
                e@,
                os,
                ts,
                i + 1,
                k,
            ) by {
                assert(after_links(c0, c, e@, os, ts, i as int, k));
                lemma_index_of_step(k, ts, i as int);
                if k == k0 {
                    if is_index_of(k, ts.take(i as int)) {
                        let refs = linked(refs_at(c0, k), e@);
                        lemma_holds_refs(c, k, refs);
                        lemma_text_contains_push(refs_at(c0, k), e@, e@);
                    } else {
                        if stale(k, os, ts, n) {
                            let j = choose|j: int|
                                0 <= j < n && !ts.contains(os[j]) && k == vertex_key(
                                    #[trigger] os[j],
                                );
                            lemma_vertex_key_injective(os[j], ts[i as int]);
                        }
                        assert(lookup(c, k) == lookup(c0, k));
                    }
                } else {
                    assert(lookup(d, k) == lookup(c, k));
                }
            }
        }
        i += 1;
    }
    proof {
        let c = documents(*m);
        assert(ts.take(i as int) =~= ts);
        assert forall|k: Seq<char>| k != e@ implies #[trigger] key_after_set(c0, c, e@, ts, k) by {
            assert(after_links(c0, c, e@, os, ts, i as int, k));
            if !is_index_of(k, ts) {
                if is_index_of(k, os) {
                    let j = choose|j: int| 0 <= j < os.len() && k == vertex_key(#[trigger] os[j]);
                    if ts.contains(os[j]) {
                        let l = choose|l: int| 0 <= l < ts.len() && ts[l] == os[j];
                        assert(k == vertex_key(ts[l]));
                    }
                    assert(stale(k, os, ts, n));
                }
                if stale(k, os, ts, n) {
                    let j = choose|j: int|
                        0 <= j < n && !ts.contains(os[j]) && k == vertex_key(#[trigger] os[j]);
                    assert(is_index_of(k, os));
                }
            }
        }
    }
}

/// One more earlier target may have one more stale index.
pub proof fn lemma_stale_step(key: Seq<char>, olds: Seq<Seq<char>>, targets: Seq<Seq<char>>, i: int)
    requires
        0 <= i < olds.len(),
    ensures
        stale(key, olds, targets, i + 1) <==> stale(key, olds, targets, i) || (!targets.contains(
            olds[i],
        ) && key == vertex_key(olds[i])),
{
}

/// What a key holds once the first `i` stale indexes were cleaned.
spec fn after_unlinks(
    before: Contents,
    now: Contents,
    e: Seq<char>,
    olds: Seq<Seq<char>>,
    targets: Seq<Seq<char>>,
    i: int,
    k: Seq<char>,
) -> bool {
    if stale(k, olds, targets, i) {
        unlinked_at(before, now, k, e)
    } else {
        lookup(now, k) == lookup(before, k)
    }
}

/// What a key holds once stale indexes were cleaned and the first `i` targets were linked.
spec fn after_links(
    before: Contents,
    now: Contents,
    e: Seq<char>,
    olds: Seq<Seq<char>>,
    targets: Seq<Seq<char>>,
    i: int,
    k: Seq<char>,
) -> bool {
    if is_index_of(k, targets.take(i)) {
        holds(now, k, linked(refs_at(before, k), e))
    } else if stale(k, olds, targets, olds.len() as int) {
        unlinked_at(before, now, k, e)
    } else {
        lookup(now, k) == lookup(before, k)
    }
}

/// Removes an edge from a map of stored documents.
pub(crate) fn remove_edge(m: &mut StrMap<Vec<u8>>, e: &str)
    requires
        forall|t: Seq<char>| e@ != #[trigger] vertex_key(t),
    ensures
        edge_removed(documents(*old(m)), documents(*final(m)), e@),
{
    let ghost c0 = documents(*m);
    let ghost none = Seq::<Seq<char>>::empty();
    let olds = read_refs(m, e);
    let ghost os = texts(olds@);
    m.check_order();
    proof {
        lemma_map_ascending(m.pairs(), bytes_of());
        lemma_map_without(m.pairs(), bytes_of(), e@);
        assert forall|x: Seq<char>| #[trigger] lookup(without(c0, e@), x) == if x == e@ {
            None
        } else {
            lookup(c0, x)
        } by {
            lemma_without_lookup(c0, e@, x);
        }
    }
    let removed = m.remove(e);
    let mut i: usize = 0;
    while i < olds.len()
        invariant
            i <= olds@.len(),
            os == texts(olds@),
            none == Seq::<Seq<char>>::empty(),
            forall|t: Seq<char>| e@ != #[trigger] vertex_key(t),
            lookup(documents(*m), e@) is None,
            forall|k: Seq<char>|
                k != e@ ==> #[trigger] after_unlinks(c0, documents(*m), e@, os, none, i as int, k),
        decreases olds.len() - i,
    {
        let ghost c = documents(*m);
        let key = vertex_index_key(olds[i].as_str());
        let ghost k0 = key@;
        unlink(m, key, e);
        proof {
            let d = documents(*m);
            assert(os[i as int] == olds@[i as int]@);
            assert(e@ != vertex_key(os[i as int]));
            assert(lookup(d, e@) == lookup(c, e@));
            assert forall|k: Seq<char>| k != e@ implies #[trigger] after_unlinks(
                c0,
                d,
                e@,
                os,
                none,
                i + 1,
                k,
            ) by {
                assert(after_unlinks(c0, c, e@, os, none, i as int, k));
                lemma_stale_step(k, os, none, i as int);
                if k == k0 {
                    if stale(k, os, none, i as int) {
                        lemma_unlinked_twice(c0, c, d, k, e@);
                    }
                } else {
                    assert(lookup(d, k) == lookup(c, k));
                }
            }
        }
        i += 1;
    }
    proof {
        let c = documents(*m);
        assert forall|k: Seq<char>| k != e@ implies #[trigger] key_after_removal(c0, c, e@, k) by {
            assert(after_unlinks(c0, c, e@, os, none, i as int, k));
            if is_index_of(k, os) {
                let j = choose|j: int| 0 <= j < os.len() && k == vertex_key(#[trigger] os[j]);
                assert(stale(k, os, none, os.len() as int));
            }
        }
    }
}

/// A store in memory.
pub struct InMemoryStore {
    inner: StrMap<Vec<u8>>,
}

impl InMemoryStore {
    /// An empty store.
    pub fn new() -> (r: InMemoryStore)
        ensures
            r.contents() == Seq::<(Seq<char>, Seq<u8>)>::empty(),
            r.scopes() == Seq::<Seq<char>>::empty(),
            r.infallible(),
    {
        let r = InMemoryStore { inner: StrMap::new() };
        assert(documents(r.inner) =~= Seq::<(Seq<char>, Seq<u8>)>::empty());
        r
    }
}

impl Default for InMemoryStore {
    fn default() -> (r: Self)
        ensures
            r.contents() == Seq::<(Seq<char>, Seq<u8>)>::empty(),
            r.scopes() == Seq::<Seq<char>>::empty(),
            r.infallible(),
    {
        InMemoryStore::new()
    }
}

impl Store for InMemoryStore {
    closed spec fn contents(&self) -> Contents {
        documents(self.inner)
    }

    open spec fn scopes(&self) -> Seq<Seq<char>> {
        Seq::empty()
    }

    open spec fn infallible(&self) -> bool {
        true
    }

    fn put_run(&mut self, record: RunRecord) -> (r: Result<(), StoreError>) {
        let bytes = json_write(&run_to_json(&record));
        proof {
            lemma_map_put(self.inner.pairs(), bytes_of(), record.metadata.run_id@, bytes);
        }
        self.inner.insert(record.metadata.run_id.clone(), bytes);
        Ok(())
    }

    fn get_run(&self, run_id: &str) -> (r: Result<Option<RunRecord>, StoreError>) {
        proof {
            lemma_map_lookup(self.inner.pairs(), bytes_of(), run_id@);
        }
        match self.inner.get(run_id) {
            Some(bytes) => match deserialize_run(bytes.as_slice()) {
                Ok(record) => Ok(Some(record)),
                Err(e) => Err(e),
            },
            None => Ok(None),
        }
    }

    fn list_runs(&self) -> (r: Result<Vec<RunMetadata>, StoreError>) {
        let ghost c = self.contents();
        self.inner.check_order();
        proof {
            lemma_map_ascending(self.inner.pairs(), bytes_of());
        }
        let mut list: Vec<RunMetadata> = Vec::new();
        let mut i: usize = 0;
        while i < self.inner.len()
            invariant
                i <= c.len(),
                c == self.contents(),
                c == documents(self.inner),
                list@.len() == i,
                forall|j: int| 0 <= j < i ==> holds_meta((#[trigger] c[j]).1, list@[j]@),
                all_runs(c.take(i as int)),
            decreases c.len() - i,
        {
            let bytes = self.inner.value_at(i);
            assert(c[i as int].1 == bytes@);
            match deserialize_run(bytes.as_slice()) {
                Ok(record) => {
                    proof {
                        assert(holds_run(bytes@, record@));
                        lemma_run_bytes(bytes@, record@);
                        assert(c.take(i + 1) =~= c.take(i as int).push(c[i as int]));
                    }
                    assert(record@.metadata == record.metadata@);
                    list.push(record.metadata);
                },
                Err(e) => {
                    assert(!run_bytes(c[i as int].1));
                    assert(e matches StoreError::Serialization(s) && first_other(c, s@));
                    return Err(e);
                },
            }
            i += 1;
        }
        Ok(list)
    }

    fn put_entry(&mut self, key: &str, value: Value) -> (r: Result<(), StoreError>) {
        let bytes = serialize_value(&value);
        proof {
            lemma_map_put(self.inner.pairs(), bytes_of(), key@, bytes);
        }
        self.inner.insert(key.to_owned(), bytes);
        Ok(())
    }

    fn get_entry(&self, key: &str) -> (r: Result<Option<Value>, StoreError>) {
        proof {
            lemma_map_lookup(self.inner.pairs(), bytes_of(), key@);
        }
        match self.inner.get(key) {
            Some(bytes) => match deserialize_value(bytes.as_slice()) {
                Ok(value) => Ok(Some(value)),
                Err(e) => Err(e),
            },
            None => Ok(None),
        }
    }

    fn delete_entry(&mut self, key: &str) -> (r: Result<(), StoreError>) {
        self.inner.check_order();
        proof {
            lemma_map_ascending(self.inner.pairs(), bytes_of());
            lemma_map_without(self.inner.pairs(), bytes_of(), key@);
        }
        let removed = self.inner.remove(key);
        Ok(())
    }

    fn put_edge(&mut self, edge_type: &str, edge_id: &str, targets: &Vec<String>) -> (r: Result<
        (),
        StoreError,
    >) {
        let e = edge_storage_key(edge_type, edge_id);
        proof {
            assert forall|t: Seq<char>| e@ != #[trigger] vertex_key(t) by {
                lemma_edge_key_apart(edge_type@, edge_id@, t);
            }
            assert(all_scoped(self.scopes(), texts(targets@)) =~= texts(targets@));
        }
        set_edge(&mut self.inner, e.as_str(), targets);
        self.inner.check_order();
        proof {
            lemma_map_ascending(self.inner.pairs(), bytes_of());
        }
        Ok(())
    }

    fn get_edge_targets(&self, edge_type: &str, edge_id: &str) -> (r: Result<
        Option<Vec<String>>,
        StoreError,
    >) {
        let key = edge_storage_key(edge_type, edge_id);
        proof {
            lemma_map_lookup(self.inner.pairs(), bytes_of(), key@);
        }
        match self.inner.get(key.as_str()) {
            Some(bytes) => match deserialize_value(bytes.as_slice()) {
                Ok(value) => {
                    let list = string_items(&value);
                    assert(all_unscoped(self.scopes(), texts(list@)) =~= texts(list@));
                    Ok(Some(list))
                },
                Err(e) => Err(e),
            },
            None => Ok(None),
        }
    }

    fn get_vertex_edges(&self, target_id: &str) -> (r: Result<Vec<String>, StoreError>) {
        let key = vertex_index_key(target_id);
        proof {
            lemma_map_lookup(self.inner.pairs(), bytes_of(), key@);
        }
        match self.inner.get(key.as_str()) {
            Some(bytes) => match deserialize_value(bytes.as_slice()) {
                Ok(value) => {
                    let list = string_items(&value);
                    assert(all_unscoped(self.scopes(), texts(list@)) =~= texts(list@));
                    Ok(list)
                },
                Err(e) => Err(e),
            },
            None => Ok(Vec::new()),
        }
    }

    fn scan_prefix(&self, prefix: &str, limit: usize, offset: usize) -> (r: Result<
        Vec<(String, Value)>,
        StoreError,
    >) {
        let ghost c = self.contents();
        self.inner.check_order();
        proof {
            lemma_map_ascending(self.inner.pairs(), bytes_of());
            assert(scoped(self.scopes(), prefix@) == prefix@);
            assert forall|k: Seq<char>| #[trigger] unscoped(self.scopes(), k) == k by {}
        }
        let mut list: Vec<(String, Value)> = Vec::new();
        let mut seen: usize = 0;
        let mut i: usize = 0;
        assert(c.take(0) =~= Seq::<(Seq<char>, Seq<u8>)>::empty());
        while i < self.inner.len() && list.len() < limit
            invariant
                i <= c.len(),
                c == self.contents(),
                c == documents(self.inner),
                scoped(self.scopes(), prefix@) == prefix@,
                seen == hits(c.take(i as int), prefix@).len(),
                seen <= i,
                lists(
                    list@,
                    page(hits(c.take(i as int), prefix@), limit as nat, offset as nat),
                ),
            decreases c.len() - i,
        {
            let ghost done = c.take(i as int);
            assert(c.take(i + 1) =~= done.push(c[i as int]));
            let step = scan_step(
                &mut list,
                &mut seen,
                self.inner.key_at(i),
                self.inner.value_at(i).as_slice(),
                prefix,
                limit,
                offset,
                Ghost(done),
            );
            match step {
                Ok(_) => {},
                Err(e) => {
                    proof {
                        lemma_scan_fault(c, prefix@, limit as nat, offset as nat, i as int, list@);
                    }
                    return Err(e);
                },
            }
            i += 1;
        }
        proof {
            lemma_page_grows(c, prefix@, limit as nat, offset as nat, i as int);
            assert(i == c.len() ==> c.take(i as int) =~= c);
        }
        Ok(list)
    }

    fn delete_edge(&mut self, edge_type: &str, edge_id: &str) -> (r: Result<(), StoreError>) {
        let e = edge_storage_key(edge_type, edge_id);
        proof {
            assert forall|t: Seq<char>| e@ != #[trigger] vertex_key(t) by {
                lemma_edge_key_apart(edge_type@, edge_id@, t);
            }
        }
        remove_edge(&mut self.inner, e.as_str());
        self.inner.check_order();
        proof {
            lemma_map_ascending(self.inner.pairs(), bytes_of());
        }
        Ok(())
    }
}

/// Whether a list gives the keys and the values of stored entries, in order.
pub open spec fn lists(list: Seq<(String, Value)>, found: Contents) -> bool {
    &&& list.len() == found.len()
    &&& forall|i: int|
        0 <= i < found.len() ==> (#[trigger] list[i]).0@ == found[i].0 && holds_value(
            found[i].1,
            list[i].1@,
        )
}

/// Goes on with a page by one more entry: adds it to the list if it belongs there, and counts it if
/// its key begins with the prefix.
pub(crate) fn scan_step(
    list: &mut Vec<(String, Value)>,
    seen: &mut usize,
    key: &str,
    bytes: &[u8],
    prefix: &str,
    limit: usize,
    offset: usize,
    done: Ghost<Contents>,
) -> (r: Result<(), StoreError>)
    requires
        *old(seen) == hits(done@, prefix@).len(),
        *old(seen) < usize::MAX,
        lists(old(list)@, page(hits(done@, prefix@), limit as nat, offset as nat)),
    ensures
        ({
            let next = page(
                hits(done@.push((key@, bytes@)), prefix@),
                limit as nat,
                offset as nat,
            );
            match r {
                Ok(_) => *final(seen) == hits(done@.push((key@, bytes@)), prefix@).len() && lists(
                    final(list)@,
                    next,
                ) && *final(seen) <= *old(seen) + 1,
                Err(StoreError::Serialization(s)) => final(list)@ == old(list)@ && next.len()
                    == old(list)@.len() + 1 && next.last() == (key@, bytes@) && json_parse(bytes@)
                    == Parsed::Fault(s@),
                Err(StoreError::Storage(_)) => false,
            }
        }),
{
    let ghost h = hits(done@, prefix@);
    let ghost e = (key@, bytes@);
    assert(done@.push(e).drop_last() =~= done@);
    if starts_with(key, prefix) {
        let ghost p = page(h, limit as nat, offset as nat);
        let ghost q = page(h.push(e), limit as nat, offset as nat);
        if *seen >= offset && list.len() < limit {
            assert(q =~= p.push(e));
            match deserialize_value(bytes) {
                Ok(value) => {
                    list.push((key.to_owned(), value));
                },
                Err(e) => {
                    return Err(e);
                },
            }
        } else {
            assert(q =~= p);
        }
        *seen = *seen + 1;
    }
    Ok(())
}

/// A page of the first entries is the beginning of the page of all of them; once it is full, it is
/// that page.
pub(crate) proof fn lemma_page_grows(
    c: Contents,
    prefix: Seq<char>,
    limit: nat,
    offset: nat,
    i: int,
)
    requires
        0 <= i <= c.len(),
    ensures
        ({
            let part = page(hits(c.take(i), prefix), limit, offset);
            let whole = page(hits(c, prefix), limit, offset);
            &&& part.len() <= whole.len()
            &&& part == whole.take(part.len() as int)
            &&& part.len() >= limit ==> part == whole
        }),
{
    let part = page(hits(c.take(i), prefix), limit, offset);
    let whole = page(hits(c, prefix), limit, offset);
    lemma_hits_take(c, prefix, i);
    assert(part =~= whole.take(part.len() as int)) by {
        assert forall|j: int| 0 <= j < part.len() implies part[j] == whole[j] by {
            assert(part[j] == hits(c.take(i), prefix)[offset + j]);
            assert(whole[j] == hits(c, prefix)[offset + j]);
        }
    }
    if part.len() >= limit {
        assert(whole.take(part.len() as int) =~= whole);
    }
}

/// A page that cannot be read because of entry `i` has there its first fault.
pub(crate) proof fn lemma_scan_fault(
    c: Contents,
    prefix: Seq<char>,
    limit: nat,
    offset: nat,
    i: int,
    list: Seq<(String, Value)>,
)
    requires
        0 <= i < c.len(),
        lists(list, page(hits(c.take(i), prefix), limit, offset)),
        page(hits(c.take(i + 1), prefix), limit, offset).len() == list.len() + 1,
        page(hits(c.take(i + 1), prefix), limit, offset).last() == c[i],
        json_parse(c[i].1) is Fault,
    ensures
        first_fault(page(hits(c, prefix), limit, offset), json_parse(c[i].1)->Fault_0),
{
    let found = page(hits(c, prefix), limit, offset);
    let part = page(hits(c.take(i), prefix), limit, offset);
    let next = page(hits(c.take(i + 1), prefix), limit, offset);
    let n = list.len() as int;
    lemma_page_grows(c, prefix, limit, offset, i);
    lemma_page_grows(c, prefix, limit, offset, i + 1);
    assert(found[n] == next[n]);
    assert(all_json(found.take(n))) by {
        assert forall|j: int| 0 <= j < n implies json_parse((#[trigger] found.take(n)[j]).1)
            is Document by {
            assert(part[j] == found[j]);
            assert(list[j].0@ == part[j].0);
        }
    }
}

/// Bytes that hold a record of a run hold one.
pub proof fn lemma_run_bytes(b: Seq<u8>, r: RunRec)
    requires
        holds_run(b, r),
    ensures
        run_bytes(b),
{
}

proof fn lemma_hits_take(c: Contents, prefix: Seq<char>, i: int)
    requires
        0 <= i <= c.len(),
    ensures
        hits(c.take(i), prefix).len() <= hits(c, prefix).len(),
        hits(c.take(i), prefix).len() <= i,
        forall|j: int|
            0 <= j < hits(c.take(i), prefix).len() ==> hits(c, prefix)[j] == #[trigger] hits(
                c.take(i),
                prefix,
            )[j],
    decreases c.len(),
{
    if i < c.len() {
        assert(c.drop_last().take(i) =~= c.take(i));
        lemma_hits_take(c.drop_last(), prefix, i);
    } else {
        assert(c.take(i) =~= c);
        if c.len() > 0 {
            assert(c.drop_last().take(i - 1) =~= c.drop_last());
            lemma_hits_take(c.drop_last(), prefix, i - 1);
        }
    }
}

/// The targets that were set are the targets that are found.
pub proof fn lemma_targets_found(
    before: Contents,
    after: Contents,
    e: Seq<char>,
    targets: Seq<Seq<char>>,
)
    requires
        edge_set(before, after, e, targets),
    ensures
        refs_at(after, e) == targets,
        is_json_at(after, e),
{
    lemma_holds_refs(after, e, targets);
}

/// Whether the indexes are in step with the edges: the index of a vertex lists an edge exactly
/// when the vertex is among the targets of the edge.
pub open spec fn in_step(c: Contents) -> bool {
    forall|edge_type: Seq<char>, edge_id: Seq<char>, target: Seq<char>|
        #[trigger] step_at(c, edge_key(edge_type, edge_id), target)
}

/// Whether the index of a vertex is in step with an edge.
pub open spec fn step_at(c: Contents, e: Seq<char>, target: Seq<char>) -> bool {
    refs_at(c, e).contains(target) <==> refs_at(c, vertex_key(target)).contains(e)
}

/// What taking `e` from a list under a key does to the texts listed there.
proof fn lemma_unlinked_refs(
    before: Contents,
    after: Contents,
    key: Seq<char>,
    e: Seq<char>,
    x: Seq<char>,
)
    requires
        unlinked_at(before, after, key, e),
    ensures
        refs_at(after, key).contains(x) <==> refs_at(before, key).contains(x) && x != e,
{
    let refs = unlinked(refs_at(before, key), e);
    lemma_unlinked_contains(refs_at(before, key), e, x);
    if is_json_at(before, key) {
        if refs.len() > 0 {
            lemma_holds_refs(after, key, refs);
        }
    } else {
        assert(refs_at(before, key).len() == 0);
    }
}

/// Setting an edge keeps the indexes in step with the edges.
pub proof fn lemma_set_keeps_step(
    before: Contents,
    after: Contents,
    edge_type: Seq<char>,
    edge_id: Seq<char>,
    targets: Seq<Seq<char>>,
)
    requires
        in_step(before),
        edge_set(before, after, edge_key(edge_type, edge_id), targets),
    ensures
        in_step(after),
{
    let e = edge_key(edge_type, edge_id);
    assert forall|et: Seq<char>, ei: Seq<char>, t: Seq<char>| #[trigger] step_at(
        after,
        edge_key(et, ei),
        t,
    ) by {
        let f = edge_key(et, ei);
        let k = vertex_key(t);
        lemma_edge_key_apart(edge_type, edge_id, t);
        lemma_targets_found(before, after, e, targets);
        assert(step_at(before, f, t));
        assert(key_after_set(before, after, e, targets, k));
        assert(is_index_of(k, targets) <==> targets.contains(t)) by {
            lemma_index_of_target(t, targets);
        }
        assert(is_index_of(k, refs_at(before, e)) <==> refs_at(before, e).contains(t)) by {
            lemma_index_of_target(t, refs_at(before, e));
        }
        if is_index_of(k, targets) {
            let refs = linked(refs_at(before, k), e);
            lemma_holds_refs(after, k, refs);
            lemma_text_contains_push(refs_at(before, k), e, f);
        } else if is_index_of(k, refs_at(before, e)) {
            lemma_unlinked_refs(before, after, k, e, f);
        }
        if f != e {
            assert(key_after_set(before, after, e, targets, f));
            assert(!is_index_of(f, targets) && !is_index_of(f, refs_at(before, e))) by {
                assert forall|x: Seq<char>| f != #[trigger] vertex_key(x) by {
                    lemma_edge_key_apart(et, ei, x);
                }
            }
            assert(refs_at(after, f) == refs_at(before, f));
        } else {
            assert(step_at(before, e, t));
        }
    }
}

proof fn lemma_index_of_target(t: Seq<char>, targets: Seq<Seq<char>>)
    ensures
        is_index_of(vertex_key(t), targets) <==> targets.contains(t),
{
    if is_index_of(vertex_key(t), targets) {
        let i = choose|i: int|
            0 <= i < targets.len() && vertex_key(t) == vertex_key(#[trigger] targets[i]);
        lemma_vertex_key_injective(t, targets[i]);
    }
    if targets.contains(t) {
        let i = choose|i: int| 0 <= i < targets.len() && targets[i] == t;
        assert(vertex_key(t) == vertex_key(targets[i]));
    }
}

/// Removing an edge keeps the indexes in step with the edges, and leaves no index that lists it.
pub proof fn lemma_removal_keeps_step(
    before: Contents,
    after: Contents,
    edge_type: Seq<char>,
    edge_id: Seq<char>,
)
    requires
        in_step(before),
        edge_removed(before, after, edge_key(edge_type, edge_id)),
    ensures
        in_step(after),
        lookup(after, edge_key(edge_type, edge_id)) is None,
        forall|t: Seq<char>|
            !(#[trigger] refs_at(after, vertex_key(t))).contains(edge_key(edge_type, edge_id)),
{
    let e = edge_key(edge_type, edge_id);
    assert forall|et: Seq<char>, ei: Seq<char>, t: Seq<char>| #[trigger] step_at(
        after,
        edge_key(et, ei),
        t,
    ) by {
        let f = edge_key(et, ei);
        let k = vertex_key(t);
        lemma_edge_key_apart(edge_type, edge_id, t);
        assert(step_at(before, f, t));
        assert(step_at(before, e, t));
        assert(key_after_removal(before, after, e, k));
        lemma_index_of_target(t, refs_at(before, e));
        if is_index_of(k, refs_at(before, e)) {
            lemma_unlinked_refs(before, after, k, e, f);
        }
        if f != e {
            assert(key_after_removal(before, after, e, f));
            assert(!is_index_of(f, refs_at(before, e))) by {
                assert forall|x: Seq<char>| f != #[trigger] vertex_key(x) by {
                    lemma_edge_key_apart(et, ei, x);
                }
            }
            assert(refs_at(after, f) == refs_at(before, f));
        }
    }
    assert forall|t: Seq<char>| !(#[trigger] refs_at(after, vertex_key(t))).contains(e) by {
        assert(step_at(after, edge_key(edge_type, edge_id), t));
        assert(refs_at(after, e).len() == 0);
    }
}

/// An empty store is in step.
pub proof fn lemma_empty_in_step()
    ensures
        in_step(Seq::empty()),
{
    let c: Contents = Seq::empty();
    assert forall|et: Seq<char>, ei: Seq<char>, t: Seq<char>| #[trigger] step_at(
        c,
        edge_key(et, ei),
        t,
    ) by {
        assert(refs_at(c, edge_key(et, ei)).len() == 0);
        assert(refs_at(c, vertex_key(t)).len() == 0);
    }
}

/// What was stored under a key is found there as its plain form, and other keys are as before.
pub proof fn lemma_entry_found(before: Contents, key: Seq<char>, v: Val, back: Val, other: Seq<char>)
    requires
        orderly(v),
        reads_back(val_tree(v)),
    ensures
        lookup(put(before, key, stored(val_tree(v))), key) == Some(stored(val_tree(v))),
        holds_value(stored(val_tree(v)), back) <==> back == plain(v),
        other != key ==> lookup(put(before, key, stored(val_tree(v))), other) == lookup(
            before,
            other,
        ),
{
    lemma_put_lookup(before, key, stored(val_tree(v)), key);
    lemma_put_lookup(before, key, stored(val_tree(v)), other);
    lemma_value_round_trip(v);
}

/// A run that was stored is found as its plain form, and other keys are as before.
pub proof fn lemma_run_found(before: Contents, r: RunRec, back: RunRec, other: Seq<char>)
    requires
        run_rec_orderly(r),
        run_reads_back(r),
        r.metadata.duration_ms <= u64::MAX,
        r.metadata.nodes_executed <= u64::MAX,
        reads_back(run_tree(r)),
    ensures
        lookup(put(before, r.metadata.run_id, stored(run_tree(r))), r.metadata.run_id) == Some(
            stored(run_tree(r)),
        ),
        run_bytes(stored(run_tree(r))),
        holds_run(stored(run_tree(r)), back) ==> back == plain_run(r),
        other != r.metadata.run_id ==> lookup(
            put(before, r.metadata.run_id, stored(run_tree(r))),
            other,
        ) == lookup(before, other),
{
    lemma_put_lookup(before, r.metadata.run_id, stored(run_tree(r)), r.metadata.run_id);
    lemma_put_lookup(before, r.metadata.run_id, stored(run_tree(r)), other);
    lemma_run_round_trip(r, back);
}

/// What was removed is not found, and other keys are as before.
pub proof fn lemma_entry_gone(before: Contents, key: Seq<char>, other: Seq<char>)
    requires
        ascending(before),
    ensures
        lookup(without(before, key), key) is None,
        other != key ==> lookup(without(before, key), other) == lookup(before, other),
{
    lemma_without_lookup(before, key, key);
    lemma_without_lookup(before, key, other);
}

proof fn lemma_front_ascending(c: Contents)
    requires
        ascending(c),
        c.len() > 0,
    ensures
        ascending(c.drop_last()),
{
    let t = c.drop_last();
    assert forall|i: int, j: int| 0 <= i < j < t.len() implies crate::text::text_lt(
        #[trigger] t[i].0,
        #[trigger] t[j].0,
    ) by {
        assert(crate::text::text_lt(c[i].0, c[j].0));
    }
}

proof fn lemma_hit_source(c: Contents, prefix: Seq<char>, j: int) -> (i: int)
    requires
        0 <= j < hits(c, prefix).len(),
    ensures
        j <= i < c.len(),
        hits(c, prefix)[j] == c[i],
        begins_with(c[i].0, prefix),
    decreases c.len(),
{
    let rest = hits(c.drop_last(), prefix);
    if j < rest.len() {
        lemma_hit_source(c.drop_last(), prefix, j)
    } else {
        lemma_hits_take(c, prefix, c.len() - 1);
        assert(c.take(c.len() - 1) =~= c.drop_last());
        c.len() - 1
    }
}

proof fn lemma_hit_found(c: Contents, prefix: Seq<char>, i: int) -> (j: int)
    requires
        0 <= i < c.len(),
        begins_with(c[i].0, prefix),
    ensures
        0 <= j < hits(c, prefix).len(),
        hits(c, prefix)[j] == c[i],
    decreases c.len(),
{
    let rest = hits(c.drop_last(), prefix);
    if i == c.len() - 1 {
        rest.len() as int
    } else {
        let j = lemma_hit_found(c.drop_last(), prefix, i);
        assert(c.drop_last()[i] == c[i]);
        j
    }
}

proof fn lemma_hits_ascending(c: Contents, prefix: Seq<char>)
    requires
        ascending(c),
    ensures
        ascending(hits(c, prefix)),
    decreases c.len(),
{
    if c.len() > 0 {
        let front = c.drop_last();
        lemma_front_ascending(c);
        lemma_hits_ascending(front, prefix);
        let rest = hits(front, prefix);
        let h = hits(c, prefix);
        assert forall|i: int, j: int| 0 <= i < j < h.len() implies crate::text::text_lt(
            #[trigger] h[i].0,
            #[trigger] h[j].0,
        ) by {
            if j < rest.len() {
                assert(crate::text::text_lt(rest[i].0, rest[j].0));
            } else {
                let k = lemma_hit_source(front, prefix, i);
                assert(front[k] == c[k]);
                assert(crate::text::text_lt(c[k].0, c[c.len() - 1].0));
            }
        }
    }
}

/// A scan finds, in key order, exactly the entries whose keys begin with the prefix.
pub proof fn lemma_scan_finds(c: Contents, prefix: Seq<char>, key: Seq<char>)
    requires
        ascending(c),
    ensures
        ascending(hits(c, prefix)),
        lookup(hits(c, prefix), key) == if prefix.len() <= key.len() && key.take(prefix.len() as int)
            == prefix {
            lookup(c, key)
        } else {
            None
        },
{
    let h = hits(c, prefix);
    lemma_hits_ascending(c, prefix);
    let begins = prefix.len() <= key.len() && key.take(prefix.len() as int) == prefix;
    if prefix.len() <= key.len() {
        assert(key.subrange(0, prefix.len() as int) =~= key.take(prefix.len() as int));
    }
    assert(begins_with(key, prefix) <==> begins);
    if lookup(h, key) is Some {
        let j = lemma_lookup_found(h, key);
        let i = lemma_hit_source(c, prefix, j);
        lemma_lookup_at(c, i);
    }
    if begins && lookup(c, key) is Some {
        let i = lemma_lookup_found(c, key);
        let j = lemma_hit_found(c, prefix, i);
        lemma_lookup_at(h, j);
    }
}

/// A page holds the entries after the first `offset`, in their order, and at most `limit` of them; it
/// holds fewer only if there are no more.
pub proof fn lemma_page(c: Contents, limit: nat, offset: nat, i: int)
    ensures
        page(c, limit, offset).len() <= limit,
        offset + limit <= c.len() ==> page(c, limit, offset).len() == limit,
        offset <= c.len() < offset + limit ==> page(c, limit, offset).len() == c.len() - offset,
        offset > c.len() ==> page(c, limit, offset).len() == 0,
        0 <= i < page(c, limit, offset).len() ==> page(c, limit, offset)[i] == c[offset + i],
{
}

/// An edge is kept under a key that begins with `edge:` and ends with its type, a colon and its
/// identifier, and the index of a vertex under one that begins with `vertex_idx:` and ends with the
/// vertex.
pub proof fn lemma_storage_keys(edge_type: Seq<char>, edge_id: Seq<char>, target: Seq<char>)
    ensures
        edge_key(edge_type, edge_id).take(5) == seq!['e', 'd', 'g', 'e', ':'],
        edge_key(edge_type, edge_id).skip(5) == edge_type.push(':') + edge_id,
        vertex_key(target).take(11) == seq!['v', 'e', 'r', 't', 'e', 'x', '_', 'i', 'd', 'x', ':'],
        vertex_key(target).skip(11) == target,
{
    reveal_strlit("edge:");
    reveal_strlit(":");
    reveal_strlit("vertex_idx:");
    assert(edge_key(edge_type, edge_id).take(5) =~= seq!['e', 'd', 'g', 'e', ':']);
    assert(edge_key(edge_type, edge_id).skip(5) =~= edge_type.push(':') + edge_id);
    assert(vertex_key(target).take(11) =~= seq![
        'v',
        'e',
        'r',
        't',
        'e',
        'x',
        '_',
        'i',
        'd',
        'x',
        ':',
    ]);
    assert(vertex_key(target).skip(11) =~= target);
}

proof fn lemma_scoped_front(scopes: Seq<Seq<char>>, key: Seq<char>)
    ensures
        scoped(scopes, key) == scoped(scopes, Seq::empty()) + key,
    decreases scopes.len(),
{
    let none = Seq::<char>::empty();
    if scopes.len() > 0 {
        let front = scopes.drop_last();
        let p = scopes.last();
        lemma_scoped_front(front, p + key);
        lemma_scoped_front(front, p + none);
        assert(p + none =~= p);
        assert(scoped(front, none) + (p + key) =~= scoped(front, none) + p + key);
    } else {
        assert(none + key =~= key);
    }
}

/// What the scopes put before a key does not depend on the key, and one scope more comes right before
/// it.
pub proof fn lemma_scopes_before(scopes: Seq<Seq<char>>, scope: Seq<char>, key: Seq<char>)
    ensures
        scoped(scopes, key) == scoped(scopes, Seq::empty()) + key,
        scoped(scopes.push(scope), key) == scoped(scopes, Seq::empty()) + scope + key,
        scoped(Seq::empty(), key) == key,
{
    lemma_scoped_front(scopes, key);
    lemma_scoped_front(scopes, scope + key);
    assert(scopes.push(scope).drop_last() =~= scopes);
    assert(scoped(scopes, Seq::empty()) + (scope + key) =~= scoped(scopes, Seq::empty()) + scope + key);
}

/// Of the items of a list exactly the texts count, in their order.
pub proof fn lemma_text_items_kept(s: Seq<Val>, t: Seq<char>)
    ensures
        text_items(s).contains(t) <==> s.contains(Val::Text(t)),
        text_items(s.push(Val::Text(t))) == text_items(s).push(t),
        forall|v: Val| !(v is Text) ==> text_items(#[trigger] s.push(v)) == text_items(s),
    decreases s.len(),
{
    assert forall|v: Val| !(v is Text) implies text_items(#[trigger] s.push(v)) == text_items(s) by {
        assert(s.push(v).drop_last() =~= s);
    }
    assert(s.push(Val::Text(t)).drop_last() =~= s);
    if s.len() > 0 {
        let front = s.drop_last();
        lemma_text_items_kept(front, t);
        if s.contains(Val::Text(t)) {
            let i = choose|i: int| 0 <= i < s.len() && s[i] == Val::Text(t);
            if i < front.len() {
                assert(front[i] == Val::Text(t));
            }
        }
        if front.contains(Val::Text(t)) {
            let i = choose|i: int| 0 <= i < front.len() && front[i] == Val::Text(t);
            assert(s[i] == Val::Text(t));
        }
        if let Val::Text(x) = s.last() {
            lemma_text_contains_push(text_items(front), x, t);
            assert(s[s.len() - 1] == s.last());
        }
    }
}

/// Once an edge was set, it has exactly the new targets; each of them has the edge in its index, no
/// vertex that was a target only before has it, and every other document is as before.
pub proof fn lemma_edge_replaced(
    before: Contents,
    after: Contents,
    e: Seq<char>,
    targets: Seq<Seq<char>>,
    t: Seq<char>,
    k: Seq<char>,
)
    requires
        edge_set(before, after, e, targets),
        forall|x: Seq<char>| e != #[trigger] vertex_key(x),
    ensures
        refs_at(after, e) == targets,
        targets.contains(t) ==> refs_at(after, vertex_key(t)).contains(e),
        !targets.contains(t) && refs_at(before, e).contains(t) ==> !refs_at(
            after,
            vertex_key(t),
        ).contains(e) || !is_json_at(before, vertex_key(t)),
        k != e && (forall|x: Seq<char>| k != #[trigger] vertex_key(x)) ==> lookup(after, k) == lookup(
            before,
            k,
        ),
{
    lemma_targets_found(before, after, e, targets);
    let key = vertex_key(t);
    assert(e != key);
    assert(key_after_set(before, after, e, targets, key));
    if targets.contains(t) {
        let i = choose|i: int| 0 <= i < targets.len() && targets[i] == t;
        assert(key == vertex_key(targets[i]));
        lemma_holds_refs(after, key, linked(refs_at(before, key), e));
        lemma_text_contains_push(refs_at(before, key), e, e);
    } else if refs_at(before, e).contains(t) {
        let olds = refs_at(before, e);
        let i = choose|i: int| 0 <= i < olds.len() && olds[i] == t;
        assert(key == vertex_key(olds[i]));
        if is_index_of(key, targets) {
            let j = choose|j: int| 0 <= j < targets.len() && key == vertex_key(#[trigger] targets[j]);
            lemma_vertex_key_injective(t, targets[j]);
        }
        if is_json_at(before, key) {
            let refs = unlinked(refs_at(before, key), e);
            lemma_unlinked_contains(refs_at(before, key), e, e);
            if refs.len() > 0 {
                lemma_holds_refs(after, key, refs);
            }
        }
    }
    if k != e && (forall|x: Seq<char>| k != #[trigger] vertex_key(x)) {
        assert(key_after_set(before, after, e, targets, k));
    }
}

/// Once an edge was removed, it is not found, no vertex that was a target has it in its index, and
/// every other document is as before.
pub proof fn lemma_edge_gone(
    before: Contents,
    after: Contents,
    e: Seq<char>,
    t: Seq<char>,
    k: Seq<char>,
)
    requires
        edge_removed(before, after, e),
        forall|x: Seq<char>| e != #[trigger] vertex_key(x),
    ensures
        lookup(after, e) is None,
        refs_at(before, e).contains(t) && is_json_at(before, vertex_key(t)) ==> !refs_at(
            after,
            vertex_key(t),
        ).contains(e),
        k != e && (forall|x: Seq<char>| k != #[trigger] vertex_key(x)) ==> lookup(after, k) == lookup(
            before,
            k,
        ),
{
    let key = vertex_key(t);
    assert(e != key);
    assert(key_after_removal(before, after, e, key));
    if refs_at(before, e).contains(t) && is_json_at(before, key) {
        let olds = refs_at(before, e);
        let i = choose|i: int| 0 <= i < olds.len() && olds[i] == t;
        assert(key == vertex_key(olds[i]));
        let refs = unlinked(refs_at(before, key), e);
        lemma_unlinked_contains(refs_at(before, key), e, e);
        if refs.len() > 0 {
            lemma_holds_refs(after, key, refs);
        }
    }
    if k != e && (forall|x: Seq<char>| k != #[trigger] vertex_key(x)) {
        assert(key_after_removal(before, after, e, k));
    }
}

/// The fault that is told of documents that are not all JSON is that of the first that is not, and
/// there is no such fault where all are.
pub proof fn lemma_first_fault_told(c: Contents, i: int, message: Seq<char>)
    ensures
        0 <= i < c.len() && (json_parse(c[i].1) is Fault) && (forall|j: int|
            0 <= j < i ==> json_parse((#[trigger] c[j]).1) is Document) ==> (first_fault(c, message)
            <==> json_parse(c[i].1) == Parsed::Fault(message)),
        (forall|j: int| 0 <= j < c.len() ==> json_parse((#[trigger] c[j]).1) is Document)
            ==> !first_fault(c, message),
{
    if 0 <= i < c.len() && (json_parse(c[i].1) is Fault) && (forall|j: int|
        0 <= j < i ==> json_parse((#[trigger] c[j]).1) is Document) {
        if json_parse(c[i].1) == Parsed::Fault(message) {
            assert(all_json(c.take(i)));
        }
        if first_fault(c, message) {
            let k = choose|k: int|
                0 <= k < c.len() && json_parse((#[trigger] c[k]).1) == Parsed::Fault(message) && all_json(
                    c.take(k),
                );
            if k > i {
                assert(c.take(k)[i] == c[i]);
            }
        }
    }
}

/// What is read of a document as the metadata of a run is the metadata of a run that the document
/// holds.
pub proof fn lemma_metadata_of_run(b: Seq<u8>, r: RunRec, d: MetaRec)
    ensures
        holds_run(b, r) ==> holds_meta(b, r.metadata),
        (forall|x: RunRec| #[trigger] holds_run(b, x) ==> x.metadata != d) ==> !holds_meta(b, d),
{
}

/// A link is stored once: it comes behind the others where it is not among them, and changes nothing
/// where it is.
pub proof fn lemma_linked(refs: Seq<Seq<char>>, e: Seq<char>, x: Seq<char>)
    ensures
        linked(refs, e).contains(x) <==> refs.contains(x) || x == e,
        refs.is_prefix_of(linked(refs, e)),
        refs.no_duplicates() ==> linked(refs, e).no_duplicates(),
        linked(linked(refs, e), e) == linked(refs, e),
{
    let more = linked(refs, e);
    assert(more.subrange(0, refs.len() as int) =~= refs);
    if !refs.contains(e) {
        assert(more[refs.len() as int] == e);
        if refs.contains(x) {
            let i = choose|i: int| 0 <= i < refs.len() && refs[i] == x;
            assert(more[i] == x);
        }
        if more.contains(x) && x != e {
            let i = choose|i: int| 0 <= i < more.len() && more[i] == x;
            assert(refs[i] == x);
        }
    }
}

/// A link that is removed is gone wherever it was, and the others stay.
pub proof fn lemma_unlinked(refs: Seq<Seq<char>>, e: Seq<char>, x: Seq<char>)
    ensures
        unlinked(refs, e).contains(x) <==> refs.contains(x) && x != e,
        !refs.contains(e) ==> unlinked(refs, e) == refs,
        refs.no_duplicates() ==> unlinked(refs, e).no_duplicates(),
        !refs.contains(e) ==> unlinked(linked(refs, e), e) == refs,
    decreases refs.len(),
{
    if refs.len() > 0 {
        let front = refs.drop_last();
        let last = refs.last();
        let rest = unlinked(front, e);
        lemma_unlinked(front, e, x);
        lemma_unlinked(front, e, last);
        assert(front.push(last) =~= refs);
        assert(refs[refs.len() - 1] == last);
        assert(refs.contains(x) <==> front.contains(x) || x == last) by {
            if refs.contains(x) {
                let i = choose|i: int| 0 <= i < refs.len() && refs[i] == x;
                if i < front.len() {
                    assert(front[i] == x);
                }
            }
            if front.contains(x) {
                let i = choose|i: int| 0 <= i < front.len() && front[i] == x;
                assert(refs[i] == x);
            }
        }
        if refs.contains(e) == false {
            assert(last != e);
            if front.contains(e) {
                let i = choose|i: int| 0 <= i < front.len() && front[i] == e;
                assert(refs[i] == e);
            }
        }
        if last != e {
            let more = rest.push(last);
            assert(more[rest.len() as int] == last);
            if rest.contains(x) {
                let i = choose|i: int| 0 <= i < rest.len() && rest[i] == x;
                assert(more[i] == x);
            }
            if more.contains(x) && x != last {
                let i = choose|i: int| 0 <= i < more.len() && more[i] == x;
                assert(rest[i] == x);
            }
            if refs.no_duplicates() {
                assert(!front.contains(last)) by {
                    if front.contains(last) {
                        let i = choose|i: int| 0 <= i < front.len() && front[i] == last;
                        assert(refs[i] == refs[refs.len() - 1]);
                    }
                }
                assert(front.no_duplicates());
                assert(!rest.contains(last));
            }
        }
    }
    if !refs.contains(e) {
        assert(refs.push(e).drop_last() =~= refs);
    }
}

} // verus!
