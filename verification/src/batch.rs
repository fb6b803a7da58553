//! Batches of writes for a database that holds the documents of a store.
//!
//! A batch is planned from what the database holds under the keys that it depends on, and is then
//! written at once, so that no reader sees an edge without its indexes.

use crate::json::json_write;
use crate::json::{exact, MAX_JSON_DEPTH};
use crate::record::{run_reads_back, run_rec_orderly, run_times_common, run_tree};
use crate::record::{run_to_json, RunMetadata, RunRecord};
use crate::runtext::holds_run;
use crate::store::{
    all_runs, documents, edge_key, edge_removed, edge_set, first_fault, first_other, hits, holds,
    holds_meta, is_index_of, is_json_at, key_after_removal, key_after_set, lemma_edge_key_apart,
    lemma_index_of_step, lemma_page_grows, lemma_run_bytes, lemma_scan_fault,
    lemma_stale_step, linked, lists, page, reads_back, refs_at, stale, stored, text_trees, unlinked,
    vertex_key, Contents,
};
use crate::store::{
    deserialize_run, edge_storage_key, read_refs, refs_document, refs_without, scan_step,
    vertex_index_key, StoreError,
};
use crate::strmap::StrMap;
use crate::strmap::{
    ascending, lemma_put_ascending, lemma_put_lookup, lemma_without_ascending,
    lemma_without_lookup, lookup, put, without,
};
use crate::text::{begins_with, texts};
use crate::text::{cat, holds_text, starts_with};
use crate::value::Value;
use vstd::prelude::*;

verus! {

/// A write to a database.
#[derive(Debug)]
pub enum Write {
    Put(String, Vec<u8>),
    Delete(String),
}

/// What a write does.
pub enum Effect {
    Put(Seq<char>, Seq<u8>),
    Delete(Seq<char>),
}

impl Write {
    pub open spec fn view(&self) -> Effect {
        match self {
            Write::Put(k, b) => Effect::Put(k@, b@),
            Write::Delete(k) => Effect::Delete(k@),
        }
    }
}

/// What the writes of a batch do.
pub open spec fn effects(batch: Seq<Write>) -> Seq<Effect> {
    Seq::new(batch.len(), |i: int| batch[i]@)
}

/// What a database holds after a batch was written to it.
pub open spec fn applied(c: Contents, batch: Seq<Effect>) -> Contents
    decreases batch.len(),
{
    if batch.len() == 0 {
        c
    } else {
        let before = applied(c, batch.drop_last());
        match batch.last() {
            Effect::Put(k, b) => put(before, k, b),
            Effect::Delete(k) => without(before, k),
        }
    }
}

/// What a batch leaves under a key, if it writes there.
pub open spec fn left(batch: Seq<Effect>, key: Seq<char>) -> Option<Option<Seq<u8>>>
    decreases batch.len(),
{
    if batch.len() == 0 {
        None
    } else {
        match batch.last() {
            Effect::Put(k, b) => if k == key {
                Some(Some(b))
            } else {
                left(batch.drop_last(), key)
            },
            Effect::Delete(k) => if k == key {
                Some(None)
            } else {
                left(batch.drop_last(), key)
            },
        }
    }
}

/// Under each key a database holds what the batch left there, or else what it held before.
pub proof fn lemma_applied(c: Contents, batch: Seq<Effect>, key: Seq<char>)
    requires
        ascending(c),
    ensures
        ascending(applied(c, batch)),
        lookup(applied(c, batch), key) == match left(batch, key) {
            Some(b) => b,
            None => lookup(c, key),
        },
    decreases batch.len(),
{
    if batch.len() > 0 {
        let front = batch.drop_last();
        lemma_applied(c, front, key);
        match batch.last() {
            Effect::Put(k, b) => {
                lemma_put_ascending(applied(c, front), k, b);
                lemma_put_lookup(applied(c, front), k, b, key);
            },
            Effect::Delete(k) => {
                lemma_without_ascending(applied(c, front), k);
                lemma_without_lookup(applied(c, front), k, key);
            },
        }
    }
}

proof fn lemma_left_push(batch: Seq<Effect>, w: Effect, key: Seq<char>)
    ensures
        left(batch.push(w), key) == match w {
            Effect::Put(k, b) => if k == key {
                Some(Some(b))
            } else {
                left(batch, key)
            },
            Effect::Delete(k) => if k == key {
                Some(None)
            } else {
                left(batch, key)
            },
        },
{
    assert(batch.push(w).drop_last() =~= batch);
}

fn plan_write(batch: &mut Vec<Write>, w: Write)
    ensures
        effects(final(batch)@) == effects(old(batch)@).push(w@),
{
    batch.push(w);
    assert(effects(batch@) =~= effects(old(batch)@).push(w@));
}

/// The key of the second copy of a run.
pub open spec fn run_key(run_id: Seq<char>) -> Seq<char> {
    "run:"@ + run_id
}

/// The batch that stores a run under its identifier, and again under another key.
pub fn plan_run_with_key(key: &str, record: &RunRecord) -> (r: Vec<Write>)
    requires
        record.metadata.duration_ms <= u64::MAX,
    ensures
        effects(r@) == seq![
            Effect::Put(key@, stored(run_tree(record@))),
            Effect::Put(record@.metadata.run_id, stored(run_tree(record@))),
        ],
        exact(run_tree(record@), MAX_JSON_DEPTH as nat) ==> reads_back(run_tree(record@)),
        run_rec_orderly(record@),
        run_times_common(record@) ==> run_reads_back(record@),
{
    let bytes = json_write(&run_to_json(record));
    let mut batch: Vec<Write> = Vec::new();
    let again = bytes.clone();
    assert(again@ =~= bytes@);
    plan_write(&mut batch, Write::Put(key.to_owned(), bytes));
    plan_write(&mut batch, Write::Put(record.metadata.run_id.clone(), again));
    assert(effects(batch@) =~= seq![
        Effect::Put(key@, stored(run_tree(record@))),
        Effect::Put(record@.metadata.run_id, stored(run_tree(record@))),
    ]);
    batch
}

/// The batch that stores a run: under its identifier, and among the runs.
pub fn plan_run(record: &RunRecord) -> (r: Vec<Write>)
    requires
        record.metadata.duration_ms <= u64::MAX,
    ensures
        effects(r@) == seq![
            Effect::Put(run_key(record@.metadata.run_id), stored(run_tree(record@))),
            Effect::Put(record@.metadata.run_id, stored(run_tree(record@))),
        ],
        exact(run_tree(record@), MAX_JSON_DEPTH as nat) ==> reads_back(run_tree(record@)),
        run_rec_orderly(record@),
        run_times_common(record@) ==> run_reads_back(record@),
{
    let key = cat("run:", record.metadata.run_id.as_str());
    plan_run_with_key(key.as_str(), record)
}

/// A run that was stored is found under both of its keys, and nothing else changed.
pub proof fn lemma_run_stored_twice(
    c: Contents,
    run_id: Seq<char>,
    document: Seq<u8>,
    other: Seq<char>,
)
    requires
        ascending(c),
    ensures
        ({
            let after = applied(
                c,
                seq![Effect::Put(run_key(run_id), document), Effect::Put(run_id, document)],
            );
            &&& lookup(after, run_id) == Some(document)
            &&& lookup(after, run_key(run_id)) == Some(document)
            &&& other != run_id && other != run_key(run_id) ==> lookup(after, other) == lookup(
                c,
                other,
            )
        }),
{
    let none = Seq::<Effect>::empty();
    let one = none.push(Effect::Put(run_key(run_id), document));
    let two = one.push(Effect::Put(run_id, document));
    assert(two =~= seq![Effect::Put(run_key(run_id), document), Effect::Put(run_id, document)]);
    assert forall|k: Seq<char>| true implies #[trigger] left(two, k) == if k == run_id || k
        == run_key(run_id) {
        Some(Some(document))
    } else {
        None
    } by {
        lemma_left_push(none, Effect::Put(run_key(run_id), document), k);
        lemma_left_push(one, Effect::Put(run_id, document), k);
    }
    lemma_applied(c, two, run_id);
    lemma_applied(c, two, run_key(run_id));
    lemma_applied(c, two, other);
}

/// The documents of a database but for the second copies of runs.
pub open spec fn without_copies(c: Contents) -> Contents
    decreases c.len(),
{
    if c.len() == 0 {
        c
    } else {
        let rest = without_copies(c.drop_last());
        if begins_with(c.last().0, "run:"@) {
            rest
        } else {
            rest.push(c.last())
        }
    }
}

/// The keys and documents of a list of entries.
pub open spec fn entry_views(v: Seq<(String, Vec<u8>)>) -> Contents {
    Seq::new(v.len(), |i: int| (v[i].0@, v[i].1@))
}

/// The metadata of the runs in a database that holds nothing but runs, each of them once.
pub fn list_runs(entries: &Vec<(String, Vec<u8>)>) -> (r: Result<Vec<RunMetadata>, StoreError>)
    ensures
        ({
            let runs = without_copies(entry_views(entries@));
            match r {
                Ok(list) => list@.len() == runs.len() && forall|i: int|
                    0 <= i < runs.len() ==> holds_meta((#[trigger] runs[i]).1, list@[i]@),
                Err(StoreError::Serialization(s)) => first_other(runs, s@),
                Err(StoreError::Storage(_)) => false,
            }
        }),
{
    let ghost all = entry_views(entries@);
    let mut list: Vec<RunMetadata> = Vec::new();
    let mut i: usize = 0;
    assert(all.take(0) =~= Contents::empty());
    while i < entries.len()
        invariant
            i <= entries@.len(),
            all == entry_views(entries@),
            list@.len() == without_copies(all.take(i as int)).len(),
            forall|j: int|
                0 <= j < list@.len() ==> holds_meta(
                    (#[trigger] without_copies(all.take(i as int))[j]).1,
                    list@[j]@,
                ),
            all_runs(without_copies(all.take(i as int))),
        decreases entries.len() - i,
    {
        let ghost before = without_copies(all.take(i as int));
        proof {
            assert(all.take(i + 1).drop_last() =~= all.take(i as int));
            assert(all.take(i + 1).last() == all[i as int]);
        }
        if !starts_with(entries[i].0.as_str(), "run:") {
            match deserialize_run(entries[i].1.as_slice()) {
                Ok(record) => {
                    list.push(record.metadata);
                    proof {
                        assert(holds_run(all[i as int].1, record@));
                        lemma_run_bytes(all[i as int].1, record@);
                        let after = without_copies(all.take(i + 1));
                        assert(after == before.push(all[i as int]));
                        assert forall|j: int| 0 <= j < list@.len() implies holds_meta(
                            (#[trigger] after[j]).1,
                            list@[j]@,
                        ) by {
                            if j < before.len() {
                                assert(after[j] == before[j]);
                            }
                        }
                    }
                },
                Err(e) => {
                    proof {
                        let after = without_copies(all.take(i + 1));
                        assert(after[before.len() as int] == all[i as int]);
                        lemma_copies_prefix(all, i + 1);
                        assert(without_copies(all)[before.len() as int] == all[i as int]);
                        assert(without_copies(all).take(before.len() as int) =~= before) by {
                            assert forall|j: int| 0 <= j < before.len() implies #[trigger]
                            without_copies(all)[j] == before[j] by {
                                assert(after[j] == before[j]);
                            }
                        }
                    }
                    return Err(e);
                },
            }
        }
        i += 1;
    }
    assert(all.take(i as int) =~= all);
    Ok(list)
}

/// The entries of a database whose keys begin with a prefix: those after the first `offset`, at most
/// `limit` of them.
pub fn scan_prefix(
    entries: &Vec<(String, Vec<u8>)>,
    prefix: &str,
    limit: usize,
    offset: usize,
) -> (r: Result<Vec<(String, Value)>, StoreError>)
    ensures
        ({
            let found = page(
                hits(entry_views(entries@), prefix@),
                limit as nat,
                offset as nat,
            );
            match r {
                Ok(list) => lists(list@, found),
                Err(StoreError::Serialization(s)) => first_fault(found, s@),
                Err(StoreError::Storage(_)) => false,
            }
        }),
{
    let ghost c = entry_views(entries@);
    let mut list: Vec<(String, Value)> = Vec::new();
    let mut seen: usize = 0;
    let mut i: usize = 0;
    assert(c.take(0) =~= Contents::empty());
    while i < entries.len() && list.len() < limit
        invariant
            i <= entries@.len(),
            c == entry_views(entries@),
            seen == hits(c.take(i as int), prefix@).len(),
            seen <= i,
            lists(list@, page(hits(c.take(i as int), prefix@), limit as nat, offset as nat)),
        decreases entries.len() - i,
    {
        let ghost done = c.take(i as int);
        assert(c.take(i + 1) =~= done.push(c[i as int]));
        let step = scan_step(
            &mut list,
            &mut seen,
            entries[i].0.as_str(),
            entries[i].1.as_slice(),
            prefix,
            limit,
            offset,
            Ghost(done),
        );
        match step {
            Ok(_) => {},
            Err(e) => {
                proof {
                    lemma_scan_fault(c, prefix@, limit as nat, offset as nat, i as int, list@);
                }
                return Err(e);
            },
        }
        i += 1;
    }
    proof {
        lemma_page_grows(c, prefix@, limit as nat, offset as nat, i as int);
        assert(i == c.len() ==> c.take(i as int) =~= c);
    }
    Ok(list)
}

proof fn lemma_copies_prefix(c: Contents, n: int)
    requires
        0 <= n <= c.len(),
    ensures
        without_copies(c.take(n)).len() <= without_copies(c).len(),
        forall|j: int|
            0 <= j < without_copies(c.take(n)).len() ==> #[trigger] without_copies(c)[j]
                == without_copies(c.take(n))[j],
    decreases c.len(),
{
    if n < c.len() {
        assert(c.drop_last().take(n) =~= c.take(n));
        lemma_copies_prefix(c.drop_last(), n);
    } else {
        assert(c.take(n) =~= c);
    }
}

/// What is left under the key of an index that an edge is taken from, if it is written to.
pub open spec fn unlink_left(c: Contents, key: Seq<char>, e: Seq<char>) -> Option<Option<Seq<u8>>> {
    if is_json_at(c, key) {
        let refs = unlinked(refs_at(c, key), e);
        if refs.len() == 0 {
            Some(None)
        } else {
            Some(Some(stored(text_trees(refs))))
        }
    } else {
        None
    }
}

/// Whether the list that is left when an edge is taken from an index reads back.
pub open spec fn unlink_reads_back(c: Contents, key: Seq<char>, e: Seq<char>) -> bool {
    is_json_at(c, key) && unlinked(refs_at(c, key), e).len() > 0 ==> reads_back(
        text_trees(unlinked(refs_at(c, key), e)),
    )
}

/// Plans to take an edge from an index.
fn plan_unlink(batch: &mut Vec<Write>, found: &StrMap<Vec<u8>>, key: String, e: &str)
    ensures
        forall|k: Seq<char>| #[trigger]
            left(effects(final(batch)@), k) == if k == key@ && unlink_left(
                documents(*found),
                key@,
                e@,
            ) is Some {
                unlink_left(documents(*found), key@, e@)
            } else {
                left(effects(old(batch)@), k)
            },
        unlink_reads_back(documents(*found), key@, e@),
{
    let ghost before = effects(batch@);
    let ghost name = key@;
    match refs_without(found, key.as_str(), e) {
        Some(kept) => {
            assert(texts(kept@).len() == kept@.len());
            if kept.len() == 0 {
                let w = Write::Delete(key);
                plan_write(batch, w);
                assert forall|k: Seq<char>| #[trigger] left(effects(batch@), k) == if k == name {
                    Some(None)
                } else {
                    left(before, k)
                } by {
                    lemma_left_push(before, Effect::Delete(name), k);
                }
            } else {
                let bytes = refs_document(&kept);
                let ghost b = bytes@;
                let w = Write::Put(key, bytes);
                plan_write(batch, w);
                assert forall|k: Seq<char>| #[trigger] left(effects(batch@), k) == if k == name {
                    Some(Some(b))
                } else {
                    left(before, k)
                } by {
                    lemma_left_push(before, Effect::Put(name, b), k);
                }
            }
        },
        None => {},
    }
}

/// Plans to add an edge to an index, unless it is there.
fn plan_link(batch: &mut Vec<Write>, found: &StrMap<Vec<u8>>, key: String, e: &str)
    ensures
        forall|k: Seq<char>| #[trigger]
            left(effects(final(batch)@), k) == if k == key@ {
                Some(Some(stored(text_trees(linked(refs_at(documents(*found), key@), e@)))))
            } else {
                left(effects(old(batch)@), k)
            },
        reads_back(text_trees(linked(refs_at(documents(*found), key@), e@))),
{
    let ghost before = effects(batch@);
    let ghost name = key@;
    let mut refs = read_refs(found, key.as_str());
    let ghost earlier = texts(refs@);
    if !holds_text(&refs, e) {
        refs.push(e.to_owned());
        assert(texts(refs@) =~= earlier.push(e@));
    }
    let bytes = refs_document(&refs);
    let ghost b = bytes@;
    plan_write(batch, Write::Put(key, bytes));
    assert forall|k: Seq<char>| #[trigger] left(effects(batch@), k) == if k == name {
        Some(Some(b))
    } else {
        left(before, k)
    } by {
        lemma_left_push(before, Effect::Put(name, b), k);
    }
}

/// Whether a database holds what was found in it under every key that an edge depends on: its own,
/// and those of the indexes of its earlier and its new targets.
pub open spec fn agrees(
    c: Contents,
    found: Contents,
    e: Seq<char>,
    targets: Seq<Seq<char>>,
) -> bool {
    forall|k: Seq<char>|
        k == e || is_index_of(k, targets) || is_index_of(k, refs_at(found, e)) ==> #[trigger] lookup(
            c,
            k,
        ) == lookup(found, k)
}

/// The keys of the indexes of vertices.
pub open spec fn index_keys(targets: Seq<Seq<char>>) -> Seq<Seq<char>> {
    Seq::new(targets.len(), |i: int| vertex_key(targets[i]))
}

fn push_index_keys(keys: &mut Vec<String>, targets: &Vec<String>)
    ensures
        texts(final(keys)@) == texts(old(keys)@) + index_keys(texts(targets@)),
{
    let ghost all = index_keys(texts(targets@));
    let mut i: usize = 0;
    assert(texts(keys@) =~= texts(old(keys)@) + all.take(0));
    while i < targets.len()
        invariant
            i <= targets@.len(),
            all == index_keys(texts(targets@)),
            texts(keys@) == texts(old(keys)@) + all.take(i as int),
        decreases targets.len() - i,
    {
        let ghost before = texts(keys@);
        let key = vertex_index_key(targets[i].as_str());
        keys.push(key);
        assert(texts(keys@) =~= before.push(all[i as int]));
        assert(texts(keys@) =~= texts(old(keys)@) + all.take(i + 1));
        i += 1;
    }
    assert(all.take(i as int) =~= all);
}

/// The keys that an edge depends on besides its own, by what is found under that: those of the
/// indexes of its earlier targets and of its new ones.
pub fn edge_reads(edge_type: &str, edge_id: &str, targets: &Vec<String>, found: &StrMap<Vec<u8>>) -> (r:
    Vec<String>)
    ensures
        texts(r@) == index_keys(refs_at(documents(*found), edge_key(edge_type@, edge_id@)))
            + index_keys(texts(targets@)),
{
    let e = edge_storage_key(edge_type, edge_id);
    let olds = read_refs(found, e.as_str());
    let mut keys: Vec<String> = Vec::new();
    assert(texts(keys@) =~= Seq::<Seq<char>>::empty());
    push_index_keys(&mut keys, &olds);
    assert(texts(keys@) =~= index_keys(texts(olds@)));
    push_index_keys(&mut keys, targets);
    keys
}

/// What a batch leaves under a key once the first `i` stale indexes were planned.
spec fn unlinks_planned(
    found: Contents,
    batch: Seq<Effect>,
    e: Seq<char>,
    olds: Seq<Seq<char>>,
    targets: Seq<Seq<char>>,
    i: int,
    k: Seq<char>,
) -> bool {
    if stale(k, olds, targets, i) {
        left(batch, k) == unlink_left(found, k, e) && unlink_reads_back(found, k, e)
    } else {
        left(batch, k) is None
    }
}

/// What a batch leaves under a key once stale indexes and the first `i` targets were planned.
spec fn links_planned(
    found: Contents,
    batch: Seq<Effect>,
    e: Seq<char>,
    olds: Seq<Seq<char>>,
    targets: Seq<Seq<char>>,
    i: int,
    k: Seq<char>,
) -> bool {
    if is_index_of(k, targets.take(i)) {
        left(batch, k) == Some(Some(stored(text_trees(linked(refs_at(found, k), e)))))
            && reads_back(text_trees(linked(refs_at(found, k), e)))
    } else {
        unlinks_planned(found, batch, e, olds, targets, olds.len() as int, k)
    }
}

/// The batch that sets the targets of an edge and keeps the indexes of the vertices in step.
pub fn plan_put_edge(
    edge_type: &str,
    edge_id: &str,
    targets: &Vec<String>,
    found: &StrMap<Vec<u8>>,
) -> (r: Vec<Write>)
    ensures
        forall|c: Contents|
            ascending(c) && #[trigger] agrees(
                c,
                documents(*found),
                edge_key(edge_type@, edge_id@),
                texts(targets@),
            ) ==> edge_set(
                c,
                applied(c, effects(r@)),
                edge_key(edge_type@, edge_id@),
                texts(targets@),
            ),
{
    let e = edge_storage_key(edge_type, edge_id);
    let ghost ek = edge_key(edge_type@, edge_id@);
    let ghost c0 = documents(*found);
    let ghost ts = texts(targets@);
    let olds = read_refs(found, e.as_str());
    let ghost os = texts(olds@);
    proof {
        assert forall|t: Seq<char>| ek != #[trigger] vertex_key(t) by {
            lemma_edge_key_apart(edge_type@, edge_id@, t);
        }
    }
    let mut batch: Vec<Write> = Vec::new();
    let document = refs_document(targets);
    let ghost doc = document@;
    assert(effects(batch@) =~= Seq::<Effect>::empty());
    plan_write(&mut batch, Write::Put(e.clone(), document));
    assert forall|k: Seq<char>| #[trigger] left(effects(batch@), k) == if k == ek {
        Some(Some(doc))
    } else {
        None
    } by {
        lemma_left_push(Seq::empty(), Effect::Put(ek, doc), k);
    }
    let mut i: usize = 0;
    while i < olds.len()
        invariant
            i <= olds@.len(),
            e@ == ek,
            c0 == documents(*found),
            os == texts(olds@),
            ts == texts(targets@),
            forall|t: Seq<char>| ek != #[trigger] vertex_key(t),
            left(effects(batch@), ek) == Some(Some(doc)),
            forall|k: Seq<char>|
                k != ek ==> #[trigger] unlinks_planned(
                    c0,
                    effects(batch@),
                    ek,
                    os,
                    ts,
                    i as int,
                    k,
                ),
        decreases olds.len() - i,
    {
        let ghost before = effects(batch@);
        assert(os[i as int] == olds@[i as int]@);
        assert(ek != vertex_key(os[i as int]));
        if !holds_text(targets, olds[i].as_str()) {
            let key = vertex_index_key(olds[i].as_str());
            plan_unlink(&mut batch, found, key, e.as_str());
        }
        proof {
            let after = effects(batch@);
            assert(left(after, ek) == left(before, ek));
            assert forall|k: Seq<char>| k != ek implies #[trigger] unlinks_planned(
                c0,
                after,
                ek,
                os,
                ts,
                i + 1,
                k,
            ) by {
                assert(unlinks_planned(c0, before, ek, os, ts, i as int, k));
                lemma_stale_step(k, os, ts, i as int);
            }
        }
        i += 1;
    }
    let ghost n = os.len() as int;
    proof {
        assert(ts.take(0) =~= Seq::<Seq<char>>::empty());
        assert forall|k: Seq<char>| k != ek implies #[trigger] links_planned(
            c0,
            effects(batch@),
            ek,
            os,
            ts,
            0,
            k,
        ) by {
            assert(unlinks_planned(c0, effects(batch@), ek, os, ts, n, k));
        }
    }
    let mut i: usize = 0;
    while i < targets.len()
        invariant
            i <= targets@.len(),
            e@ == ek,
            c0 == documents(*found),
            ts == texts(targets@),
            n == os.len(),
            forall|t: Seq<char>| ek != #[trigger] vertex_key(t),
            left(effects(batch@), ek) == Some(Some(doc)),
            forall|k: Seq<char>|
                k != ek ==> #[trigger] links_planned(
                    c0,
                    effects(batch@),
                    ek,
                    os,
                    ts,
                    i as int,
                    k,
                ),
        decreases targets.len() - i,
    {
        let ghost before = effects(batch@);
        assert(ts[i as int] == targets@[i as int]@);
        assert(ek != vertex_key(ts[i as int]));
        let key = vertex_index_key(targets[i].as_str());
        plan_link(&mut batch, found, key, e.as_str());
        proof {
            let after = effects(batch@);
            assert(left(after, ek) == left(before, ek));
            assert forall|k: Seq<char>| k != ek implies #[trigger] links_planned(
                c0,
                after,
                ek,
                os,
                ts,
                i + 1,
                k,
            ) by {
                assert(links_planned(c0, before, ek, os, ts, i as int, k));
                lemma_index_of_step(k, ts, i as int);
            }
        }
        i += 1;
    }
    proof {
        let w = effects(batch@);
        assert(ts.take(i as int) =~= ts);
        assert forall|c: Contents|
            ascending(c) && #[trigger] agrees(c, c0, ek, ts) implies edge_set(
            c,
            applied(c, w),
            ek,
            ts,
        ) by {
            let after = applied(c, w);
            assert(lookup(c, ek) == lookup(c0, ek));
            assert(refs_at(c, ek) == os);
            lemma_applied(c, w, ek);
            assert(holds(after, ek, ts));
            assert forall|k: Seq<char>| k != ek implies #[trigger] key_after_set(
                c,
                after,
                ek,
                ts,
                k,
            ) by {
                lemma_applied(c, w, k);
                assert(links_planned(c0, w, ek, os, ts, i as int, k));
                if is_index_of(k, ts) {
                    assert(lookup(c, k) == lookup(c0, k));
                } else if is_index_of(k, os) {
                    assert(lookup(c, k) == lookup(c0, k));
                    let j = choose|j: int| 0 <= j < os.len() && k == vertex_key(#[trigger] os[j]);
                    if ts.contains(os[j]) {
                        let l = choose|l: int| 0 <= l < ts.len() && ts[l] == os[j];
                        assert(k == vertex_key(ts[l]));
                    }
                    assert(stale(k, os, ts, n));
                } else {
                    if stale(k, os, ts, n) {
                        let j = choose|j: int|
                            0 <= j < n && !ts.contains(os[j]) && k == vertex_key(#[trigger] os[j]);
                        assert(is_index_of(k, os));
                    }
                }
            }
        }
    }
    batch
}

/// The batch that removes an edge and keeps the indexes of the vertices in step. What is stored
/// under the key of the edge and is not JSON is left alone.
pub fn plan_delete_edge(edge_type: &str, edge_id: &str, found: &StrMap<Vec<u8>>) -> (r: Vec<Write>)
    ensures
        is_json_at(documents(*found), edge_key(edge_type@, edge_id@)) ==> forall|c: Contents|
            ascending(c) && #[trigger] agrees(
                c,
                documents(*found),
                edge_key(edge_type@, edge_id@),
                Seq::empty(),
            ) ==> edge_removed(c, applied(c, effects(r@)), edge_key(edge_type@, edge_id@)),
        !is_json_at(documents(*found), edge_key(edge_type@, edge_id@)) ==> r@.len() == 0,
{
    let e = edge_storage_key(edge_type, edge_id);
    let ghost ek = edge_key(edge_type@, edge_id@);
    let ghost c0 = documents(*found);
    let ghost none = Seq::<Seq<char>>::empty();
    let mut batch: Vec<Write> = Vec::new();
    match refs_without(found, e.as_str(), e.as_str()) {
        Some(_) => {},
        None => {
            return batch;
        },
    }
    let olds = read_refs(found, e.as_str());
    let ghost os = texts(olds@);
    proof {
        assert forall|t: Seq<char>| ek != #[trigger] vertex_key(t) by {
            lemma_edge_key_apart(edge_type@, edge_id@, t);
        }
    }
    assert(effects(batch@) =~= Seq::<Effect>::empty());
    plan_write(&mut batch, Write::Delete(e.clone()));
    assert forall|k: Seq<char>| #[trigger] left(effects(batch@), k) == if k == ek {
        Some(None::<Seq<u8>>)
    } else {
        None
    } by {
        lemma_left_push(Seq::empty(), Effect::Delete(ek), k);
    }
    let mut i: usize = 0;
    while i < olds.len()
        invariant
            i <= olds@.len(),
            e@ == ek,
            c0 == documents(*found),
            os == texts(olds@),
            none == Seq::<Seq<char>>::empty(),
            forall|t: Seq<char>| ek != #[trigger] vertex_key(t),
            left(effects(batch@), ek) == Some(None::<Seq<u8>>),
            forall|k: Seq<char>|
                k != ek ==> #[trigger] unlinks_planned(
                    c0,
                    effects(batch@),
                    ek,
                    os,
                    none,
                    i as int,
                    k,
                ),
        decreases olds.len() - i,
    {
        let ghost before = effects(batch@);
        assert(os[i as int] == olds@[i as int]@);
        assert(ek != vertex_key(os[i as int]));
        let key = vertex_index_key(olds[i].as_str());
        plan_unlink(&mut batch, found, key, e.as_str());
        proof {
            let after = effects(batch@);
            assert(left(after, ek) == left(before, ek));
            assert forall|k: Seq<char>| k != ek implies #[trigger] unlinks_planned(
                c0,
                after,
                ek,
                os,
                none,
                i + 1,
                k,
            ) by {
                assert(unlinks_planned(c0, before, ek, os, none, i as int, k));
                lemma_stale_step(k, os, none, i as int);
            }
        }
        i += 1;
    }
    proof {
        let w = effects(batch@);
        assert forall|c: Contents|
            ascending(c) && #[trigger] agrees(c, c0, ek, none) implies edge_removed(
            c,
            applied(c, w),
            ek,
        ) by {
            let after = applied(c, w);
            assert(lookup(c, ek) == lookup(c0, ek));
            assert(refs_at(c, ek) == os);
            lemma_applied(c, w, ek);
            assert forall|k: Seq<char>| k != ek implies #[trigger] key_after_removal(
                c,
                after,
                ek,
                k,
            ) by {
                lemma_applied(c, w, k);
                assert(unlinks_planned(c0, w, ek, os, none, i as int, k));
                if is_index_of(k, os) {
                    assert(lookup(c, k) == lookup(c0, k));
                    let j = choose|j: int| 0 <= j < os.len() && k == vertex_key(#[trigger] os[j]);
                    assert(stale(k, os, none, os.len() as int));
                } else {
                    if stale(k, os, none, os.len() as int) {
                        let j = choose|j: int|
                            0 <= j < os.len() && !none.contains(os[j]) && k == vertex_key(
                                #[trigger] os[j],
                            );
                        assert(is_index_of(k, os));
                    }
                }
            }
        }
    }
    batch
}

proof fn lemma_copy_source(c: Contents, j: int) -> (i: int)
    requires
        0 <= j < without_copies(c).len(),
    ensures
        0 <= i < c.len(),
        without_copies(c)[j] == c[i],
        !begins_with(c[i].0, "run:"@),
    decreases c.len(),
{
    let rest = without_copies(c.drop_last());
    if j < rest.len() {
        lemma_copy_source(c.drop_last(), j)
    } else {
        c.len() - 1
    }
}

/// Of the documents those count whose key does not begin with `run:`, each of them once and in their
/// order; the key of a copy begins with `run:` and ends with the identifier of the run.
pub proof fn lemma_copies_left_out(c: Contents, entry: (Seq<char>, Seq<u8>))
    ensures
        without_copies(c).contains(entry) <==> c.contains(entry) && !begins_with(entry.0, "run:"@),
        !begins_with(entry.0, "run:"@) ==> without_copies(c.push(entry)) == without_copies(c).push(entry),
        begins_with(entry.0, "run:"@) ==> without_copies(c.push(entry)) == without_copies(c),
        run_key(entry.0).take(4) == seq!['r', 'u', 'n', ':'],
        run_key(entry.0).skip(4) == entry.0,
    decreases c.len(),
{
    reveal_strlit("run:");
    assert(run_key(entry.0).take(4) =~= seq!['r', 'u', 'n', ':']);
    assert(run_key(entry.0).skip(4) =~= entry.0);
    assert(c.push(entry).drop_last() =~= c);
    if without_copies(c).contains(entry) {
        let w = without_copies(c);
        let j = choose|j: int| 0 <= j < w.len() && w[j] == entry;
        let i = lemma_copy_source(c, j);
    }
    if c.contains(entry) && !begins_with(entry.0, "run:"@) {
        let i = choose|i: int| 0 <= i < c.len() && c[i] == entry;
        let w = without_copies(c);
        let front = c.drop_last();
        if i < front.len() {
            lemma_copies_left_out(front, entry);
            assert(front[i] == entry);
            assert(front.contains(entry));
            let f = without_copies(front);
            let j = choose|j: int| 0 <= j < f.len() && f[j] == entry;
            assert(w[j] == entry);
        } else {
            assert(w[w.len() - 1] == entry);
        }
    }
}

/// What the removal of a link leaves under a key: nothing is done where no list of links is stored; the
/// key goes where no link but that one is in it; and otherwise the other links are stored.
pub proof fn lemma_links_left(c: Contents, key: Seq<char>, e: Seq<char>)
    ensures
        unlink_left(c, key, e) is Some <==> is_json_at(c, key),
        is_json_at(c, key) ==> (unlink_left(c, key, e) == Some(None::<Seq<u8>>) <==> forall|i: int|
            0 <= i < refs_at(c, key).len() ==> #[trigger] refs_at(c, key)[i] == e),
        unlink_left(c, key, e) matches Some(Some(b)) ==> b == stored(
            text_trees(unlinked(refs_at(c, key), e)),
        ),
{
    lemma_none_left(refs_at(c, key), e);
}

proof fn lemma_none_left(refs: Seq<Seq<char>>, e: Seq<char>)
    ensures
        unlinked(refs, e).len() == 0 <==> forall|i: int| 0 <= i < refs.len() ==> #[trigger] refs[i] == e,
    decreases refs.len(),
{
    if refs.len() > 0 {
        let front = refs.drop_last();
        lemma_none_left(front, e);
        if unlinked(refs, e).len() == 0 {
            assert forall|i: int| 0 <= i < refs.len() implies #[trigger] refs[i] == e by {
                if i < front.len() {
                    assert(front[i] == refs[i]);
                }
            }
        }
        if forall|i: int| 0 <= i < refs.len() ==> #[trigger] refs[i] == e {
            assert forall|i: int| 0 <= i < front.len() implies #[trigger] front[i] == e by {
                assert(front[i] == refs[i]);
            }
            assert(refs[refs.len() - 1] == e);
        }
    }
}

} // verus!
