//! The runtime: its store, its engines and its vertices.

use crate::ids::IdMapper;
use crate::json::{json_parse, Parsed};
use crate::namespace::app_scope;
use crate::namespace::InstanceNamespace;
use crate::store::{
    all_scoped, all_unscoped, edge_key, edge_set, first_fault, hits, holds_value,
    key_after_set, lemma_edge_key_apart, lemma_holds_refs, lemma_run_found, lemma_targets_found,
    lemma_text_contains_push, lemma_texts_listed, linked, listed_in, page, reads_back, refs_at,
    scoped, stored, text_trees, unscoped, vertex_key, Contents,
};
use crate::config::{config_fault, ConfigFault, PipelineSpec};
use crate::json::{exact, MAX_JSON_DEPTH};
use crate::record::{
    plain_run, run_reads_back, run_rec_orderly, run_times_common, run_tree, NodeStatus, RunRec,
    RunStatus,
};
use crate::record::{RunRecord, Timestamp};
use crate::schedule::{
    has_completed, lemma_course, lemma_end, lemma_few_records, lemma_record_node, run_record_of,
    runs, RunState,
};
use crate::schedule::PipelineRun;
use crate::runtext::{holds_run, run_bytes};
use crate::store::{text_list, Store, StoreError};
use crate::strmap::StrMap;
use crate::strmap::{ascending, lemma_put_lookup, lookup, put};
use crate::text::{holds_text, size_text, split_at_char, starts_with, strip};
use crate::text::{
    begins_with, lemma_split_once, lemma_text_lt_at, numeral, split_once, stripped, text_lt, texts,
};
use crate::value::{bind, copy_value, Value};
use crate::value::{lemma_dict_view, list_view, pair_vals, vals, Val};
use crate::yaml::{pipeline_tree, yaml_text, YamlShown};
use vstd::prelude::*;

verus! {

/// The type and the identifier of the edge that a reference names.
pub open spec fn edge_ref_parts(edge_ref: Seq<char>) -> Option<(Seq<char>, Seq<char>)> {
    if begins_with(edge_ref, "edge:"@) {
        split_once(stripped(edge_ref, "edge:"@), ':')
    } else {
        None
    }
}

/// Reads a reference to an edge.
pub fn parse_edge_ref(edge_ref: &str) -> (r: Option<(String, String)>)
    ensures
        match r {
            Some(p) => edge_ref_parts(edge_ref@) == Some((p.0@, p.1@)),
            None => edge_ref_parts(edge_ref@) is None,
        },
{
    if !starts_with(edge_ref, "edge:") {
        return None;
    }
    split_at_char(strip(edge_ref, "edge:").as_str(), ':')
}

/// The key of an edge whose type holds no colon names that edge.
pub proof fn lemma_edge_ref_parts(edge_type: Seq<char>, edge_id: Seq<char>)
    requires
        !edge_type.contains(':'),
    ensures
        edge_ref_parts(edge_key(edge_type, edge_id)) == Some((edge_type, edge_id)),
{
    let k = edge_key(edge_type, edge_id);
    let p = "edge:"@;
    let rest = edge_type + ":"@ + edge_id;
    reveal_strlit(":");
    assert(":"@.len() == 1 && ":"@[0] == ':');
    assert(k =~= p + rest);
    assert(k.subrange(0, p.len() as int) =~= p);
    assert(k.subrange(p.len() as int, k.len() as int) =~= rest);
    let n = edge_type.len() as int;
    assert(rest[n] == ':');
    assert forall|j: int| 0 <= j < n implies rest[j] != ':' by {
        assert(rest[j] == edge_type[j]);
        assert(edge_type.contains(edge_type[j]));
    }
    lemma_split_once(rest, ':', n);
    assert(rest.take(n) =~= edge_type);
    assert(rest.skip(n + 1) =~= edge_id);
}

/// The texts of a list as values.
pub open spec fn text_vals(s: Seq<Seq<char>>) -> Seq<Val> {
    Seq::new(s.len(), |i: int| Val::Text(s[i]))
}

/// The row that tells of an edge.
pub open spec fn edge_row(
    edge_type: Seq<char>,
    edge_id: Seq<char>,
    members: Seq<Seq<char>>,
    target: Seq<char>,
) -> Val {
    Val::Object(
        seq![
            ("edge_id"@, Val::Text(edge_id)),
            ("edge_type"@, Val::Text(edge_type)),
            ("members"@, Val::List(text_vals(members))),
            ("target_vertex"@, Val::Text(target)),
        ],
    )
}

/// The row that tells of a reference that names no edge.
pub open spec fn malformed_row(edge_ref: Seq<char>) -> Val {
    Val::Object(
        seq![
            ("edge_reference"@, Val::Text(edge_ref)),
            ("error"@, Val::Text("malformed edge reference"@)),
        ],
    )
}

/// The rows for references to edges: one for each edge that is stored and one for each reference
/// that names no edge. Where an edge cannot be read there are none, but what is said of it.
pub open spec fn relation_rows(
    c: Contents,
    scopes: Seq<Seq<char>>,
    target: Seq<char>,
    refs: Seq<Seq<char>>,
) -> Result<Seq<Val>, Seq<char>>
    decreases refs.len(),
{
    if refs.len() == 0 {
        Ok(Seq::empty())
    } else {
        match relation_rows(c, scopes, target, refs.drop_last()) {
            Err(e) => Err(e),
            Ok(rows) => match edge_ref_parts(refs.last()) {
                None => Ok(rows.push(malformed_row(refs.last()))),
                Some((t, id)) => match lookup(c, edge_key(scoped(scopes, t), id)) {
                    None => Ok(rows),
                    Some(b) => match json_parse(b) {
                        Parsed::Document(_) => Ok(
                            rows.push(
                                edge_row(t, id, all_unscoped(scopes, listed_in(b)), target),
                            ),
                        ),
                        Parsed::Fault(e) => Err(e),
                    },
                },
            },
        }
    }
}

/// The rows for the edges of a vertex, or what is said where they cannot be read.
pub open spec fn relations(
    c: Contents,
    scopes: Seq<Seq<char>>,
    target: Seq<char>,
) -> Result<Seq<Val>, Seq<char>> {
    match lookup(c, vertex_key(scoped(scopes, target))) {
        None => Ok(Seq::empty()),
        Some(b) => match json_parse(b) {
            Parsed::Document(_) => relation_rows(
                c,
                scopes,
                target,
                all_unscoped(scopes, listed_in(b)),
            ),
            Parsed::Fault(e) => Err(e),
        },
    }
}

fn make_edge_row(edge_type: &str, edge_id: &str, members: &Vec<String>, target: &str) -> (r: Value)
    ensures
        r@ == edge_row(edge_type@, edge_id@, texts(members@), target@),
{
    let mut row: StrMap<Value> = StrMap::new();
    assert(pair_vals(row.pairs()) =~= Seq::<(Seq<char>, Val)>::empty());
    bind(&mut row, "edge_type", Value::String(edge_type.to_owned()));
    let ghost s1 = pair_vals(row.pairs());
    bind(&mut row, "edge_id", Value::String(edge_id.to_owned()));
    let ghost s2 = pair_vals(row.pairs());
    bind(&mut row, "target_vertex", Value::String(target.to_owned()));
    let ghost s3 = pair_vals(row.pairs());
    let list = text_list(members);
    assert(list@ == Val::List(text_vals(texts(members@)))) by {
        assert(list@->List_0 =~= text_vals(texts(members@)));
    }
    bind(&mut row, "members", list);
    proof {
        reveal_strlit("edge_type");
        reveal_strlit("edge_id");
        reveal_strlit("target_vertex");
        reveal_strlit("members");
        lemma_text_lt_at("edge_id"@, "edge_type"@, 5);
        lemma_text_lt_at("edge_type"@, "members"@, 0);
        lemma_text_lt_at("edge_type"@, "target_vertex"@, 0);
        lemma_text_lt_at("edge_id"@, "members"@, 0);
        lemma_text_lt_at("edge_id"@, "target_vertex"@, 0);
        lemma_text_lt_at("members"@, "target_vertex"@, 0);
        assert(!text_lt("target_vertex"@, "edge_id"@) && !text_lt("target_vertex"@, "edge_type"@));
        assert(!text_lt("members"@, "edge_id"@) && !text_lt("members"@, "edge_type"@));
        assert("edge_id"@.len() == 7 && "edge_type"@.len() == 9);
        reveal_with_fuel(put, 5);
        let ty = ("edge_type"@, Val::Text(edge_type@));
        let id = ("edge_id"@, Val::Text(edge_id@));
        let tg = ("target_vertex"@, Val::Text(target@));
        assert(s1 =~= seq![ty]);
        assert(s2 =~= seq![id, ty]);
        assert(s3 =~= seq![id, ty, tg]);
        assert(pair_vals(row.pairs()) =~= edge_row(
            edge_type@,
            edge_id@,
            texts(members@),
            target@,
        )->Object_0);
        lemma_dict_view(row);
    }
    Value::Object(row)
}

fn make_malformed_row(edge_ref: &str) -> (r: Value)
    ensures
        r@ == malformed_row(edge_ref@),
{
    let mut row: StrMap<Value> = StrMap::new();
    assert(pair_vals(row.pairs()) =~= Seq::<(Seq<char>, Val)>::empty());
    bind(&mut row, "edge_reference", Value::String(edge_ref.to_owned()));
    let ghost s1 = pair_vals(row.pairs());
    bind(&mut row, "error", Value::String("malformed edge reference".to_owned()));
    proof {
        reveal_strlit("edge_reference");
        reveal_strlit("error");
        lemma_text_lt_at("edge_reference"@, "error"@, 1);
        crate::text::lemma_text_lt_irreflexive("error"@);
        if text_lt("error"@, "edge_reference"@) {
            crate::text::lemma_text_lt_transitive("error"@, "edge_reference"@, "error"@);
        }
        reveal_with_fuel(put, 3);
        assert(s1 =~= seq![("edge_reference"@, Val::Text(edge_ref@))]);
        assert(pair_vals(row.pairs()) =~= malformed_row(edge_ref@)->Object_0);
        lemma_dict_view(row);
    }
    Value::Object(row)
}

/// A store, the names of the engines that are registered, and the numbers of the vertices.
pub struct Runtime<S: Store> {
    pub version: String,
    pub store: S,
    pub engines: Vec<String>,
    pub id_mapper: IdMapper,
}

impl<S: Store> Runtime<S> {
    /// A runtime on a store, without engines.
    pub fn new(store: S) -> (r: Runtime<S>)
        ensures
            r.version@ == "0.1.0"@,
            r.store == store,
            r.engines@.len() == 0,
            r.id_mapper@.len() == 0,
    {
        Runtime {
            version: "0.1.0".to_owned(),
            store,
            engines: Vec::new(),
            id_mapper: IdMapper::default(),
        }
    }

    /// A runtime on the part of a store that is set aside for an application, without engines.
    pub fn new_with_namespace(store: S, dapp_id: &str) -> (r: Runtime<InstanceNamespace<S>>)
        ensures
            r.version@ == "0.1.0"@,
            r.store.inner == store,
            r.store.prefix@ == app_scope(dapp_id@),
            r.engines@.len() == 0,
            r.id_mapper@.len() == 0,
    {
        Runtime::new(InstanceNamespace::new(store, dapp_id))
    }

    /// Registers an engine under a name.
    pub fn register_engine(&mut self, name: String)
        ensures
            texts(final(self).engines@) == if texts(old(self).engines@).contains(name@) {
                texts(old(self).engines@)
            } else {
                texts(old(self).engines@).push(name@)
            },
            final(self).version == old(self).version,
            final(self).store == old(self).store,
            final(self).id_mapper == old(self).id_mapper,
    {
        let ghost before = texts(self.engines@);
        if !holds_text(&self.engines, name.as_str()) {
            self.engines.push(name);
            assert(texts(self.engines@) =~= before.push(name@));
        }
    }

    /// The number of a vertex; one that has none gets the next.
    pub fn register_vertex_id(&mut self, vertex_id: &str) -> (r: usize)
        ensures
            r < final(self).id_mapper@.len(),
            final(self).id_mapper@[r as int] == vertex_id@,
            final(self).id_mapper@ == registered(old(self).id_mapper@, vertex_id@),
            final(self).version == old(self).version,
            final(self).store == old(self).store,
            final(self).engines == old(self).engines,
    {
        self.id_mapper.register_id(vertex_id)
    }

    /// The number of a vertex.
    pub fn resolve_vertex_id(&self, vertex_id: &str) -> (r: Option<usize>)
        ensures
            match r {
                Some(i) => i < self.id_mapper@.len() && self.id_mapper@[i as int] == vertex_id@,
                None => !self.id_mapper@.contains(vertex_id@),
            },
    {
        self.id_mapper.resolve_id(vertex_id)
    }

    /// The vertex with that number.
    pub fn resolve_vertex_index(&self, index: usize) -> (r: Option<String>)
        ensures
            match r {
                Some(id) => index < self.id_mapper@.len() && self.id_mapper@[index as int] == id@,
                None => index >= self.id_mapper@.len(),
            },
    {
        match self.id_mapper.resolve_index(index) {
            Some(id) => Some(id.to_owned()),
            None => None,
        }
    }

    /// Forgets the number of a vertex. The numbers after it move up by one.
    pub fn deregister_vertex_id(&mut self, vertex_id: &str) -> (r: bool)
        ensures
            r == old(self).id_mapper@.contains(vertex_id@),
            if r {
                exists|i: int|
                    0 <= i < old(self).id_mapper@.len() && #[trigger] old(self).id_mapper@[i]
                        == vertex_id@ && final(self).id_mapper@ == old(self).id_mapper@.remove(i)
            } else {
                final(self).id_mapper@ == old(self).id_mapper@
            },
            final(self).version == old(self).version,
            final(self).store == old(self).store,
            final(self).engines == old(self).engines,
    {
        self.id_mapper.remove_id(vertex_id)
    }
}

/// The identifiers once one more was registered.
pub open spec fn registered(ids: Seq<Seq<char>>, id: Seq<char>) -> Seq<Seq<char>> {
    if ids.contains(id) {
        ids
    } else {
        ids.push(id)
    }
}

/// The identifiers once some more were registered, in order.
pub open spec fn all_registered(ids: Seq<Seq<char>>, more: Seq<Seq<char>>) -> Seq<Seq<char>>
    decreases more.len(),
{
    if more.len() == 0 {
        ids
    } else {
        registered(all_registered(ids, more.drop_last()), more.last())
    }
}

/// The identifiers that values serve as.
pub open spec fn id_texts(v: Seq<Val>) -> Seq<Seq<char>> {
    Seq::new(v.len(), |i: int| crate::json::id_text(v[i]))
}

impl<S: Store> Runtime<S> {
    /// Numbers the vertices of an edge and stores the edge.
    pub fn register_hyperedge(&mut self, edge_type: &str, edge_id: &str, targets: &Vec<Value>) -> (r:
        Result<(), StoreError>)
        ensures
            final(self).version == old(self).version,
            final(self).engines == old(self).engines,
            final(self).id_mapper@ == all_registered(
                old(self).id_mapper@,
                id_texts(vals(targets@)),
            ),
            final(self).store.scopes() == old(self).store.scopes(),
            final(self).store.infallible() == old(self).store.infallible(),
            match r {
                Ok(_) => ascending(final(self).store.contents()) && edge_set(
                    old(self).store.contents(),
                    final(self).store.contents(),
                    edge_key(scoped(old(self).store.scopes(), edge_type@), edge_id@),
                    all_scoped(old(self).store.scopes(), id_texts(vals(targets@))),
                ),
                Err(e) => e is Storage && !old(self).store.infallible(),
            },
    {
        let ghost ids = id_texts(vals(targets@));
        let mut collection: Vec<String> = Vec::new();
        let mut i: usize = 0;
        while i < targets.len()
            invariant
                i <= targets@.len(),
                collection@.len() == i,
                ids == id_texts(vals(targets@)),
                forall|j: int| 0 <= j < i ==> (#[trigger] collection@[j])@ == ids[j],
            decreases targets.len() - i,
        {
            collection.push(targets[i].normalize_to_id_string());
            i += 1;
        }
        assert(texts(collection@) =~= ids);
        let mut i: usize = 0;
        assert(ids.take(0) =~= Seq::<Seq<char>>::empty());
        while i < collection.len()
            invariant
                i <= collection@.len(),
                ids == texts(collection@),
                self.version == old(self).version,
                self.engines == old(self).engines,
                self.store == old(self).store,
                self.id_mapper@ == all_registered(old(self).id_mapper@, ids.take(i as int)),
            decreases collection.len() - i,
        {
            proof {
                assert(ids.take(i + 1).drop_last() =~= ids.take(i as int));
                assert(ids.take(i + 1).last() == collection@[i as int]@);
            }
            let index: usize = self.register_vertex_id(collection[i].as_str());
            i += 1;
        }
        assert(ids.take(i as int) =~= ids);
        self.store.put_edge(edge_type, edge_id, &collection)
    }

    /// The edges of a vertex, as a table of rows.
    pub fn host_query_vertex_relations(&self, target_id: &str) -> (r: Result<Value, StoreError>)
        ensures
            match r {
                Ok(v) => v@ is Table && relations(
                    self.store.contents(),
                    self.store.scopes(),
                    target_id@,
                ) == Result::<Seq<Val>, Seq<char>>::Ok(v@->Table_0),
                Err(StoreError::Serialization(s)) => relations(
                    self.store.contents(),
                    self.store.scopes(),
                    target_id@,
                ) == Result::<Seq<Val>, Seq<char>>::Err(s@),
                Err(StoreError::Storage(_)) => !self.store.infallible(),
            },
    {
        let ghost c = self.store.contents();
        let ghost sc = self.store.scopes();
        let edge_refs = match self.store.get_vertex_edges(target_id) {
            Ok(refs) => refs,
            Err(e) => {
                return Err(e);
            },
        };
        let ghost refs = texts(edge_refs@);
        proof {
            if lookup(c, vertex_key(scoped(sc, target_id@))) is None {
                assert(refs =~= Seq::<Seq<char>>::empty());
            }
            assert(relations(c, sc, target_id@) == relation_rows(c, sc, target_id@, refs));
        }
        let mut rows: Vec<Value> = Vec::new();
        let mut i: usize = 0;
        assert(refs.take(0) =~= Seq::<Seq<char>>::empty());
        assert(list_view(rows) =~= Seq::<Val>::empty());
        while i < edge_refs.len()
            invariant
                i <= edge_refs@.len(),
                refs == texts(edge_refs@),
                c == self.store.contents(),
                sc == self.store.scopes(),
                relations(c, sc, target_id@) == relation_rows(c, sc, target_id@, refs),
                relation_rows(c, sc, target_id@, refs.take(i as int)) == Result::<
                    Seq<Val>,
                    Seq<char>,
                >::Ok(list_view(rows)),
            decreases edge_refs.len() - i,
        {
            let ghost earlier = list_view(rows);
            proof {
                assert(refs.take(i + 1).drop_last() =~= refs.take(i as int));
                assert(refs.take(i + 1).last() == edge_refs@[i as int]@);
            }
            match parse_edge_ref(edge_refs[i].as_str()) {
                Some((edge_type, edge_id)) => {
                    match self.store.get_edge_targets(edge_type.as_str(), edge_id.as_str()) {
                        Ok(Some(targets)) => {
                            let row = make_edge_row(
                                edge_type.as_str(),
                                edge_id.as_str(),
                                &targets,
                                target_id,
                            );
                            rows.push(row);
                            assert(list_view(rows) =~= earlier.push(row@));
                        },
                        Ok(None) => {},
                        Err(e) => {
                            proof {
                                if e is Serialization {
                                    lemma_rows_fault(c, sc, target_id@, refs, i + 1);
                                }
                            }
                            return Err(e);
                        },
                    }
                },
                None => {
                    let row = make_malformed_row(edge_refs[i].as_str());
                    rows.push(row);
                    assert(list_view(rows) =~= earlier.push(row@));
                },
            }
            i += 1;
        }
        assert(refs.take(i as int) =~= refs);
        Ok(Value::Table(rows))
    }

    /// The entries whose keys begin with a prefix: those after the first `offset`, at most `limit`.
    pub fn scan_store_prefix(&self, prefix: &str, limit: usize, offset: usize) -> (r: Result<
        Vec<(String, Value)>,
        StoreError,
    >)
        ensures
            ({
                let found = page(
                    hits(self.store.contents(), scoped(self.store.scopes(), prefix@)),
                    limit as nat,
                    offset as nat,
                );
                match r {
                    Ok(list) => list@.len() == found.len() && forall|i: int|
                        0 <= i < found.len() ==> (#[trigger] list@[i]).0@ == unscoped(
                            self.store.scopes(),
                            found[i].0,
                        ) && holds_value(found[i].1, list@[i].1@),
                    Err(StoreError::Serialization(s)) => first_fault(found, s@),
                    Err(StoreError::Storage(_)) => !self.store.infallible(),
                }
            }),
    {
        self.store.scan_prefix(prefix, limit, offset)
    }

    /// The edges of a vertex, as rows under their numbers.
    pub fn query_vertex_relations(&self, target_id: &str) -> (r: Result<
        Vec<(String, Value)>,
        StoreError,
    >)
        ensures
            match r {
                Ok(list) => relations(
                    self.store.contents(),
                    self.store.scopes(),
                    target_id@,
                ) matches Ok(rows) && list@.len() == rows.len() && forall|i: int|
                    0 <= i < rows.len() ==> (#[trigger] list@[i]).0@ == numeral(i as nat)
                        && list@[i].1@ == rows[i],
                Err(StoreError::Serialization(s)) => relations(
                    self.store.contents(),
                    self.store.scopes(),
                    target_id@,
                ) == Result::<Seq<Val>, Seq<char>>::Err(s@),
                Err(StoreError::Storage(_)) => !self.store.infallible(),
            },
    {
        let table = match self.host_query_vertex_relations(target_id) {
            Ok(table) => table,
            Err(e) => {
                return Err(e);
            },
        };
        let mut list: Vec<(String, Value)> = Vec::new();
        match table.as_list() {
            Some(rows) => {
                let mut i: usize = 0;
                while i < rows.len()
                    invariant
                        i <= rows@.len(),
                        list@.len() == i,
                        forall|j: int|
                            0 <= j < i ==> (#[trigger] list@[j]).0@ == numeral(j as nat)
                                && list@[j].1@ == rows@[j]@,
                    decreases rows.len() - i,
                {
                    list.push((size_text(i), copy_value(&rows[i])));
                    i += 1;
                }
            },
            None => {},
        }
        Ok(list)
    }
}

/// Why the record of a run was not stored.
#[derive(Debug)]
pub enum ConcludeError {
    /// The configuration could not be written.
    Snapshot(String),
    /// The store refused the record.
    Store(StoreError),
}

/// Whether that is the record of a run that was done, storing it under the identifier of the run
/// made what was held before into what is held after, and it can be read back: as long as it can be
/// read back exactly, its document is, and its instants are if they are common ones.
pub open spec fn recorded(
    s: RunState,
    run_id: Seq<char>,
    start_time: Timestamp,
    end_time: Timestamp,
    duration_ms: u128,
    ancestor_run_id: Option<u128>,
    before: Contents,
    after: Contents,
    d: RunRec,
) -> bool {
    &&& yaml_text(pipeline_tree(s.config)) == YamlShown::Text(d.config_snapshot)
    &&& d == run_record_of(
        s,
        d.config_snapshot,
        run_id,
        start_time,
        end_time,
        duration_ms,
        ancestor_run_id,
    )
    &&& after == put(before, run_id, stored(run_tree(d)))
    &&& exact(run_tree(d), MAX_JSON_DEPTH as nat) ==> reads_back(run_tree(d))
    &&& run_rec_orderly(d)
    &&& run_times_common(d) ==> run_reads_back(d)
}

impl<S: Store> Runtime<S> {
    /// Makes the record of a run that is done, stores it and gives it back.
    pub fn conclude_run(
        &mut self,
        run: PipelineRun,
        run_id: String,
        start_time: Timestamp,
        end_time: Timestamp,
        duration_ms: u128,
        ancestor_run_id: Option<u128>,
    ) -> (r: Result<RunRecord, ConcludeError>)
        requires
            run@.done(),
            duration_ms <= u64::MAX,
        ensures
            final(self).version == old(self).version,
            final(self).engines == old(self).engines,
            final(self).id_mapper == old(self).id_mapper,
            final(self).store.scopes() == old(self).store.scopes(),
            final(self).store.infallible() == old(self).store.infallible(),
            match r {
                Ok(d) => recorded(
                    run@,
                    run_id@,
                    start_time,
                    end_time,
                    duration_ms,
                    ancestor_run_id,
                    old(self).store.contents(),
                    final(self).store.contents(),
                    d@,
                ),
                Err(ConcludeError::Snapshot(e)) => yaml_text(pipeline_tree(run@.config))
                    == YamlShown::Fault(e@) && final(self).store == old(self).store,
                Err(ConcludeError::Store(e)) => e is Storage && !old(self).store.infallible(),
            },
    {
        let record = match run.conclude(
            run_id,
            start_time,
            end_time,
            duration_ms,
            ancestor_run_id,
        ) {
            Ok(record) => record,
            Err(e) => {
                return Err(ConcludeError::Snapshot(e));
            },
        };
        let copy = record.clone();
        assert(copy@.metadata == record@.metadata);
        assert(copy@.metadata.duration_ms == duration_ms);
        match self.store.put_run(copy) {
            Ok(_) => Ok(record),
            Err(e) => Err(ConcludeError::Store(e)),
        }
    }
}

/// What the execution of a pipeline comes to.
pub enum Execution {
    /// The configuration was refused.
    Refused(ConfigFault),
    /// The run was recorded, and this record handed back.
    Recorded(RunRec),
    /// The configuration could not be written into the record; this is what the emitter said.
    Unwritten(Seq<char>),
    /// The store refused the record.
    Unstored,
}

/// Whether the execution of the pipeline on those inputs, which went through the states of `course`,
/// came to that, and made what was held before into what is held after.
pub open spec fn executes(
    config: PipelineSpec,
    inputs: Seq<(Seq<char>, Val)>,
    course: Seq<RunState>,
    run_id: Seq<char>,
    start_time: Timestamp,
    end_time: Timestamp,
    duration_ms: u128,
    ancestor_run_id: Option<u128>,
    before: Contents,
    after: Contents,
    e: Execution,
) -> bool {
    match e {
        Execution::Refused(f) => config_fault(config.nodes) == Some(f) && course.len() == 0 && after
            == before,
        Execution::Recorded(d) => runs(config, inputs, course) && recorded(
            course.last(),
            run_id,
            start_time,
            end_time,
            duration_ms,
            ancestor_run_id,
            before,
            after,
            d,
        ),
        Execution::Unwritten(m) => runs(config, inputs, course) && yaml_text(pipeline_tree(config))
            == YamlShown::Fault(m) && after == before,
        Execution::Unstored => runs(config, inputs, course),
    }
}

/// A pipeline with a fault is refused: no run begins, so no node starts, and nothing is stored. Any
/// other runs until it is done, and what is handed back is then exactly what is stored: one record,
/// under the identifier of the run, which says of the run that it failed if one of its nodes did, and
/// else that it completed, and then each of its nodes did. It is found again as its plain form.
pub proof fn lemma_execution(
    config: PipelineSpec,
    inputs: Seq<(Seq<char>, Val)>,
    course: Seq<RunState>,
    run_id: Seq<char>,
    start_time: Timestamp,
    end_time: Timestamp,
    duration_ms: u128,
    ancestor_run_id: Option<u128>,
    before: Contents,
    after: Contents,
    e: Execution,
)
    requires
        executes(
            config,
            inputs,
            course,
            run_id,
            start_time,
            end_time,
            duration_ms,
            ancestor_run_id,
            before,
            after,
            e,
        ),
    ensures
        config_fault(config.nodes) matches Some(f) ==> e == Execution::Refused(f),
        e is Refused ==> config_fault(config.nodes) is Some && course.len() == 0 && after == before,
        e is Unwritten ==> after == before,
        e matches Execution::Recorded(d) ==> {
            &&& lookup(after, run_id) == Some(stored(run_tree(d)))
            &&& forall|other: Seq<char>|
                other != run_id ==> #[trigger] lookup(after, other) == lookup(before, other)
            &&& d.metadata.run_id == run_id
            &&& d.metadata.pipeline_name == config.name
            &&& d.metadata.ancestor_run_id == ancestor_run_id
            &&& d.metadata.start_time == start_time
            &&& d.metadata.end_time == end_time
            &&& d.metadata.duration_ms == duration_ms
            &&& d.metadata.nodes_executed == d.nodes.len()
            &&& d.metadata.error_message is Some <==> d.metadata.status == RunStatus::Failed
            &&& yaml_text(pipeline_tree(config)) == YamlShown::Text(d.config_snapshot)
            &&& forall|p: int|
                0 <= p < d.nodes.len() ==> exists|b: int|
                    {
                        &&& 0 <= b < config.nodes.len()
                        &&& (#[trigger] config.nodes[b]).name == (#[trigger] d.nodes[p]).name
                        &&& config.nodes[b].engine == d.nodes[p].engine
                        &&& config.nodes[b].code == d.nodes[p].code
                    }
            &&& d.input_snapshot == Val::Dict(inputs)
            &&& d.output_snapshot == Val::Dict(course.last().outputs)
            &&& d.nodes == course.last().records
            &&& d.metadata.status == if exists|p: int|
                0 <= p < d.nodes.len() && (#[trigger] d.nodes[p]).status == NodeStatus::Failed {
                RunStatus::Failed
            } else {
                RunStatus::Completed
            }
            &&& d.metadata.status == RunStatus::Completed ==> forall|b: int|
                0 <= b < config.nodes.len() ==> has_completed(
                    d.nodes,
                    (#[trigger] config.nodes[b]).name,
                )
            &&& duration_ms <= u64::MAX && exact(run_tree(d), MAX_JSON_DEPTH as nat)
                && run_times_common(d) ==> run_bytes(stored(run_tree(d))) && forall|back: RunRec|
                #[trigger] holds_run(stored(run_tree(d)), back) ==> back == plain_run(d)
        },
{
    if course.len() > 0 && !(e is Refused) {
        lemma_course(config, inputs, course, course.len() - 1);
    }
    match e {
        Execution::Recorded(d) => {
            let s = course.last();
            lemma_end(s);
            lemma_few_records(s);
            assert forall|p: int| 0 <= p < d.nodes.len() implies exists|b: int|
                {
                    &&& 0 <= b < config.nodes.len()
                    &&& (#[trigger] config.nodes[b]).name == (#[trigger] d.nodes[p]).name
                    &&& config.nodes[b].engine == d.nodes[p].engine
                    &&& config.nodes[b].code == d.nodes[p].code
                } by {
                lemma_record_node(s, p);
                let b = s.finished[p] as int;
                assert(config.nodes[b].name == d.nodes[p].name);
            }
            lemma_put_lookup(before, run_id, stored(run_tree(d)), run_id);
            assert forall|other: Seq<char>| other != run_id implies #[trigger] lookup(after, other)
                == lookup(before, other) by {
                lemma_put_lookup(before, run_id, stored(run_tree(d)), other);
            }
            if duration_ms <= u64::MAX && exact(run_tree(d), MAX_JSON_DEPTH as nat)
                && run_times_common(d) {
                lemma_run_found(before, d, d, run_id);
                assert forall|back: RunRec| #[trigger] holds_run(
                    stored(run_tree(d)),
                    back,
                ) implies back == plain_run(d) by {
                    lemma_run_found(before, d, back, run_id);
                }
            }
        },
        _ => {},
    }
}

proof fn lemma_rows_fault(
    c: Contents,
    scopes: Seq<Seq<char>>,
    target: Seq<char>,
    refs: Seq<Seq<char>>,
    i: int,
)
    requires
        0 <= i <= refs.len(),
        relation_rows(c, scopes, target, refs.take(i)) is Err,
    ensures
        relation_rows(c, scopes, target, refs) == relation_rows(c, scopes, target, refs.take(i)),
    decreases refs.len(),
{
    if i < refs.len() {
        assert(refs.drop_last().take(i) =~= refs.take(i));
        lemma_rows_fault(c, scopes, target, refs.drop_last(), i);
    } else {
        assert(refs.take(i) =~= refs);
    }
}

proof fn lemma_row_present(
    c: Contents,
    scopes: Seq<Seq<char>>,
    target: Seq<char>,
    refs: Seq<Seq<char>>,
    i: int,
    edge_type: Seq<char>,
    edge_id: Seq<char>,
    b: Seq<u8>,
)
    requires
        0 <= i < refs.len(),
        relation_rows(c, scopes, target, refs) is Ok,
        edge_ref_parts(refs[i]) == Some((edge_type, edge_id)),
        lookup(c, edge_key(scoped(scopes, edge_type), edge_id)) == Some(b),
    ensures
        relation_rows(c, scopes, target, refs)->Ok_0.contains(
            edge_row(edge_type, edge_id, all_unscoped(scopes, listed_in(b)), target),
        ),
    decreases refs.len(),
{
    let front = refs.drop_last();
    let earlier = relation_rows(c, scopes, target, front)->Ok_0;
    let rows = relation_rows(c, scopes, target, refs)->Ok_0;
    if i < front.len() {
        assert(front[i] == refs[i]);
        lemma_row_present(c, scopes, target, front, i, edge_type, edge_id, b);
        let row = edge_row(edge_type, edge_id, all_unscoped(scopes, listed_in(b)), target);
        let k = choose|k: int| 0 <= k < earlier.len() && earlier[k] == row;
        assert(rows[k] == row);
    } else {
        assert(rows[earlier.len() as int] == rows.last());
    }
}

/// Once an edge was set, the relations of each of its targets tell of it with all its members. The
/// type of the edge holds no colon.
pub proof fn lemma_edge_in_relations(
    before: Contents,
    after: Contents,
    edge_type: Seq<char>,
    edge_id: Seq<char>,
    targets: Seq<Seq<char>>,
    target: Seq<char>,
)
    requires
        edge_set(before, after, edge_key(edge_type, edge_id), targets),
        targets.contains(target),
        !edge_type.contains(':'),
    ensures
        relations(after, Seq::empty(), target) matches Ok(rows) ==> rows.contains(
            edge_row(edge_type, edge_id, targets, target),
        ),
{
    let e = edge_key(edge_type, edge_id);
    let k = vertex_key(target);
    let scopes = Seq::<Seq<char>>::empty();
    lemma_edge_key_apart(edge_type, edge_id, target);
    lemma_targets_found(before, after, e, targets);
    assert(key_after_set(before, after, e, targets, k));
    let i = choose|i: int| 0 <= i < targets.len() && targets[i] == target;
    assert(k == vertex_key(targets[i]));
    let refs = linked(refs_at(before, k), e);
    lemma_holds_refs(after, k, refs);
    lemma_text_contains_push(refs_at(before, k), e, e);
    let j = choose|j: int| 0 <= j < refs.len() && refs[j] == e;
    assert(all_unscoped(scopes, refs) =~= refs);
    lemma_edge_ref_parts(edge_type, edge_id);
    let b = stored(text_trees(targets));
    lemma_texts_listed(targets);
    assert(all_unscoped(scopes, targets) =~= targets);
    if relations(after, scopes, target) is Ok {
        lemma_row_present(after, scopes, target, refs, j, edge_type, edge_id, b);
    }
}

/// The row for an edge gives its type, its identifier, its members in their order and the vertex that
/// was asked for; the row for a reference that names no edge gives that reference.
pub proof fn lemma_rows_tell(
    edge_type: Seq<char>,
    edge_id: Seq<char>,
    members: Seq<Seq<char>>,
    target: Seq<char>,
)
    ensures
        edge_row(edge_type, edge_id, members, target) matches Val::Object(s) && s.len() == 4 && ascending(s)
            && lookup(s, "edge_type"@) == Some(Val::Text(edge_type)) && lookup(s, "edge_id"@) == Some(
            Val::Text(edge_id),
        ) && lookup(s, "target_vertex"@) == Some(Val::Text(target)) && (lookup(
            s,
            "members"@,
        ) matches Some(Val::List(m)) && m.len() == members.len() && forall|i: int|
            0 <= i < m.len() ==> #[trigger] m[i] == Val::Text(members[i])),
        malformed_row(edge_id) matches Val::Object(s) && s.len() == 2 && lookup(s, "edge_reference"@)
            == Some(Val::Text(edge_id)) && lookup(s, "error"@) == Some(
            Val::Text("malformed edge reference"@),
        ),
{
    reveal_strlit("edge_type");
    reveal_strlit("edge_id");
    reveal_strlit("members");
    reveal_strlit("target_vertex");
    reveal_strlit("edge_reference");
    reveal_strlit("error");
    assert("edge_type"@.len() == 9 && "edge_id"@.len() == 7 && "members"@.len() == 7
        && "target_vertex"@.len() == 13 && "edge_reference"@.len() == 14 && "error"@.len() == 5);
    assert("edge_id"@[0] == 'e' && "edge_type"@[0] == 'e' && "members"@[0] == 'm'
        && "target_vertex"@[0] == 't' && "edge_id"@[5] == 'i' && "edge_type"@[5] == 't');
    let s = edge_row(edge_type, edge_id, members, target)->Object_0;
    lemma_text_lt_at("edge_id"@, "edge_type"@, 5);
    lemma_text_lt_at("edge_type"@, "members"@, 0);
    lemma_text_lt_at("edge_id"@, "members"@, 0);
    lemma_text_lt_at("members"@, "target_vertex"@, 0);
    lemma_text_lt_at("edge_type"@, "target_vertex"@, 0);
    lemma_text_lt_at("edge_id"@, "target_vertex"@, 0);
    crate::record::lemma_lookup_first(s, 0);
    crate::record::lemma_lookup_first(s, 1);
    crate::record::lemma_lookup_first(s, 2);
    crate::record::lemma_lookup_first(s, 3);
    let t = malformed_row(edge_id)->Object_0;
    crate::record::lemma_lookup_first(t, 0);
    crate::record::lemma_lookup_first(t, 1);
}

/// Every row of the relations of a vertex tells of an edge that its index names and that is stored,
/// with the members that are stored for it, or of a reference in its index that names no edge.
pub proof fn lemma_relations_stored(
    c: Contents,
    scopes: Seq<Seq<char>>,
    target: Seq<char>,
    refs: Seq<Seq<char>>,
    k: int,
) -> (j: int)
    requires
        relation_rows(c, scopes, target, refs) is Ok,
        0 <= k < relation_rows(c, scopes, target, refs)->Ok_0.len(),
    ensures
        k <= j < refs.len(),
        relation_rows(c, scopes, target, refs)->Ok_0[k] == match edge_ref_parts(refs[j]) {
            None => malformed_row(refs[j]),
            Some((t, id)) => edge_row(
                t,
                id,
                all_unscoped(scopes, refs_at(c, edge_key(scoped(scopes, t), id))),
                target,
            ),
        },
        edge_ref_parts(refs[j]) matches Some((t, id)) ==> lookup(
            c,
            edge_key(scoped(scopes, t), id),
        ) is Some,
    decreases refs.len(),
{
    let front = refs.drop_last();
    let rows = relation_rows(c, scopes, target, front)->Ok_0;
    lemma_row_count(c, scopes, target, front);
    if k < rows.len() {
        let j = lemma_relations_stored(c, scopes, target, front, k);
        assert(front[j] == refs[j]);
        j
    } else {
        refs.len() - 1
    }
}

proof fn lemma_row_count(
    c: Contents,
    scopes: Seq<Seq<char>>,
    target: Seq<char>,
    refs: Seq<Seq<char>>,
)
    ensures
        relation_rows(c, scopes, target, refs) matches Ok(rows) ==> rows.len() <= refs.len(),
    decreases refs.len(),
{
    if refs.len() > 0 {
        lemma_row_count(c, scopes, target, refs.drop_last());
    }
}

/// A vertex that has no index has no relations.
pub proof fn lemma_no_index_no_relations(c: Contents, scopes: Seq<Seq<char>>, target: Seq<char>)
    requires
        lookup(c, vertex_key(scoped(scopes, target))) is None,
    ensures
        relations(c, scopes, target) == Result::<Seq<Val>, Seq<char>>::Ok(Seq::empty()),
{
}

/// Registering identifiers keeps the numbers of those that have one, gives each of the others one, and
/// gives none twice.
pub proof fn lemma_registered(ids: Seq<Seq<char>>, more: Seq<Seq<char>>)
    requires
        ids.no_duplicates(),
    ensures
        all_registered(ids, more).no_duplicates(),
        ids.is_prefix_of(all_registered(ids, more)),
        forall|x: Seq<char>| #[trigger]
            all_registered(ids, more).contains(x) <==> ids.contains(x) || more.contains(x),
    decreases more.len(),
{
    if more.len() == 0 {
        assert(ids.subrange(0, ids.len() as int) =~= ids);
    } else {
        let front = more.drop_last();
        let last = more.last();
        lemma_registered(ids, front);
        let mid = all_registered(ids, front);
        let all = all_registered(ids, more);
        assert forall|x: Seq<char>| #[trigger] all.contains(x) <==> ids.contains(x) || more.contains(
            x,
        ) by {
            lemma_text_contains_push(mid, last, x);
            assert(more =~= front.push(last));
            lemma_text_contains_push(front, last, x);
        }
        if !mid.contains(last) {
            assert(all =~= mid.push(last));
            assert forall|i: int, j: int| 0 <= i < j < all.len() implies all[i] != all[j] by {
                assert(all[i] == mid[i]);
                assert(mid.contains(mid[i]));
            }
            assert(all.subrange(0, ids.len() as int) =~= mid.subrange(0, ids.len() as int));
        }
    }
}

} // verus!
