//! Inspecting what is stored: the entries of a table, and the relations of a vertex.

use crate::error::{invalid, CliError};
use crate::json::{json_text, val_tree};
use crate::report::format_value;
use crate::runtime::{
    edge_row, lemma_rows_tell, malformed_row, relations, text_vals,
};
use crate::runtime::Runtime;
use crate::store::{
    first_fault, hits, holds_value, lemma_text_items_kept, page, scoped, store_message, text_items,
    unscoped,
};
use crate::store::{string_items, Contents, Store, StoreError};
use crate::strmap::{lemma_lookup_absent, lookup};
use crate::text::{cat3, join};
use crate::text::joined;
use crate::value::{lemma_pair_vals_lookup, vals};
use crate::value::{Val, Value};
use vstd::prelude::*;

verus! {

/// What is to be inspected.
#[derive(Debug)]
pub enum Subject {
    Table(String),
    Relations(String),
}

/// Takes exactly one of a table and a vertex to inspect.
pub fn subject(table: Option<String>, find_relations: Option<String>) -> (r: Result<
    Subject,
    CliError,
>)
    ensures
        match (table, find_relations) {
            (None, None) => r matches Err(CliError::Validation(s)) && s@
                == "debug requires either --table or --find-relations"@,
            (Some(_), Some(_)) => r matches Err(CliError::Validation(s)) && s@
                == "debug accepts only one of --table or --find-relations"@,
            (Some(t), None) => r == Result::<Subject, CliError>::Ok(Subject::Table(t)),
            (None, Some(v)) => r == Result::<Subject, CliError>::Ok(Subject::Relations(v)),
        },
{
    match (table, find_relations) {
        (None, None) => Err(invalid("debug requires either --table or --find-relations")),
        (Some(_), Some(_)) => Err(
            invalid("debug accepts only one of --table or --find-relations"),
        ),
        (Some(t), None) => Ok(Subject::Table(t)),
        (None, Some(v)) => Ok(Subject::Relations(v)),
    }
}

/// A row for an entry.
#[derive(Debug)]
pub struct DebugRow {
    pub key: String,
    pub value: String,
}

/// The prefix of the keys of a table.
pub open spec fn table_prefix(table: Seq<char>) -> Seq<char> {
    "table:"@ + table + ":"@
}

/// Whether a row shows a value that a document holds.
pub open spec fn shows(row: DebugRow, key: Seq<char>, document: Seq<u8>) -> bool {
    row.key@ == key && exists|v: Val| #[trigger]
        holds_value(document, v) && row.value@ == json_text(val_tree(v))
}

/// The stored entries of a table: those after the first `offset`, at most `limit` of them.
pub open spec fn table_page<S: Store>(
    store: S,
    table: Seq<char>,
    limit: usize,
    offset: usize,
) -> Contents {
    page(
        hits(store.contents(), scoped(store.scopes(), table_prefix(table))),
        limit as nat,
        offset as nat,
    )
}

/// Whether rows show stored entries, one each.
pub open spec fn shows_all(rows: Seq<DebugRow>, scopes: Seq<Seq<char>>, found: Contents) -> bool {
    &&& rows.len() == found.len()
    &&& forall|i: int|
        0 <= i < rows.len() ==> shows(#[trigger] rows[i], unscoped(scopes, found[i].0), found[i].1)
}

/// The entries of a table: those after the first `offset`, at most `limit` of them, each as a row.
pub fn table_rows<S: Store>(store: &S, table: &str, limit: usize, offset: usize) -> (r: Result<
    Vec<DebugRow>,
    CliError,
>)
    ensures
        match r {
            Ok(rows) => shows_all(
                rows@,
                store.scopes(),
                table_page(*store, table@, limit, offset),
            ),
            Err(CliError::Store(StoreError::Serialization(s))) => first_fault(
                table_page(*store, table@, limit, offset),
                s@,
            ),
            Err(CliError::Store(StoreError::Storage(_))) => !store.infallible(),
            Err(_) => false,
        },
{
    let prefix = cat3("table:", table, ":");
    let ghost found = table_page(*store, table@, limit, offset);
    let entries = match store.scan_prefix(prefix.as_str(), limit, offset) {
        Ok(list) => list,
        Err(e) => {
            return Err(CliError::Store(e));
        },
    };
    let mut rows: Vec<DebugRow> = Vec::new();
    let mut i: usize = 0;
    while i < entries.len()
        invariant
            i <= entries@.len(),
            entries@.len() == found.len(),
            forall|j: int|
                0 <= j < found.len() ==> (#[trigger] entries@[j]).0@ == unscoped(
                    store.scopes(),
                    found[j].0,
                ) && holds_value(found[j].1, entries@[j].1@),
            rows@.len() == i,
            forall|j: int|
                0 <= j < i ==> shows(
                    #[trigger] rows@[j],
                    unscoped(store.scopes(), found[j].0),
                    found[j].1,
                ),
        decreases entries.len() - i,
    {
        let row = DebugRow { key: entries[i].0.clone(), value: format_value(&entries[i].1) };
        assert(holds_value(found[i as int].1, entries@[i as int].1@));
        assert(shows(row, unscoped(store.scopes(), found[i as int].0), found[i as int].1));
        rows.push(row);
        i += 1;
    }
    Ok(rows)
}

/// A row for a relation.
#[derive(Debug)]
pub struct RelationRow {
    pub edge_type: String,
    pub edge_id: String,
    pub target: String,
    pub members: String,
}

/// What a row for a relation says.
pub struct Relation {
    pub edge_type: Seq<char>,
    pub edge_id: Seq<char>,
    pub target: Seq<char>,
    pub members: Seq<char>,
}

impl RelationRow {
    pub open spec fn view(&self) -> Relation {
        Relation {
            edge_type: self.edge_type@,
            edge_id: self.edge_id@,
            target: self.target@,
            members: self.members@,
        }
    }
}

/// The field of a map or an object.
pub open spec fn field(row: Val, key: Seq<char>) -> Option<Val> {
    match row {
        Val::Dict(s) => lookup(s, key),
        Val::Object(s) => lookup(s, key),
        _ => None,
    }
}

/// The text in a field, or `default` if there is none.
pub open spec fn text_or(row: Val, key: Seq<char>, default: Seq<char>) -> Seq<char> {
    match field(row, key) {
        Some(Val::Text(s)) => s,
        _ => default,
    }
}

/// The texts in the list of members, or a pair of brackets if there is no list.
pub open spec fn members_text(row: Val) -> Seq<char> {
    match field(row, "members"@) {
        Some(Val::List(s)) => joined(text_items(s), ", "@),
        Some(Val::Table(s)) => joined(text_items(s), ", "@),
        _ => "[]"@,
    }
}

/// What is shown of a row of the relations of a vertex.
pub open spec fn relation(row: Val, target: Seq<char>) -> Relation {
    Relation {
        edge_type: text_or(row, "edge_type"@, "<unknown>"@),
        edge_id: text_or(row, "edge_id"@, "<unknown>"@),
        target: text_or(row, "target_vertex"@, target),
        members: members_text(row),
    }
}

fn find_field<'a>(row: &'a Value, key: &str) -> (r: Option<&'a Value>)
    ensures
        match r {
            Some(v) => field(row@, key@) == Some(v@),
            None => field(row@, key@) is None,
        },
{
    match row.as_map() {
        Some(m) => {
            proof {
                lemma_pair_vals_lookup(m.pairs(), key@);
            }
            m.get(key)
        },
        None => None,
    }
}

fn find_text(row: &Value, key: &str, default: &str) -> (r: String)
    ensures
        r@ == text_or(row@, key@, default@),
{
    match find_field(row, key) {
        Some(v) => match v.as_str() {
            Some(s) => s.to_owned(),
            None => default.to_owned(),
        },
        None => default.to_owned(),
    }
}

fn find_members(row: &Value) -> (r: String)
    ensures
        r@ == members_text(row@),
{
    match find_field(row, "members") {
        Some(v) => match v.as_list() {
            Some(_) => join(&string_items(v), ", "),
            None => "[]".to_owned(),
        },
        None => "[]".to_owned(),
    }
}

/// The rows of a table of relations, as they are shown. Anything but a table has none.
pub open spec fn shown_relations(table: Val, target: Seq<char>) -> Seq<Relation> {
    match table {
        Val::Table(rows) => Seq::new(rows.len(), |i: int| relation(rows[i], target)),
        _ => Seq::empty(),
    }
}

/// What rows for relations say.
pub open spec fn relation_views(v: Seq<RelationRow>) -> Seq<Relation> {
    Seq::new(v.len(), |i: int| v[i]@)
}

/// The rows of a table of relations, as they are shown.
pub fn show_relations(table: &Value, target_id: &str) -> (r: Vec<RelationRow>)
    ensures
        relation_views(r@) == shown_relations(table@, target_id@),
{
    let mut out: Vec<RelationRow> = Vec::new();
    match table.as_table() {
        Some(rows) => {
            let mut i: usize = 0;
            while i < rows.len()
                invariant
                    i <= rows@.len(),
                    out@.len() == i,
                    forall|j: int|
                        0 <= j < i ==> (#[trigger] out@[j])@ == relation(rows@[j]@, target_id@),
                decreases rows.len() - i,
            {
                out.push(
                    RelationRow {
                        edge_type: find_text(&rows[i], "edge_type", "<unknown>"),
                        edge_id: find_text(&rows[i], "edge_id", "<unknown>"),
                        target: find_text(&rows[i], "target_vertex", target_id),
                        members: find_members(&rows[i]),
                    },
                );
                i += 1;
            }
            assert(table@->Table_0 == vals(rows@));
        },
        None => {},
    }
    assert(relation_views(out@) =~= shown_relations(table@, target_id@));
    out
}

/// Whether the relations of a vertex cannot be had, and the error says why.
pub open spec fn no_relations<S: Store>(store: S, e: CliError, target: Seq<char>) -> bool {
    e matches CliError::Anyhow(m) && match relations(store.contents(), store.scopes(), target) {
        Err(s) => m@ == "serialization failed: "@ + s || storage_failed(store, m@),
        Ok(_) => storage_failed(store, m@),
    }
}

/// Whether a storage may have failed, and the message is that of such a failure.
pub open spec fn storage_failed<S: Store>(store: S, message: Seq<char>) -> bool {
    !store.infallible() && exists|e: StoreError| e is Storage && message == #[trigger] store_message(e)
}

/// The relations of a vertex, as they are shown.
pub fn vertex_rows<S: Store>(runtime: &Runtime<S>, target_id: &str) -> (r: Result<
    Vec<RelationRow>,
    CliError,
>)
    ensures
        match r {
            Ok(rows) => relations(
                runtime.store.contents(),
                runtime.store.scopes(),
                target_id@,
            ) matches Ok(all) && relation_views(rows@) == shown_relations(
                Val::Table(all),
                target_id@,
            ),
            Err(e) => no_relations(runtime.store, e, target_id@),
        },
{
    match runtime.host_query_vertex_relations(target_id) {
        Ok(table) => Ok(show_relations(&table, target_id)),
        Err(e) => {
            let text = e.message();
            assert(text@ == store_message(e));
            Err(CliError::Anyhow(text))
        },
    }
}

/// What is shown of what was inspected.
#[derive(Debug)]
pub enum Inspection {
    Entries(Vec<DebugRow>),
    Relations(Vec<RelationRow>),
    /// There is nothing to show, and this is said of it.
    Nothing(String),
}

/// Inspects the entries of a table or the relations of a vertex.
pub fn debug_command<S: Store>(
    runtime: &Runtime<S>,
    table: Option<String>,
    find_relations: Option<String>,
    limit: usize,
    offset: usize,
) -> (r: Result<Inspection, CliError>)
    ensures
        match (table, find_relations) {
            (None, None) => r matches Err(CliError::Validation(s)) && s@
                == "debug requires either --table or --find-relations"@,
            (Some(_), Some(_)) => r matches Err(CliError::Validation(s)) && s@
                == "debug accepts only one of --table or --find-relations"@,
            (Some(t), None) => ({
                let found = table_page(runtime.store, t@, limit, offset);
                match r {
                    Ok(Inspection::Entries(rows)) => found.len() > 0 && shows_all(
                        rows@,
                        runtime.store.scopes(),
                        found,
                    ),
                    Ok(Inspection::Nothing(s)) => found.len() == 0 && s@
                        == "No table entries found for the requested prefix."@,
                    Ok(Inspection::Relations(_)) => false,
                    Err(CliError::Store(StoreError::Serialization(s))) => first_fault(found, s@),
                    Err(CliError::Store(StoreError::Storage(_))) => !runtime.store.infallible(),
                    Err(_) => false,
                }
            }),
            (None, Some(v)) => ({
                let all = relations(runtime.store.contents(), runtime.store.scopes(), v@);
                match r {
                    Ok(Inspection::Relations(rows)) => all matches Ok(t) && t.len() > 0
                        && relation_views(rows@) == shown_relations(Val::Table(t), v@),
                    Ok(Inspection::Nothing(s)) => all matches Ok(t) && t.len() == 0 && s@
                        == "No relations found for target_id "@ + v@ + "."@,
                    Ok(Inspection::Entries(_)) => false,
                    Err(e) => no_relations(runtime.store, e, v@),
                }
            }),
        },
{
    match subject(table, find_relations) {
        Ok(Subject::Table(name)) => match table_rows(&runtime.store, name.as_str(), limit, offset) {
            Ok(rows) => if rows.len() == 0 {
                Ok(
                    Inspection::Nothing(
                        "No table entries found for the requested prefix.".to_owned(),
                    ),
                )
            } else {
                Ok(Inspection::Entries(rows))
            },
            Err(e) => Err(e),
        },
        Ok(Subject::Relations(target_id)) => match vertex_rows(runtime, target_id.as_str()) {
            Ok(rows) => {
                assert(relation_views(rows@).len() == rows@.len());
                if rows.len() == 0 {
                    Ok(
                        Inspection::Nothing(
                            cat3("No relations found for target_id ", target_id.as_str(), "."),
                        ),
                    )
                } else {
                    Ok(Inspection::Relations(rows))
                }
            },
            Err(e) => Err(e),
        },
        Err(e) => Err(e),
    }
}

/// A row of relations is shown by its type, its identifier, the vertex and its members with commas
/// between them; what is missing is shown as unknown, and the vertex as the one that was asked for.
pub proof fn lemma_edges_shown(
    edge_type: Seq<char>,
    edge_id: Seq<char>,
    members: Seq<Seq<char>>,
    target: Seq<char>,
    asked: Seq<char>,
)
    ensures
        relation(edge_row(edge_type, edge_id, members, target), asked) == (Relation {
            edge_type,
            edge_id,
            target,
            members: joined(members, ", "@),
        }),
        relation(malformed_row(edge_id), asked) == (Relation {
            edge_type: "<unknown>"@,
            edge_id: "<unknown>"@,
            target: asked,
            members: "[]"@,
        }),
{
    lemma_rows_tell(edge_type, edge_id, members, target);
    lemma_texts_kept(members);
    let s = edge_row(edge_type, edge_id, members, target)->Object_0;
    assert(lookup(s, "members"@)->Some_0->List_0 =~= text_vals(members));
    let t = malformed_row(edge_id)->Object_0;
    reveal_strlit("edge_type");
    reveal_strlit("edge_id");
    reveal_strlit("members");
    reveal_strlit("target_vertex");
    reveal_strlit("edge_reference");
    reveal_strlit("error");
    assert("edge_type"@.len() == 9 && "edge_id"@.len() == 7 && "members"@.len() == 7
        && "target_vertex"@.len() == 13 && "edge_reference"@.len() == 14 && "error"@.len() == 5);
    lemma_lookup_absent(t, "edge_type"@);
    lemma_lookup_absent(t, "edge_id"@);
    lemma_lookup_absent(t, "members"@);
    lemma_lookup_absent(t, "target_vertex"@);
}

proof fn lemma_texts_kept(s: Seq<Seq<char>>)
    ensures
        text_items(text_vals(s)) == s,
    decreases s.len(),
{
    if s.len() == 0 {
        assert(text_items(text_vals(s)) =~= s);
    } else {
        let front = s.drop_last();
        lemma_texts_kept(front);
        assert(text_vals(s) =~= text_vals(front).push(Val::Text(s.last())));
        lemma_text_items_kept(text_vals(front), s.last());
        assert(front.push(s.last()) =~= s);
    }
}

/// Every row of a table of relations is shown, in its order.
pub proof fn lemma_all_shown(rows: Seq<Val>, asked: Seq<char>, i: int)
    requires
        0 <= i < rows.len(),
    ensures
        shown_relations(Val::Table(rows), asked).len() == rows.len(),
        shown_relations(Val::Table(rows), asked)[i] == relation(rows[i], asked),
{
}

/// The entries of a table have keys that begin with `table:`, the name of the table and a colon.
pub proof fn lemma_table_keys(table: Seq<char>)
    ensures
        table_prefix(table).take(6) == seq!['t', 'a', 'b', 'l', 'e', ':'],
        table_prefix(table).skip(6) == table.push(':'),
{
    reveal_strlit("table:");
    reveal_strlit(":");
    assert(table_prefix(table).take(6) =~= seq!['t', 'a', 'b', 'l', 'e', ':']);
    assert(table_prefix(table).skip(6) =~= table.push(':'));
}

} // verus!
