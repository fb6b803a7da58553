//! Records of pipeline runs, and their form as JSON.

use crate::json::{
    distinct_names, json_make, json_open, json_show, json_tree, member_trees, trees,
    val_tree, value_from_json, value_to_json, Node, Tree,
};
use crate::json::{
    json_text, lemma_plain_kind_kept, lemma_value_round_trip, orderly, plain, plain_kind, tree_val,
};
use crate::runtext::run_of_bytes;
use crate::runtext::{holds_run, run_bytes};
use crate::strmap::lookup;
use crate::text::{hex_char, hex_value, texts};
use crate::text::same_text;
use crate::value::copy_value;
use crate::value::{Val, Value};
use serde_json::Value as Json;
use vstd::arithmetic::power::{lemma_pow_positive, pow};
use vstd::prelude::*;
use vstd::utf8::encode_utf8;

verus! {

/// The text of an instant in UTC, by its seconds since 1970 and the nanoseconds after them, in the
/// form of RFC 3339 with as few digits of the second as are needed and a final `Z`; none where
/// there is no such instant.
pub uninterp spec fn time_text(secs: i64, nanos: u32) -> Option<Seq<char>>;

/// The text of an instant in the same form, but with a final `+00:00`.
pub uninterp spec fn time_offset_text(secs: i64, nanos: u32) -> Option<Seq<char>>;

/// The instant that a text in a relaxed form of RFC 3339 stands for.
pub uninterp spec fn time_parse(text: Seq<char>) -> Option<(i64, u32)>;

/// Whether the instant lies in the years 1970 to 9999 and in no leap second.
pub open spec fn common_time(secs: i64, nanos: u32) -> bool {
    0 <= secs <= 253_402_300_799 && nanos < 1_000_000_000
}

/// `chrono::DateTime::from_timestamp`, then the text that `chrono` serializes the instant as. A
/// common instant is read back from its text.
#[verifier::external_body]
fn show_time(secs: i64, nanos: u32) -> (r: Option<String>)
    ensures
        match r {
            Some(s) => time_text(secs, nanos) == Some(s@),
            None => time_text(secs, nanos) is None,
        },
        r is Some || !common_time(secs, nanos),
        r matches Some(s) ==> (common_time(secs, nanos) ==> time_parse(s@) == Some((secs, nanos))),
{
    let t = chrono::DateTime::from_timestamp(secs, nanos)?;
    Some(t.to_rfc3339_opts(chrono::SecondsFormat::AutoSi, true))
}

/// `chrono::DateTime::from_timestamp`, then `DateTime::to_rfc3339`.
#[verifier::external_body]
fn show_offset_time(secs: i64, nanos: u32) -> (r: Option<String>)
    ensures
        match r {
            Some(s) => time_offset_text(secs, nanos) == Some(s@),
            None => time_offset_text(secs, nanos) is None,
        },
        r is None <==> time_text(secs, nanos) is None,
{
    Some(chrono::DateTime::from_timestamp(secs, nanos)?.to_rfc3339())
}

/// `str::parse` of a `chrono::DateTime<chrono::Utc>`. What it gives is an instant that has a text.
#[verifier::external_body]
fn parse_time(text: &str) -> (r: Option<(i64, u32)>)
    ensures
        r == time_parse(text@),
        r matches Some(t) ==> time_text(t.0, t.1) is Some,
{
    let t = text.parse::<chrono::DateTime<chrono::Utc>>().ok()?;
    Some((t.timestamp(), t.timestamp_subsec_nanos()))
}

/// An instant in UTC.
#[derive(Debug, Clone, Copy, PartialEq, Eq)]
pub struct Timestamp {
    pub(crate) secs: i64,
    pub(crate) nanos: u32,
}

impl Timestamp {
    /// The seconds since 1970.
    pub closed spec fn secs(self) -> i64 {
        self.secs
    }

    /// The nanoseconds after the second.
    pub closed spec fn nanos(self) -> u32 {
        self.nanos
    }

    #[verifier::type_invariant]
    pub closed spec fn exists_in_calendar(self) -> bool {
        time_text(self.secs, self.nanos) is Some
    }

    /// The instant, if there is such a one.
    pub fn new(secs: i64, nanos: u32) -> (r: Option<Timestamp>)
        ensures
            match r {
                Some(t) => t.secs() == secs && t.nanos() == nanos && time_text(secs, nanos) is Some,
                None => time_text(secs, nanos) is None,
            },
            common_time(secs, nanos) ==> r is Some,
    {
        match show_time(secs, nanos) {
            Some(_) => Some(Timestamp { secs, nanos }),
            None => None,
        }
    }

    /// The instant that a text stands for.
    pub fn parse(text: &str) -> (r: Option<Timestamp>)
        ensures
            match r {
                Some(t) => time_parse(text@) == Some((t.secs(), t.nanos())),
                None => time_parse(text@) is None,
            },
    {
        match parse_time(text) {
            Some((secs, nanos)) => Some(Timestamp { secs, nanos }),
            None => None,
        }
    }

    /// The text of the instant, with a final `Z`.
    pub fn iso(&self) -> (r: String)
        ensures
            time_text(self.secs(), self.nanos()) == Some(r@),
            common_time(self.secs(), self.nanos()) ==> time_parse(r@) == Some(
                (self.secs(), self.nanos()),
            ),
    {
        proof {
            use_type_invariant(self);
        }
        match show_time(self.secs, self.nanos) {
            Some(s) => s,
            None => String::new(),
        }
    }

    /// The text of the instant, with a final `+00:00`.
    pub fn to_rfc3339(&self) -> (r: String)
        ensures
            time_offset_text(self.secs(), self.nanos()) == Some(r@),
    {
        proof {
            use_type_invariant(self);
        }
        match show_offset_time(self.secs, self.nanos) {
            Some(s) => s,
            None => String::new(),
        }
    }

    proof fn lemma_fields(a: Timestamp, b: Timestamp)
        requires
            a.secs() == b.secs(),
            a.nanos() == b.nanos(),
        ensures
            a == b,
    {
    }
}

/// Hexadecimal digit `i` of the 32 that a 128-bit number has, counted from the front.
pub open spec fn hex_digit(n: u128, i: int) -> char {
    hex_char((n as int / pow(16, (31 - i) as nat)) % 16)
}

/// The text of a UUID: its digits in groups of 8, 4, 4, 4 and 12 with hyphens between them.
pub open spec fn uuid_text(n: u128) -> Seq<char> {
    Seq::new(
        36,
        |i: int|
            if i == 8 || i == 13 || i == 18 || i == 23 {
                '-'
            } else if i < 8 {
                hex_digit(n, i)
            } else if i < 13 {
                hex_digit(n, i - 1)
            } else if i < 18 {
                hex_digit(n, i - 2)
            } else if i < 23 {
                hex_digit(n, i - 3)
            } else {
                hex_digit(n, i - 4)
            },
    )
}

/// The UUID that a text stands for, in any of the forms that `uuid` reads.
pub uninterp spec fn uuid_parse(text: Seq<char>) -> Option<u128>;

/// The text of a `uuid::Uuid`, which is read back as the same UUID.
#[verifier::external_body]
pub(crate) fn show_uuid(n: u128) -> (r: String)
    ensures
        r@ == uuid_text(n),
        uuid_parse(r@) == Some(n),
{
    uuid::Uuid::from_u128(n).to_string()
}

/// `uuid::Uuid::parse_str`.
#[verifier::external_body]
pub(crate) fn parse_uuid(text: &str) -> (r: Option<u128>)
    ensures
        r == uuid_parse(text@),
{
    uuid::Uuid::parse_str(text).ok().map(|u| u.as_u128())
}

/// Whether a UUID is of the random kind: version 4, variant 1.
pub open spec fn random_uuid(n: u128) -> bool {
    &&& n / 0x1000_0000_0000_0000_0000 % 16 == 4
    &&& n / 0x4000_0000_0000_0000 % 4 == 2
}

/// `uuid::Uuid::new_v4`: a UUID of the random kind. Which one is left to chance.
#[verifier::external_body]
fn fresh_uuid() -> (r: u128)
    ensures
        random_uuid(r),
{
    uuid::Uuid::new_v4().as_u128()
}

/// The text of a new UUID of the random kind.
pub fn fresh_id() -> (r: String)
    ensures
        exists|n: u128| #[trigger] random_uuid(n) && r@ == uuid_text(n),
{
    show_uuid(fresh_uuid())
}

/// Where a run stands.
#[derive(Debug, Clone, Copy, PartialEq, Eq, Structural)]
pub enum RunStatus {
    Started,
    Completed,
    Failed,
}

/// Where a node of a run stands.
#[derive(Debug, Clone, Copy, PartialEq, Eq, Structural)]
pub enum NodeStatus {
    Pending,
    Running,
    Completed,
    Failed,
}

/// What became of one node of a run.
#[derive(Debug, PartialEq)]
pub struct NodeRecord {
    pub name: String,
    pub engine: String,
    pub code: String,
    pub inputs: Value,
    pub output: Option<Value>,
    pub status: NodeStatus,
    pub started_at: Timestamp,
    pub ended_at: Timestamp,
    pub error: Option<String>,
}

/// What is known of a run as a whole.
#[derive(Debug, PartialEq)]
pub struct RunMetadata {
    pub run_id: String,
    pub pipeline_name: String,
    pub status: RunStatus,
    pub start_time: Timestamp,
    pub end_time: Timestamp,
    pub duration_ms: u128,
    pub nodes_executed: usize,
    pub ancestor_run_id: Option<u128>,
    pub error_message: Option<String>,
}

/// A run: what is known of it, its nodes, and what went in and came out.
#[derive(Debug, PartialEq)]
pub struct RunRecord {
    pub metadata: RunMetadata,
    pub nodes: Vec<NodeRecord>,
    pub config_snapshot: String,
    pub input_snapshot: Value,
    pub output_snapshot: Value,
}

/// What a [`NodeRecord`] says.
pub struct NodeRec {
    pub name: Seq<char>,
    pub engine: Seq<char>,
    pub code: Seq<char>,
    pub inputs: Val,
    pub output: Option<Val>,
    pub status: NodeStatus,
    pub started_at: Timestamp,
    pub ended_at: Timestamp,
    pub error: Option<Seq<char>>,
}

/// What a [`RunMetadata`] says.
pub struct MetaRec {
    pub run_id: Seq<char>,
    pub pipeline_name: Seq<char>,
    pub status: RunStatus,
    pub start_time: Timestamp,
    pub end_time: Timestamp,
    pub duration_ms: u128,
    pub nodes_executed: usize,
    pub ancestor_run_id: Option<u128>,
    pub error_message: Option<Seq<char>>,
}

/// What a [`RunRecord`] says.
pub struct RunRec {
    pub metadata: MetaRec,
    pub nodes: Seq<NodeRec>,
    pub config_snapshot: Seq<char>,
    pub input_snapshot: Val,
    pub output_snapshot: Val,
}

/// The text of a string that may be missing.
pub open spec fn opt_text(s: Option<String>) -> Option<Seq<char>> {
    match s {
        Some(t) => Some(t@),
        None => None,
    }
}

/// What a value that may be missing stands for.
pub open spec fn opt_val(v: Option<Value>) -> Option<Val> {
    match v {
        Some(x) => Some(x@),
        None => None,
    }
}

impl NodeRecord {
    pub open spec fn view(&self) -> NodeRec {
        NodeRec {
            name: self.name@,
            engine: self.engine@,
            code: self.code@,
            inputs: self.inputs@,
            output: opt_val(self.output),
            status: self.status,
            started_at: self.started_at,
            ended_at: self.ended_at,
            error: opt_text(self.error),
        }
    }
}

impl RunMetadata {
    pub open spec fn view(&self) -> MetaRec {
        MetaRec {
            run_id: self.run_id@,
            pipeline_name: self.pipeline_name@,
            status: self.status,
            start_time: self.start_time,
            end_time: self.end_time,
            duration_ms: self.duration_ms,
            nodes_executed: self.nodes_executed,
            ancestor_run_id: self.ancestor_run_id,
            error_message: opt_text(self.error_message),
        }
    }
}

/// What each record of a sequence says.
pub open spec fn node_recs(s: Seq<NodeRecord>) -> Seq<NodeRec> {
    Seq::new(s.len(), |i: int| s[i].view())
}

impl RunRecord {
    pub open spec fn view(&self) -> RunRec {
        RunRec {
            metadata: self.metadata@,
            nodes: node_recs(self.nodes@),
            config_snapshot: self.config_snapshot@,
            input_snapshot: self.input_snapshot@,
            output_snapshot: self.output_snapshot@,
        }
    }
}

/// The name of a status of a run.
pub open spec fn run_status_name(s: RunStatus) -> Seq<char> {
    match s {
        RunStatus::Started => "Started"@,
        RunStatus::Completed => "Completed"@,
        RunStatus::Failed => "Failed"@,
    }
}

/// The name of a status of a node.
pub open spec fn node_status_name(s: NodeStatus) -> Seq<char> {
    match s {
        NodeStatus::Pending => "Pending"@,
        NodeStatus::Running => "Running"@,
        NodeStatus::Completed => "Completed"@,
        NodeStatus::Failed => "Failed"@,
    }
}

/// The document that an instant is written as.
pub open spec fn time_tree(t: Timestamp) -> Tree {
    match time_text(t.secs(), t.nanos()) {
        Some(s) => Tree::Text(s),
        None => Tree::Null,
    }
}

/// The document that a text that may be missing is written as.
pub open spec fn opt_text_tree(s: Option<Seq<char>>) -> Tree {
    match s {
        Some(t) => Tree::Text(t),
        None => Tree::Null,
    }
}

/// The document that a value that may be missing is written as.
pub open spec fn opt_val_tree(v: Option<Val>) -> Tree {
    match v {
        Some(x) => val_tree(x),
        None => Tree::Null,
    }
}

/// The document that a UUID that may be missing is written as.
pub open spec fn opt_uuid_tree(u: Option<u128>) -> Tree {
    match u {
        Some(n) => Tree::Text(uuid_text(n)),
        None => Tree::Null,
    }
}

/// The document that a record of a node is written as.
pub open spec fn node_rec_tree(n: NodeRec) -> Tree {
    Tree::Object(
        seq![
            ("name"@, Tree::Text(n.name)),
            ("engine"@, Tree::Text(n.engine)),
            ("code"@, Tree::Text(n.code)),
            ("inputs"@, val_tree(n.inputs)),
            ("output"@, opt_val_tree(n.output)),
            ("status"@, Tree::Text(node_status_name(n.status))),
            ("started_at"@, time_tree(n.started_at)),
            ("ended_at"@, time_tree(n.ended_at)),
            ("error"@, opt_text_tree(n.error)),
        ],
    )
}

/// The document that the metadata of a run is written as.
pub open spec fn meta_tree(m: MetaRec) -> Tree {
    Tree::Object(
        seq![
            ("run_id"@, Tree::Text(m.run_id)),
            ("pipeline_name"@, Tree::Text(m.pipeline_name)),
            ("status"@, Tree::Text(run_status_name(m.status))),
            ("start_time"@, time_tree(m.start_time)),
            ("end_time"@, time_tree(m.end_time)),
            ("duration_ms"@, Tree::Unsigned(m.duration_ms as u64)),
            ("nodes_executed"@, Tree::Unsigned(m.nodes_executed as u64)),
            ("ancestor_run_id"@, opt_uuid_tree(m.ancestor_run_id)),
            ("error_message"@, opt_text_tree(m.error_message)),
        ],
    )
}

/// The document that a record of a run is written as.
pub open spec fn run_tree(r: RunRec) -> Tree {
    Tree::Object(
        seq![
            ("metadata"@, meta_tree(r.metadata)),
            (
                "nodes"@,
                Tree::Array(Seq::new(r.nodes.len(), |i: int| node_rec_tree(r.nodes[i]))),
            ),
            ("config_snapshot"@, Tree::Text(r.config_snapshot)),
            ("input_snapshot"@, val_tree(r.input_snapshot)),
            ("output_snapshot"@, val_tree(r.output_snapshot)),
        ],
    )
}

/// The fields of the record of a node, in order.
pub open spec fn node_fields() -> Seq<Seq<char>> {
    seq![
        "name"@,
        "engine"@,
        "code"@,
        "inputs"@,
        "output"@,
        "status"@,
        "started_at"@,
        "ended_at"@,
        "error"@,
    ]
}

/// The fields of the metadata of a run, in order.
pub open spec fn meta_fields() -> Seq<Seq<char>> {
    seq![
        "run_id"@,
        "pipeline_name"@,
        "status"@,
        "start_time"@,
        "end_time"@,
        "duration_ms"@,
        "nodes_executed"@,
        "ancestor_run_id"@,
        "error_message"@,
    ]
}

/// The fields of the record of a run, in order.
pub open spec fn run_fields() -> Seq<Seq<char>> {
    seq!["metadata"@, "nodes"@, "config_snapshot"@, "input_snapshot"@, "output_snapshot"@]
}

/// Whether no field name occurs twice.
pub open spec fn distinct_texts(s: Seq<Seq<char>>) -> bool {
    forall|i: int, j: int| 0 <= i < j < s.len() ==> #[trigger] s[i] != #[trigger] s[j]
}

proof fn lemma_node_fields()
    ensures
        distinct_texts(node_fields()),
{
    reveal_strlit("name");
    reveal_strlit("engine");
    reveal_strlit("code");
    reveal_strlit("inputs");
    reveal_strlit("output");
    reveal_strlit("status");
    reveal_strlit("started_at");
    reveal_strlit("ended_at");
    reveal_strlit("error");
    let f = node_fields();
    assert(f[0].len() == 4 && f[1].len() == 6 && f[2].len() == 4 && f[3].len() == 6 && f[4].len()
        == 6 && f[5].len() == 6 && f[6].len() == 10 && f[7].len() == 8 && f[8].len() == 5);
    assert(f[0][0] == 'n' && f[1][0] == 'e' && f[2][0] == 'c' && f[3][0] == 'i' && f[4][0] == 'o'
        && f[5][0] == 's');
}

proof fn lemma_meta_fields()
    ensures
        distinct_texts(meta_fields()),
{
    reveal_strlit("run_id");
    reveal_strlit("pipeline_name");
    reveal_strlit("status");
    reveal_strlit("start_time");
    reveal_strlit("end_time");
    reveal_strlit("duration_ms");
    reveal_strlit("nodes_executed");
    reveal_strlit("ancestor_run_id");
    reveal_strlit("error_message");
    let f = meta_fields();
    assert(f[0].len() == 6 && f[1].len() == 13 && f[2].len() == 6 && f[3].len() == 10 && f[4].len()
        == 8 && f[5].len() == 11 && f[6].len() == 14 && f[7].len() == 15 && f[8].len() == 13);
    assert(f[0][0] == 'r' && f[2][0] == 's' && f[1][0] == 'p' && f[8][0] == 'e');
}

proof fn lemma_run_fields()
    ensures
        distinct_texts(run_fields()),
{
    reveal_strlit("metadata");
    reveal_strlit("nodes");
    reveal_strlit("config_snapshot");
    reveal_strlit("input_snapshot");
    reveal_strlit("output_snapshot");
    let f = run_fields();
    assert(f[0].len() == 8 && f[1].len() == 5 && f[2].len() == 15 && f[3].len() == 14 && f[4].len()
        == 15);
    assert(f[2][0] == 'c' && f[4][0] == 'o');
}

/// Whether the values of a record have their map entries in key order.
pub open spec fn node_rec_orderly(n: NodeRec) -> bool {
    orderly(n.inputs) && (n.output matches Some(v) ==> orderly(v))
}

fn time_to_json(t: &Timestamp) -> (r: Json)
    ensures
        json_tree(r) == time_tree(*t),
        common(*t) ==> time_reads_back(*t),
{
    json_make(Node::Text(t.iso()))
}

fn opt_text_to_json(s: &Option<String>) -> (r: Json)
    ensures
        json_tree(r) == opt_text_tree(opt_text(*s)),
{
    match s {
        Some(t) => json_make(Node::Text(t.clone())),
        None => json_make(Node::Null),
    }
}

fn opt_value_to_json(v: &Option<Value>) -> (r: Json)
    ensures
        json_tree(r) == opt_val_tree(opt_val(*v)),
        opt_val(*v) matches Some(x) ==> orderly(x),
{
    match v {
        Some(x) => value_to_json(x),
        None => json_make(Node::Null),
    }
}

/// The names of a run's statuses.
pub fn run_status_text(s: &RunStatus) -> (r: &'static str)
    ensures
        r@ == run_status_name(*s),
{
    match s {
        RunStatus::Started => "Started",
        RunStatus::Completed => "Completed",
        RunStatus::Failed => "Failed",
    }
}

/// The names of a node's statuses.
pub fn node_status_text(s: &NodeStatus) -> (r: &'static str)
    ensures
        r@ == node_status_name(*s),
{
    match s {
        NodeStatus::Pending => "Pending",
        NodeStatus::Running => "Running",
        NodeStatus::Completed => "Completed",
        NodeStatus::Failed => "Failed",
    }
}

fn node_record_to_json(n: &NodeRecord) -> (r: Json)
    ensures
        json_tree(r) == node_rec_tree(n@),
        node_rec_orderly(n@),
        common(n.started_at) && common(n.ended_at) ==> node_times_read_back(n@),
{
    let mut m: Vec<(String, Json)> = Vec::new();
    m.push(("name".to_owned(), json_make(Node::Text(n.name.clone()))));
    m.push(("engine".to_owned(), json_make(Node::Text(n.engine.clone()))));
    m.push(("code".to_owned(), json_make(Node::Text(n.code.clone()))));
    m.push(("inputs".to_owned(), value_to_json(&n.inputs)));
    m.push(("output".to_owned(), opt_value_to_json(&n.output)));
    m.push(("status".to_owned(), json_make(Node::Text(node_status_text(&n.status).to_owned()))));
    m.push(("started_at".to_owned(), time_to_json(&n.started_at)));
    m.push(("ended_at".to_owned(), time_to_json(&n.ended_at)));
    m.push(("error".to_owned(), opt_text_to_json(&n.error)));
    proof {
        let s = member_trees(m@);
        assert(s =~= node_rec_tree(n@)->Object_0);
        lemma_node_fields();
        assert forall|i: int| 0 <= i < 9 implies (#[trigger] s[i]).0 == node_fields()[i] by {}
        assert(distinct_names(s));
    }
    json_make(Node::Object(m))
}

/// The JSON form of the metadata of a run.
pub fn metadata_to_json(d: &RunMetadata) -> (r: Json)
    requires
        d.duration_ms <= u64::MAX,
    ensures
        json_tree(r) == meta_tree(d@),
        common(d.start_time) && common(d.end_time) ==> meta_reads_back(d@),
{
    let mut m: Vec<(String, Json)> = Vec::new();
    m.push(("run_id".to_owned(), json_make(Node::Text(d.run_id.clone()))));
    m.push(("pipeline_name".to_owned(), json_make(Node::Text(d.pipeline_name.clone()))));
    m.push(("status".to_owned(), json_make(Node::Text(run_status_text(&d.status).to_owned()))));
    m.push(("start_time".to_owned(), time_to_json(&d.start_time)));
    m.push(("end_time".to_owned(), time_to_json(&d.end_time)));
    m.push(("duration_ms".to_owned(), json_make(Node::Unsigned(d.duration_ms as u64))));
    m.push(("nodes_executed".to_owned(), json_make(Node::Unsigned(d.nodes_executed as u64))));
    let ancestor = match d.ancestor_run_id {
        Some(n) => json_make(Node::Text(show_uuid(n))),
        None => json_make(Node::Null),
    };
    m.push(("ancestor_run_id".to_owned(), ancestor));
    m.push(("error_message".to_owned(), opt_text_to_json(&d.error_message)));
    proof {
        let s = member_trees(m@);
        assert(s =~= meta_tree(d@)->Object_0);
        lemma_meta_fields();
        assert forall|i: int| 0 <= i < 9 implies (#[trigger] s[i]).0 == meta_fields()[i] by {}
        assert(distinct_names(s));
    }
    json_make(Node::Object(m))
}

/// Whether the values of a run have their map entries in key order.
pub open spec fn run_rec_orderly(r: RunRec) -> bool {
    &&& forall|i: int| 0 <= i < r.nodes.len() ==> node_rec_orderly(#[trigger] r.nodes[i])
    &&& orderly(r.input_snapshot)
    &&& orderly(r.output_snapshot)
}

/// The JSON form of the record of a run.
pub fn run_to_json(d: &RunRecord) -> (r: Json)
    requires
        d.metadata.duration_ms <= u64::MAX,
    ensures
        json_tree(r) == run_tree(d@),
        run_rec_orderly(d@),
        run_times_common(d@) ==> run_reads_back(d@),
{
    let mut items: Vec<Json> = Vec::new();
    let mut i: usize = 0;
    while i < d.nodes.len()
        invariant
            i <= d.nodes@.len(),
            items@.len() == i,
            forall|j: int|
                0 <= j < i ==> json_tree(#[trigger] items@[j]) == node_rec_tree(d.nodes@[j]@)
                    && node_rec_orderly(d.nodes@[j]@) && (common(d.nodes@[j].started_at) && common(
                    d.nodes@[j].ended_at,
                ) ==> node_times_read_back(d.nodes@[j]@)),
        decreases d.nodes.len() - i,
    {
        items.push(node_record_to_json(&d.nodes[i]));
        i += 1;
    }
    let ghost nodes = d@.nodes;
    assert(trees(items@) =~= Seq::new(nodes.len(), |i: int| node_rec_tree(nodes[i])));
    assert forall|j: int| 0 <= j < nodes.len() implies node_rec_orderly(#[trigger] nodes[j]) && (
    common(nodes[j].started_at) && common(nodes[j].ended_at) ==> node_times_read_back(nodes[j])) by {
        assert(json_tree(items@[j]) == node_rec_tree(d.nodes@[j]@));
    }
    let mut m: Vec<(String, Json)> = Vec::new();
    m.push(("metadata".to_owned(), metadata_to_json(&d.metadata)));
    m.push(("nodes".to_owned(), json_make(Node::Array(items))));
    m.push(("config_snapshot".to_owned(), json_make(Node::Text(d.config_snapshot.clone()))));
    m.push(("input_snapshot".to_owned(), value_to_json(&d.input_snapshot)));
    m.push(("output_snapshot".to_owned(), value_to_json(&d.output_snapshot)));
    proof {
        let s = member_trees(m@);
        assert(s =~= run_tree(d@)->Object_0);
        lemma_run_fields();
        assert forall|i: int| 0 <= i < 5 implies (#[trigger] s[i]).0 == run_fields()[i] by {}
        assert(distinct_names(s));
    }
    json_make(Node::Object(m))
}

/// The members that a document gives to the named fields: those of an object, or the items of an
/// array that has one for each field.
pub open spec fn struct_members(t: Tree, names: Seq<Seq<char>>) -> Option<Seq<(Seq<char>, Tree)>> {
    match t {
        Tree::Object(s) => Some(s),
        Tree::Array(s) => if s.len() == names.len() {
            Some(Seq::new(s.len(), |i: int| (names[i], s[i])))
        } else {
            None
        },
        _ => None,
    }
}

/// The text that a field holds.
pub open spec fn text_of_field(t: Option<Tree>) -> Option<Seq<char>> {
    match t {
        Some(Tree::Text(s)) => Some(s),
        _ => None,
    }
}

/// What a field that may be null or missing holds.
pub open spec fn present(t: Option<Tree>) -> Option<Tree> {
    match t {
        Some(Tree::Null) => None,
        _ => t,
    }
}

/// The text that a field holds, if it holds anything.
pub open spec fn opt_text_of_field(t: Option<Tree>) -> Option<Option<Seq<char>>> {
    match present(t) {
        None => Some(None),
        Some(Tree::Text(s)) => Some(Some(s)),
        Some(_) => None,
    }
}

/// The instant that a field holds.
pub open spec fn time_of_field(t: Option<Tree>) -> Option<(i64, u32)> {
    match t {
        Some(Tree::Text(s)) => time_parse(s),
        _ => None,
    }
}

/// The number that a field holds.
pub open spec fn count_of_field(t: Option<Tree>) -> Option<u64> {
    match t {
        Some(Tree::Unsigned(n)) => Some(n),
        _ => None,
    }
}

/// The UUID that a field holds, if it holds anything.
pub open spec fn opt_uuid_of_field(t: Option<Tree>) -> Option<Option<u128>> {
    match present(t) {
        None => Some(None),
        Some(Tree::Text(s)) => match uuid_parse(s) {
            Some(n) => Some(Some(n)),
            None => None,
        },
        Some(_) => None,
    }
}

/// The name that a document gives to a variant: a text, or an object with that one member and null
/// in it.
pub open spec fn variant_of_field(t: Option<Tree>) -> Option<Seq<char>> {
    match t {
        Some(Tree::Text(s)) => Some(s),
        Some(Tree::Object(s)) => if s.len() == 1 && s[0].1 == Tree::Null {
            Some(s[0].0)
        } else {
            None
        },
        _ => None,
    }
}

/// The status of a run with that name.
pub open spec fn run_status_named(s: Option<Seq<char>>) -> Option<RunStatus> {
    match s {
        Some(name) => if name == "Started"@ {
            Some(RunStatus::Started)
        } else if name == "Completed"@ {
            Some(RunStatus::Completed)
        } else if name == "Failed"@ {
            Some(RunStatus::Failed)
        } else {
            None
        },
        None => None,
    }
}

/// The status of a node with that name.
pub open spec fn node_status_named(s: Option<Seq<char>>) -> Option<NodeStatus> {
    match s {
        Some(name) => if name == "Pending"@ {
            Some(NodeStatus::Pending)
        } else if name == "Running"@ {
            Some(NodeStatus::Running)
        } else if name == "Completed"@ {
            Some(NodeStatus::Completed)
        } else if name == "Failed"@ {
            Some(NodeStatus::Failed)
        } else {
            None
        },
        None => None,
    }
}

/// Whether the instant is the one with those seconds and nanoseconds.
pub open spec fn is_time(t: Timestamp, p: Option<(i64, u32)>) -> bool {
    p == Some((t.secs(), t.nanos()))
}

/// Whether the record is the one that the members say.
pub open spec fn reads_node(m: Seq<(Seq<char>, Tree)>, n: NodeRec) -> bool {
    &&& text_of_field(lookup(m, "name"@)) == Some(n.name)
    &&& text_of_field(lookup(m, "engine"@)) == Some(n.engine)
    &&& text_of_field(lookup(m, "code"@)) == Some(n.code)
    &&& lookup(m, "inputs"@) matches Some(t) && n.inputs == tree_val(t)
    &&& n.output == match present(lookup(m, "output"@)) {
        Some(t) => Some(tree_val(t)),
        None => None,
    }
    &&& node_status_named(variant_of_field(lookup(m, "status"@))) == Some(n.status)
    &&& is_time(n.started_at, time_of_field(lookup(m, "started_at"@)))
    &&& is_time(n.ended_at, time_of_field(lookup(m, "ended_at"@)))
    &&& opt_text_of_field(lookup(m, "error"@)) == Some(n.error)
}

/// Whether the members say a record of a node.
pub open spec fn node_readable(m: Seq<(Seq<char>, Tree)>) -> bool {
    &&& text_of_field(lookup(m, "name"@)) is Some
    &&& text_of_field(lookup(m, "engine"@)) is Some
    &&& text_of_field(lookup(m, "code"@)) is Some
    &&& lookup(m, "inputs"@) is Some
    &&& node_status_named(variant_of_field(lookup(m, "status"@))) is Some
    &&& time_of_field(lookup(m, "started_at"@)) is Some
    &&& time_of_field(lookup(m, "ended_at"@)) is Some
    &&& opt_text_of_field(lookup(m, "error"@)) is Some
}

/// Whether the metadata is that which the members say.
pub open spec fn reads_meta(m: Seq<(Seq<char>, Tree)>, d: MetaRec) -> bool {
    &&& text_of_field(lookup(m, "run_id"@)) == Some(d.run_id)
    &&& text_of_field(lookup(m, "pipeline_name"@)) == Some(d.pipeline_name)
    &&& run_status_named(variant_of_field(lookup(m, "status"@))) == Some(d.status)
    &&& is_time(d.start_time, time_of_field(lookup(m, "start_time"@)))
    &&& is_time(d.end_time, time_of_field(lookup(m, "end_time"@)))
    &&& count_of_field(lookup(m, "duration_ms"@)) matches Some(n) && d.duration_ms == n
    &&& count_of_field(lookup(m, "nodes_executed"@)) matches Some(n) && d.nodes_executed == n
    &&& opt_uuid_of_field(lookup(m, "ancestor_run_id"@)) == Some(d.ancestor_run_id)
    &&& opt_text_of_field(lookup(m, "error_message"@)) == Some(d.error_message)
}

/// Whether the members say the metadata of a run.
pub open spec fn meta_readable(m: Seq<(Seq<char>, Tree)>) -> bool {
    &&& text_of_field(lookup(m, "run_id"@)) is Some
    &&& text_of_field(lookup(m, "pipeline_name"@)) is Some
    &&& run_status_named(variant_of_field(lookup(m, "status"@))) is Some
    &&& time_of_field(lookup(m, "start_time"@)) is Some
    &&& time_of_field(lookup(m, "end_time"@)) is Some
    &&& count_of_field(lookup(m, "duration_ms"@)) is Some
    &&& count_of_field(lookup(m, "nodes_executed"@)) matches Some(n) && n <= usize::MAX
    &&& opt_uuid_of_field(lookup(m, "ancestor_run_id"@)) is Some
    &&& opt_text_of_field(lookup(m, "error_message"@)) is Some
}

/// Takes the value of a member out.
fn take_member(m: &mut Vec<(String, Json)>, name: &str) -> (r: Option<Json>)
    ensures
        match r {
            Some(j) => lookup(member_trees(old(m)@), name@) == Some(json_tree(j)),
            None => lookup(member_trees(old(m)@), name@) is None,
        },
        forall|other: Seq<char>|
            other != name@ ==> #[trigger] lookup(member_trees(final(m)@), other) == lookup(
                member_trees(old(m)@),
                other,
            ),
{
    let ghost s = member_trees(m@);
    let mut i: usize = 0;
    while i < m.len()
        invariant
            i <= m@.len(),
            s == member_trees(m@),
            *m == *old(m),
            forall|j: int| 0 <= j < i ==> (#[trigger] s[j]).0 != name@,
        decreases m.len() - i,
    {
        if same_text(m[i].0.as_str(), name) {
            let (_, value) = m.remove(i);
            proof {
                assert(member_trees(m@) =~= s.remove(i as int));
                lemma_lookup_first(s, i as int);
                assert forall|other: Seq<char>| other != name@ implies #[trigger] lookup(
                    s.remove(i as int),
                    other,
                ) == lookup(s, other) by {
                    lemma_lookup_remove(s, i as int, other);
                }
            }
            return Some(value);
        }
        i += 1;
    }
    proof {
        crate::strmap::lemma_lookup_absent(s, name@);
    }
    None
}

/// Under the name of a member that is the first of that name, its value is found.
pub proof fn lemma_lookup_first<V>(s: Seq<(Seq<char>, V)>, i: int)
    requires
        0 <= i < s.len(),
        forall|j: int| 0 <= j < i ==> (#[trigger] s[j]).0 != s[i].0,
    ensures
        lookup(s, s[i].0) == Some(s[i].1),
    decreases s.len(),
{
    if i > 0 {
        let t = s.drop_first();
        assert forall|j: int| 0 <= j < i - 1 implies (#[trigger] t[j]).0 != t[i - 1].0 by {
            assert(t[j] == s[j + 1]);
        }
        assert(s[0].0 != s[i].0);
        lemma_lookup_first(t, i - 1);
    }
}

proof fn lemma_lookup_remove<V>(s: Seq<(Seq<char>, V)>, i: int, other: Seq<char>)
    requires
        0 <= i < s.len(),
        s[i].0 != other,
    ensures
        lookup(s.remove(i), other) == lookup(s, other),
    decreases s.len(),
{
    let r = s.remove(i);
    if i == 0 {
        assert(r =~= s.drop_first());
    } else {
        assert(r.drop_first() =~= s.drop_first().remove(i - 1));
        lemma_lookup_remove(s.drop_first(), i - 1, other);
    }
}

fn open_struct(j: Json, names: &Vec<String>) -> (r: Option<Vec<(String, Json)>>)
    ensures
        match r {
            Some(m) => struct_members(json_tree(j), texts(names@)) == Some(member_trees(m@)),
            None => struct_members(json_tree(j), texts(names@)) is None,
        },
{
    match json_open(j) {
        Node::Object(m) => Some(m),
        Node::Array(items) => {
            if items.len() != names.len() {
                return None;
            }
            let ghost s = trees(items@);
            let mut m: Vec<(String, Json)> = Vec::new();
            for item in it: items.into_iter()
                invariant
                    it.seq() == items@,
                    items@.len() == names@.len(),
                    s == trees(items@),
                    m@.len() == it.index(),
                    forall|i: int|
                        0 <= i < m@.len() ==> (#[trigger] m@[i]).0@ == names@[i]@ && json_tree(
                            m@[i].1,
                        ) == s[i],
            {
                let k: usize = m.len();
                m.push((names[k].clone(), item));
            }
            assert(member_trees(m@) =~= Seq::new(s.len(), |i: int| (texts(names@)[i], s[i])));
            Some(m)
        },
        _ => None,
    }
}

fn read_text(j: Option<Json>) -> (r: Option<String>)
    ensures
        opt_text(r) == text_of_field(opt_tree(j)),
{
    match j {
        Some(j) => match json_open(j) {
            Node::Text(s) => Some(s),
            _ => None,
        },
        None => None,
    }
}

/// The document of a JSON value that may be missing.
pub open spec fn opt_tree(j: Option<Json>) -> Option<Tree> {
    match j {
        Some(j) => Some(json_tree(j)),
        None => None,
    }
}

fn read_opt_text(j: Option<Json>) -> (r: Option<Option<String>>)
    ensures
        match r {
            Some(s) => opt_text_of_field(opt_tree(j)) == Some(opt_text(s)),
            None => opt_text_of_field(opt_tree(j)) is None,
        },
{
    match j {
        Some(j) => match json_open(j) {
            Node::Null => Some(None),
            Node::Text(s) => Some(Some(s)),
            _ => None,
        },
        None => Some(None),
    }
}

fn read_time(j: Option<Json>) -> (r: Option<Timestamp>)
    ensures
        match r {
            Some(t) => is_time(t, time_of_field(opt_tree(j))),
            None => time_of_field(opt_tree(j)) is None,
        },
{
    match read_text(j) {
        Some(s) => Timestamp::parse(s.as_str()),
        None => None,
    }
}

fn read_count(j: Option<Json>) -> (r: Option<u64>)
    ensures
        r == count_of_field(opt_tree(j)),
{
    match j {
        Some(j) => match json_open(j) {
            Node::Unsigned(n) => Some(n),
            _ => None,
        },
        None => None,
    }
}

fn read_opt_uuid(j: Option<Json>) -> (r: Option<Option<u128>>)
    ensures
        r == opt_uuid_of_field(opt_tree(j)),
{
    match read_opt_text(j) {
        None => None,
        Some(None) => Some(None),
        Some(Some(s)) => match parse_uuid(s.as_str()) {
            Some(n) => Some(Some(n)),
            None => None,
        },
    }
}

fn read_variant(j: Option<Json>) -> (r: Option<String>)
    ensures
        opt_text(r) == variant_of_field(opt_tree(j)),
{
    match j {
        Some(j) => match json_open(j) {
            Node::Text(s) => Some(s),
            Node::Object(m) => {
                let mut m = m;
                if m.len() != 1 {
                    return None;
                }
                let ghost s = member_trees(m@);
                let (name, value) = m.remove(0);
                assert(s[0] == (name@, json_tree(value)));
                match json_open(value) {
                    Node::Null => Some(name),
                    _ => None,
                }
            },
            _ => None,
        },
        None => None,
    }
}

fn read_run_status(j: Option<Json>) -> (r: Option<RunStatus>)
    ensures
        r == run_status_named(variant_of_field(opt_tree(j))),
{
    match read_variant(j) {
        Some(s) => if same_text(s.as_str(), "Started") {
            Some(RunStatus::Started)
        } else if same_text(s.as_str(), "Completed") {
            Some(RunStatus::Completed)
        } else if same_text(s.as_str(), "Failed") {
            Some(RunStatus::Failed)
        } else {
            None
        },
        None => None,
    }
}

fn read_node_status(j: Option<Json>) -> (r: Option<NodeStatus>)
    ensures
        r == node_status_named(variant_of_field(opt_tree(j))),
{
    match read_variant(j) {
        Some(s) => if same_text(s.as_str(), "Pending") {
            Some(NodeStatus::Pending)
        } else if same_text(s.as_str(), "Running") {
            Some(NodeStatus::Running)
        } else if same_text(s.as_str(), "Completed") {
            Some(NodeStatus::Completed)
        } else if same_text(s.as_str(), "Failed") {
            Some(NodeStatus::Failed)
        } else {
            None
        },
        None => None,
    }
}

fn read_opt_value(j: Option<Json>) -> (r: Option<Value>)
    ensures
        opt_val(r) == match present(opt_tree(j)) {
            Some(t) => Some(tree_val(t)),
            None => None,
        },
{
    match j {
        Some(j) => {
            let v = value_from_json(j);
            match v {
                Value::Null => None,
                _ => Some(v),
            }
        },
        None => None,
    }
}

/// Whether the document is the one of that record of a node.
pub open spec fn node_rec_from(t: Tree, n: NodeRec) -> bool {
    struct_members(t, node_fields()) matches Some(m) && node_readable(m) && reads_node(m, n)
}

/// Whether the document is one of a record of a node.
pub open spec fn is_node_rec(t: Tree) -> bool {
    struct_members(t, node_fields()) matches Some(m) && node_readable(m)
}

/// Whether the document is the one of that metadata.
pub open spec fn meta_from(t: Tree, d: MetaRec) -> bool {
    struct_members(t, meta_fields()) matches Some(m) && meta_readable(m) && reads_meta(m, d)
}

/// Whether the document is one of the metadata of a run.
pub open spec fn is_meta(t: Tree) -> bool {
    struct_members(t, meta_fields()) matches Some(m) && meta_readable(m)
}

/// Whether the documents are those of the records.
pub open spec fn node_recs_from(s: Seq<Tree>, n: Seq<NodeRec>) -> bool {
    s.len() == n.len() && forall|i: int|
        0 <= i < s.len() ==> node_rec_from(#[trigger] s[i], n[i])
}

/// Whether the document is an array of records of nodes.
pub open spec fn is_node_recs(t: Option<Tree>) -> bool {
    match t {
        Some(Tree::Array(s)) => all_node_recs(s),
        _ => false,
    }
}

/// Whether every document is one of a record of a node.
pub open spec fn all_node_recs(s: Seq<Tree>) -> bool {
    forall|i: int| 0 <= i < s.len() ==> is_node_rec(#[trigger] s[i])
}

/// Whether the document is the one of that record of a run.
pub open spec fn run_from(t: Tree, r: RunRec) -> bool {
    struct_members(t, run_fields()) matches Some(m) && {
        &&& lookup(m, "metadata"@) matches Some(d) && meta_from(d, r.metadata)
        &&& lookup(m, "nodes"@) matches Some(Tree::Array(s)) && node_recs_from(s, r.nodes)
        &&& text_of_field(lookup(m, "config_snapshot"@)) == Some(r.config_snapshot)
        &&& lookup(m, "input_snapshot"@) matches Some(v) && r.input_snapshot == tree_val(v)
        &&& lookup(m, "output_snapshot"@) matches Some(v) && r.output_snapshot == tree_val(v)
    }
}

/// Whether the document is one of a record of a run.
pub open spec fn is_run(t: Tree) -> bool {
    struct_members(t, run_fields()) matches Some(m) && {
        &&& lookup(m, "metadata"@) matches Some(d) && is_meta(d)
        &&& is_node_recs(lookup(m, "nodes"@))
        &&& text_of_field(lookup(m, "config_snapshot"@)) is Some
        &&& lookup(m, "input_snapshot"@) is Some
        &&& lookup(m, "output_snapshot"@) is Some
    }
}

/// The fields of the record of a node.
pub(crate) fn node_names() -> (r: Vec<String>)
    ensures
        texts(r@) == node_fields(),
{
    let mut names: Vec<String> = Vec::new();
    names.push("name".to_owned());
    names.push("engine".to_owned());
    names.push("code".to_owned());
    names.push("inputs".to_owned());
    names.push("output".to_owned());
    names.push("status".to_owned());
    names.push("started_at".to_owned());
    names.push("ended_at".to_owned());
    names.push("error".to_owned());
    assert(texts(names@) =~= node_fields());
    names
}

/// The fields of the metadata of a run.
pub(crate) fn meta_names() -> (r: Vec<String>)
    ensures
        texts(r@) == meta_fields(),
{
    let mut names: Vec<String> = Vec::new();
    names.push("run_id".to_owned());
    names.push("pipeline_name".to_owned());
    names.push("status".to_owned());
    names.push("start_time".to_owned());
    names.push("end_time".to_owned());
    names.push("duration_ms".to_owned());
    names.push("nodes_executed".to_owned());
    names.push("ancestor_run_id".to_owned());
    names.push("error_message".to_owned());
    assert(texts(names@) =~= meta_fields());
    names
}

/// The fields of the record of a run.
pub(crate) fn run_names() -> (r: Vec<String>)
    ensures
        texts(r@) == run_fields(),
{
    let mut names: Vec<String> = Vec::new();
    names.push("metadata".to_owned());
    names.push("nodes".to_owned());
    names.push("config_snapshot".to_owned());
    names.push("input_snapshot".to_owned());
    names.push("output_snapshot".to_owned());
    assert(texts(names@) =~= run_fields());
    names
}

fn node_record_from_json(j: Json) -> (r: Option<NodeRecord>)
    ensures
        match r {
            Some(n) => node_rec_from(json_tree(j), n@),
            None => !is_node_rec(json_tree(j)),
        },
{
    let names = node_names();
    let mut m = match open_struct(j, &names) {
        Some(m) => m,
        None => {
            return None;
        },
    };
    proof {
        lemma_node_fields();
        let f = node_fields();
        assert(f[0] == "name"@ && f[1] == "engine"@ && f[2] == "code"@ && f[3] == "inputs"@ && f[4]
            == "output"@ && f[5] == "status"@ && f[6] == "started_at"@ && f[7] == "ended_at"@
            && f[8] == "error"@);
    }
    let name = read_text(take_member(&mut m, "name"));
    let engine = read_text(take_member(&mut m, "engine"));
    let code = read_text(take_member(&mut m, "code"));
    let inputs = take_member(&mut m, "inputs");
    let output = read_opt_value(take_member(&mut m, "output"));
    let status = read_node_status(take_member(&mut m, "status"));
    let started_at = read_time(take_member(&mut m, "started_at"));
    let ended_at = read_time(take_member(&mut m, "ended_at"));
    let error = read_opt_text(take_member(&mut m, "error"));
    match (name, engine, code, inputs, status, started_at, ended_at, error) {
        (
            Some(name),
            Some(engine),
            Some(code),
            Some(inputs),
            Some(status),
            Some(started_at),
            Some(ended_at),
            Some(error),
        ) => Some(
            NodeRecord {
                name,
                engine,
                code,
                inputs: value_from_json(inputs),
                output,
                status,
                started_at,
                ended_at,
                error,
            },
        ),
        _ => None,
    }
}

fn metadata_from_json(j: Json) -> (r: Option<RunMetadata>)
    ensures
        match r {
            Some(d) => meta_from(json_tree(j), d@),
            None => !is_meta(json_tree(j)),
        },
{
    let names = meta_names();
    let mut m = match open_struct(j, &names) {
        Some(m) => m,
        None => {
            return None;
        },
    };
    proof {
        lemma_meta_fields();
        let f = meta_fields();
        assert(f[0] == "run_id"@ && f[1] == "pipeline_name"@ && f[2] == "status"@ && f[3]
            == "start_time"@ && f[4] == "end_time"@ && f[5] == "duration_ms"@ && f[6]
            == "nodes_executed"@ && f[7] == "ancestor_run_id"@ && f[8] == "error_message"@);
    }
    let run_id = read_text(take_member(&mut m, "run_id"));
    let pipeline_name = read_text(take_member(&mut m, "pipeline_name"));
    let status = read_run_status(take_member(&mut m, "status"));
    let start_time = read_time(take_member(&mut m, "start_time"));
    let end_time = read_time(take_member(&mut m, "end_time"));
    let duration_ms = read_count(take_member(&mut m, "duration_ms"));
    let nodes_executed = read_count(take_member(&mut m, "nodes_executed"));
    let ancestor_run_id = read_opt_uuid(take_member(&mut m, "ancestor_run_id"));
    let error_message = read_opt_text(take_member(&mut m, "error_message"));
    match (
        run_id,
        pipeline_name,
        status,
        start_time,
        end_time,
        duration_ms,
        nodes_executed,
        ancestor_run_id,
        error_message,
    ) {
        (
            Some(run_id),
            Some(pipeline_name),
            Some(status),
            Some(start_time),
            Some(end_time),
            Some(duration_ms),
            Some(nodes_executed),
            Some(ancestor_run_id),
            Some(error_message),
        ) => {
            if nodes_executed > usize::MAX as u64 {
                return None;
            }
            Some(
                RunMetadata {
                    run_id,
                    pipeline_name,
                    status,
                    start_time,
                    end_time,
                    duration_ms: duration_ms as u128,
                    nodes_executed: nodes_executed as usize,
                    ancestor_run_id,
                    error_message,
                },
            )
        },
        _ => None,
    }
}

fn node_records_from_json(j: Option<Json>) -> (r: Option<Vec<NodeRecord>>)
    ensures
        match r {
            Some(v) => opt_tree(j) matches Some(Tree::Array(s)) && node_recs_from(
                s,
                node_recs(v@),
            ),
            None => !is_node_recs(opt_tree(j)),
        },
{
    let document = match j {
        Some(document) => document,
        None => {
            return None;
        },
    };
    match json_open(document) {
        Node::Array(items) => {
            let ghost s = trees(items@);
            let mut r: Vec<NodeRecord> = Vec::new();
            for item in it: items.into_iter()
                invariant
                    it.seq() == items@,
                    s == trees(items@),
                    opt_tree(j) == Some(Tree::Array(s)),
                    r@.len() == it.index(),
                    forall|i: int|
                        0 <= i < r@.len() ==> node_rec_from(#[trigger] s[i], r@[i].view()),
            {
                let ghost k = it.index() as int;
                assert(s[k] == json_tree(item));
                match node_record_from_json(item) {
                    Some(n) => {
                        r.push(n);
                    },
                    None => {
                        assert(!is_node_rec(s[k]));
                        return None;
                    },
                }
            }
            assert forall|i: int| 0 <= i < s.len() implies node_rec_from(
                #[trigger] s[i],
                node_recs(r@)[i],
            ) by {}
            Some(r)
        },
        _ => None,
    }
}

/// Reads the JSON form of the record of a run.
pub fn run_from_json(j: Json) -> (r: Option<RunRecord>)
    ensures
        match r {
            Some(d) => run_from(json_tree(j), d@),
            None => !is_run(json_tree(j)),
        },
{
    let names = run_names();
    let mut m = match open_struct(j, &names) {
        Some(m) => m,
        None => {
            return None;
        },
    };
    proof {
        lemma_run_fields();
        let f = run_fields();
        assert(f[0] == "metadata"@ && f[1] == "nodes"@ && f[2] == "config_snapshot"@ && f[3]
            == "input_snapshot"@ && f[4] == "output_snapshot"@);
    }
    let metadata = match take_member(&mut m, "metadata") {
        Some(j) => metadata_from_json(j),
        None => None,
    };
    let nodes = node_records_from_json(take_member(&mut m, "nodes"));
    let config_snapshot = read_text(take_member(&mut m, "config_snapshot"));
    let input_snapshot = take_member(&mut m, "input_snapshot");
    let output_snapshot = take_member(&mut m, "output_snapshot");
    match (metadata, nodes, config_snapshot, input_snapshot, output_snapshot) {
        (
            Some(metadata),
            Some(nodes),
            Some(config_snapshot),
            Some(input_snapshot),
            Some(output_snapshot),
        ) => Some(
            RunRecord {
                metadata,
                nodes,
                config_snapshot,
                input_snapshot: value_from_json(input_snapshot),
                output_snapshot: value_from_json(output_snapshot),
            },
        ),
        _ => None,
    }
}

/// Whether the instant is read back from its text.
pub open spec fn time_reads_back(t: Timestamp) -> bool {
    time_text(t.secs(), t.nanos()) matches Some(s) && time_parse(s) == Some((t.secs(), t.nanos()))
}

/// Whether an instant is a common one.
pub open spec fn common(t: Timestamp) -> bool {
    common_time(t.secs(), t.nanos())
}

/// Whether the instants of a record of a run are common ones.
pub open spec fn run_times_common(r: RunRec) -> bool {
    common(r.metadata.start_time) && common(r.metadata.end_time) && forall|i: int|
        0 <= i < r.nodes.len() ==> common((#[trigger] r.nodes[i]).started_at) && common(
            r.nodes[i].ended_at,
        )
}

/// Whether the instants of a record of a node are read back from their texts.
pub open spec fn node_times_read_back(n: NodeRec) -> bool {
    time_reads_back(n.started_at) && time_reads_back(n.ended_at)
}

/// Whether the instants and the UUID of metadata are read back from their texts.
pub open spec fn meta_reads_back(d: MetaRec) -> bool {
    &&& time_reads_back(d.start_time)
    &&& time_reads_back(d.end_time)
    &&& d.ancestor_run_id matches Some(n) ==> uuid_parse(uuid_text(n)) == Some(n)
}

/// Whether the instants and the UUID of a record of a run are read back from their texts.
pub open spec fn run_reads_back(r: RunRec) -> bool {
    meta_reads_back(r.metadata) && forall|i: int|
        0 <= i < r.nodes.len() ==> node_times_read_back(#[trigger] r.nodes[i])
}

/// What is left of a value that may be missing once it was written and read back: one that is
/// written as null comes back as missing.
pub open spec fn plain_output(v: Option<Val>) -> Option<Val> {
    match v {
        Some(x) => if val_tree(x) == Tree::Null {
            None
        } else {
            Some(plain(x))
        },
        None => None,
    }
}

/// What is left of a record of a node once it was written and read back.
pub open spec fn plain_node(n: NodeRec) -> NodeRec {
    NodeRec { inputs: plain(n.inputs), output: plain_output(n.output), ..n }
}

/// What is left of a record of a run once it was written and read back: everything but the forms
/// of its values.
pub open spec fn plain_run(r: RunRec) -> RunRec {
    RunRec {
        nodes: Seq::new(r.nodes.len(), |i: int| plain_node(r.nodes[i])),
        input_snapshot: plain(r.input_snapshot),
        output_snapshot: plain(r.output_snapshot),
        ..r
    }
}

proof fn lemma_lookup_field(m: Seq<(Seq<char>, Tree)>, names: Seq<Seq<char>>, i: int)
    requires
        distinct_texts(names),
        m.len() == names.len(),
        forall|j: int| 0 <= j < m.len() ==> (#[trigger] m[j]).0 == names[j],
        0 <= i < m.len(),
    ensures
        lookup(m, names[i]) == Some(m[i].1),
{
    assert forall|j: int| 0 <= j < i implies (#[trigger] m[j]).0 != m[i].0 by {
        assert(names[j] != names[i]);
    }
    lemma_lookup_first(m, i);
}

/// The metadata that is read from what metadata was written as is the same metadata.
pub proof fn lemma_meta_round_trip(d: MetaRec, back: MetaRec)
    requires
        d.duration_ms <= u64::MAX,
        d.nodes_executed <= u64::MAX,
        meta_reads_back(d),
    ensures
        is_meta(meta_tree(d)),
        meta_from(meta_tree(d), back) ==> back == d,
{
    let m = meta_tree(d)->Object_0;
    let f = meta_fields();
    lemma_meta_fields();
    assert forall|j: int| 0 <= j < m.len() implies (#[trigger] m[j]).0 == f[j] by {}
    assert(f[0] == "run_id"@ && f[1] == "pipeline_name"@ && f[2] == "status"@ && f[3]
        == "start_time"@ && f[4] == "end_time"@ && f[5] == "duration_ms"@ && f[6]
        == "nodes_executed"@ && f[7] == "ancestor_run_id"@ && f[8] == "error_message"@);
    lemma_lookup_field(m, f, 0);
    lemma_lookup_field(m, f, 1);
    lemma_lookup_field(m, f, 2);
    lemma_lookup_field(m, f, 3);
    lemma_lookup_field(m, f, 4);
    lemma_lookup_field(m, f, 5);
    lemma_lookup_field(m, f, 6);
    lemma_lookup_field(m, f, 7);
    lemma_lookup_field(m, f, 8);
    lemma_run_status_names(d.status);
    if meta_from(meta_tree(d), back) {
        Timestamp::lemma_fields(back.start_time, d.start_time);
        Timestamp::lemma_fields(back.end_time, d.end_time);
    }
}

proof fn lemma_run_status_names(s: RunStatus)
    ensures
        run_status_named(Some(run_status_name(s))) == Some(s),
{
    reveal_strlit("Started");
    reveal_strlit("Completed");
    reveal_strlit("Failed");
    assert("Started"@.len() == 7 && "Completed"@.len() == 9 && "Failed"@.len() == 6);
}

proof fn lemma_node_status_names(s: NodeStatus)
    ensures
        node_status_named(Some(node_status_name(s))) == Some(s),
{
    reveal_strlit("Pending");
    reveal_strlit("Running");
    reveal_strlit("Completed");
    reveal_strlit("Failed");
    assert("Pending"@.len() == 7 && "Running"@.len() == 7 && "Completed"@.len() == 9
        && "Failed"@.len() == 6);
    assert("Pending"@[0] != "Running"@[0]);
}

/// The record of a node that is read from what one was written as is its plain form.
pub proof fn lemma_node_rec_round_trip(n: NodeRec, back: NodeRec)
    requires
        node_rec_orderly(n),
        node_times_read_back(n),
    ensures
        is_node_rec(node_rec_tree(n)),
        node_rec_from(node_rec_tree(n), back) ==> back == plain_node(n),
{
    let m = node_rec_tree(n)->Object_0;
    let f = node_fields();
    lemma_node_fields();
    assert forall|j: int| 0 <= j < m.len() implies (#[trigger] m[j]).0 == f[j] by {}
    assert(f[0] == "name"@ && f[1] == "engine"@ && f[2] == "code"@ && f[3] == "inputs"@ && f[4]
        == "output"@ && f[5] == "status"@ && f[6] == "started_at"@ && f[7] == "ended_at"@ && f[8]
        == "error"@);
    lemma_lookup_field(m, f, 0);
    lemma_lookup_field(m, f, 1);
    lemma_lookup_field(m, f, 2);
    lemma_lookup_field(m, f, 3);
    lemma_lookup_field(m, f, 4);
    lemma_lookup_field(m, f, 5);
    lemma_lookup_field(m, f, 6);
    lemma_lookup_field(m, f, 7);
    lemma_lookup_field(m, f, 8);
    lemma_node_status_names(n.status);
    lemma_value_round_trip(n.inputs);
    if let Some(v) = n.output {
        lemma_value_round_trip(v);
    }
    if node_rec_from(node_rec_tree(n), back) {
        Timestamp::lemma_fields(back.started_at, n.started_at);
        Timestamp::lemma_fields(back.ended_at, n.ended_at);
    }
}

/// The record of a run that is read from what one was written as is its plain form.
pub proof fn lemma_run_round_trip(r: RunRec, back: RunRec)
    requires
        run_rec_orderly(r),
        run_reads_back(r),
        r.metadata.duration_ms <= u64::MAX,
        r.metadata.nodes_executed <= u64::MAX,
    ensures
        is_run(run_tree(r)),
        run_from(run_tree(r), back) ==> back == plain_run(r),
{
    let m = run_tree(r)->Object_0;
    let f = run_fields();
    lemma_run_fields();
    assert forall|j: int| 0 <= j < m.len() implies (#[trigger] m[j]).0 == f[j] by {}
    assert(f[0] == "metadata"@ && f[1] == "nodes"@ && f[2] == "config_snapshot"@ && f[3]
        == "input_snapshot"@ && f[4] == "output_snapshot"@);
    lemma_lookup_field(m, f, 0);
    lemma_lookup_field(m, f, 1);
    lemma_lookup_field(m, f, 2);
    lemma_lookup_field(m, f, 3);
    lemma_lookup_field(m, f, 4);
    lemma_meta_round_trip(r.metadata, back.metadata);
    lemma_value_round_trip(r.input_snapshot);
    lemma_value_round_trip(r.output_snapshot);
    let s = Seq::new(r.nodes.len(), |i: int| node_rec_tree(r.nodes[i]));
    assert forall|i: int| 0 <= i < s.len() implies is_node_rec(#[trigger] s[i]) by {
        lemma_node_rec_round_trip(r.nodes[i], r.nodes[i]);
    }
    if run_from(run_tree(r), back) {
        assert(node_recs_from(s, back.nodes));
        assert forall|i: int| 0 <= i < s.len() implies back.nodes[i] == plain_node(r.nodes[i]) by {
            assert(node_rec_from(s[i], back.nodes[i]));
            lemma_node_rec_round_trip(r.nodes[i], back.nodes[i]);
        }
        assert(back.nodes =~= plain_run(r).nodes);
    }
}

/// The compact JSON text of the record of a run.
pub fn run_json(d: &RunRecord) -> (r: String)
    requires
        d.metadata.duration_ms <= u64::MAX,
    ensures
        r@ == json_text(run_tree(d@)),
{
    json_show(&run_to_json(d))
}

/// The record of a run that a JSON text holds, if it holds one.
pub fn run_of_json(text: &str) -> (r: Option<RunRecord>)
    ensures
        match r {
            Some(d) => holds_run(encode_utf8(text@), d@),
            None => !run_bytes(encode_utf8(text@)),
        },
{
    run_of_bytes(text.as_bytes())
}

fn copy_opt_text(s: &Option<String>) -> (r: Option<String>)
    ensures
        opt_text(r) == opt_text(*s),
{
    match s {
        Some(t) => Some(t.clone()),
        None => None,
    }
}

impl Clone for NodeRecord {
    fn clone(&self) -> (r: Self)
        ensures
            r@ == self@,
    {
        NodeRecord {
            name: self.name.clone(),
            engine: self.engine.clone(),
            code: self.code.clone(),
            inputs: copy_value(&self.inputs),
            output: match &self.output {
                Some(v) => Some(copy_value(v)),
                None => None,
            },
            status: self.status,
            started_at: self.started_at,
            ended_at: self.ended_at,
            error: copy_opt_text(&self.error),
        }
    }
}

impl Clone for RunMetadata {
    fn clone(&self) -> (r: Self)
        ensures
            r@ == self@,
    {
        RunMetadata {
            run_id: self.run_id.clone(),
            pipeline_name: self.pipeline_name.clone(),
            status: self.status,
            start_time: self.start_time,
            end_time: self.end_time,
            duration_ms: self.duration_ms,
            nodes_executed: self.nodes_executed,
            ancestor_run_id: self.ancestor_run_id,
            error_message: copy_opt_text(&self.error_message),
        }
    }
}

impl Clone for RunRecord {
    fn clone(&self) -> (r: Self)
        ensures
            r@ == self@,
    {
        let mut nodes: Vec<NodeRecord> = Vec::new();
        let mut i: usize = 0;
        while i < self.nodes.len()
            invariant
                i <= self.nodes@.len(),
                nodes@.len() == i,
                forall|j: int| 0 <= j < i ==> (#[trigger] nodes@[j]).view() == self.nodes@[j].view(),
            decreases self.nodes.len() - i,
        {
            nodes.push(self.nodes[i].clone());
            i += 1;
        }
        assert(node_recs(nodes@) =~= node_recs(self.nodes@));
        RunRecord {
            metadata: self.metadata.clone(),
            nodes,
            config_snapshot: self.config_snapshot.clone(),
            input_snapshot: copy_value(&self.input_snapshot),
            output_snapshot: copy_value(&self.output_snapshot),
        }
    }
}

/// What stands under a name in a JSON object.
pub open spec fn member_of(t: Tree, name: Seq<char>) -> Option<Tree> {
    match t {
        Tree::Object(m) => lookup(m, name),
        _ => None,
    }
}

/// The text of an instant, in JSON.
pub open spec fn tells_time(t: Option<Tree>, at: Timestamp) -> bool {
    time_text(at.secs(), at.nanos()) matches Some(s) ==> t == Some(Tree::Text(s))
}

/// The JSON form of metadata says under their names which run it is, of which pipeline, how it ended,
/// when it began and when it ended, how long it took, how many nodes ran, which run it repeats and why
/// it failed.
pub proof fn lemma_metadata_form(d: MetaRec)
    requires
        d.duration_ms <= u64::MAX,
        d.nodes_executed <= u64::MAX,
    ensures
        member_of(meta_tree(d), "run_id"@) == Some(Tree::Text(d.run_id)),
        member_of(meta_tree(d), "pipeline_name"@) == Some(Tree::Text(d.pipeline_name)),
        member_of(meta_tree(d), "status"@) == Some(Tree::Text("Completed"@)) <==> d.status
            == RunStatus::Completed,
        member_of(meta_tree(d), "status"@) == Some(Tree::Text("Failed"@)) <==> d.status
            == RunStatus::Failed,
        member_of(meta_tree(d), "status"@) == Some(Tree::Text("Started"@)) <==> d.status
            == RunStatus::Started,
        tells_time(member_of(meta_tree(d), "start_time"@), d.start_time),
        tells_time(member_of(meta_tree(d), "end_time"@), d.end_time),
        member_of(meta_tree(d), "duration_ms"@) matches Some(Tree::Unsigned(n)) && n == d.duration_ms,
        member_of(meta_tree(d), "nodes_executed"@) matches Some(Tree::Unsigned(n)) && n
            == d.nodes_executed,
        member_of(meta_tree(d), "ancestor_run_id"@) == match d.ancestor_run_id {
            Some(n) => Some(Tree::Text(uuid_text(n))),
            None => Some(Tree::Null),
        },
        member_of(meta_tree(d), "error_message"@) == match d.error_message {
            Some(e) => Some(Tree::Text(e)),
            None => Some(Tree::Null),
        },
{
    reveal_strlit("Started");
    reveal_strlit("Completed");
    reveal_strlit("Failed");
    assert("Started"@.len() == 7 && "Completed"@.len() == 9 && "Failed"@.len() == 6);
    let m = meta_tree(d)->Object_0;
    let f = meta_fields();
    lemma_meta_fields();
    assert forall|j: int| 0 <= j < m.len() implies (#[trigger] m[j]).0 == f[j] by {}
    assert(f[0] == "run_id"@ && f[1] == "pipeline_name"@ && f[2] == "status"@ && f[3]
        == "start_time"@ && f[4] == "end_time"@ && f[5] == "duration_ms"@ && f[6]
        == "nodes_executed"@ && f[7] == "ancestor_run_id"@ && f[8] == "error_message"@);
    lemma_lookup_field(m, f, 0);
    lemma_lookup_field(m, f, 1);
    lemma_lookup_field(m, f, 2);
    lemma_lookup_field(m, f, 3);
    lemma_lookup_field(m, f, 4);
    lemma_lookup_field(m, f, 5);
    lemma_lookup_field(m, f, 6);
    lemma_lookup_field(m, f, 7);
    lemma_lookup_field(m, f, 8);
}

/// The JSON form of the record of a node says under their names which node it is, on which engine it
/// ran which code, what it was handed and what it put out, how and when it ended, and why it failed.
pub proof fn lemma_node_form(n: NodeRec)
    ensures
        member_of(node_rec_tree(n), "name"@) == Some(Tree::Text(n.name)),
        member_of(node_rec_tree(n), "engine"@) == Some(Tree::Text(n.engine)),
        member_of(node_rec_tree(n), "code"@) == Some(Tree::Text(n.code)),
        member_of(node_rec_tree(n), "inputs"@) == Some(val_tree(n.inputs)),
        member_of(node_rec_tree(n), "output"@) == match n.output {
            Some(v) => Some(val_tree(v)),
            None => Some(Tree::Null),
        },
        member_of(node_rec_tree(n), "status"@) == Some(Tree::Text("Completed"@)) <==> n.status
            == NodeStatus::Completed,
        member_of(node_rec_tree(n), "status"@) == Some(Tree::Text("Failed"@)) <==> n.status
            == NodeStatus::Failed,
        member_of(node_rec_tree(n), "status"@) == Some(Tree::Text("Pending"@)) <==> n.status
            == NodeStatus::Pending,
        member_of(node_rec_tree(n), "status"@) == Some(Tree::Text("Running"@)) <==> n.status
            == NodeStatus::Running,
        tells_time(member_of(node_rec_tree(n), "started_at"@), n.started_at),
        tells_time(member_of(node_rec_tree(n), "ended_at"@), n.ended_at),
        member_of(node_rec_tree(n), "error"@) == match n.error {
            Some(e) => Some(Tree::Text(e)),
            None => Some(Tree::Null),
        },
{
    reveal_strlit("Pending");
    reveal_strlit("Running");
    reveal_strlit("Completed");
    reveal_strlit("Failed");
    assert("Pending"@.len() == 7 && "Running"@.len() == 7 && "Completed"@.len() == 9
        && "Failed"@.len() == 6 && "Pending"@[0] == 'P' && "Running"@[0] == 'R');
    let m = node_rec_tree(n)->Object_0;
    let f = node_fields();
    lemma_node_fields();
    assert forall|j: int| 0 <= j < m.len() implies (#[trigger] m[j]).0 == f[j] by {}
    assert(f[0] == "name"@ && f[1] == "engine"@ && f[2] == "code"@ && f[3] == "inputs"@ && f[4]
        == "output"@ && f[5] == "status"@ && f[6] == "started_at"@ && f[7] == "ended_at"@ && f[8]
        == "error"@);
    lemma_lookup_field(m, f, 0);
    lemma_lookup_field(m, f, 1);
    lemma_lookup_field(m, f, 2);
    lemma_lookup_field(m, f, 3);
    lemma_lookup_field(m, f, 4);
    lemma_lookup_field(m, f, 5);
    lemma_lookup_field(m, f, 6);
    lemma_lookup_field(m, f, 7);
    lemma_lookup_field(m, f, 8);
}

/// The JSON form of the record of a run holds under their names its metadata, the records of its nodes
/// in their order, its configuration, its inputs and its outputs.
pub proof fn lemma_run_form(r: RunRec)
    ensures
        member_of(run_tree(r), "metadata"@) == Some(meta_tree(r.metadata)),
        member_of(run_tree(r), "nodes"@) matches Some(Tree::Array(s)) && s.len() == r.nodes.len()
            && forall|i: int| 0 <= i < s.len() ==> #[trigger] s[i] == node_rec_tree(r.nodes[i]),
        member_of(run_tree(r), "config_snapshot"@) == Some(Tree::Text(r.config_snapshot)),
        member_of(run_tree(r), "input_snapshot"@) == Some(val_tree(r.input_snapshot)),
        member_of(run_tree(r), "output_snapshot"@) == Some(val_tree(r.output_snapshot)),
{
    let m = run_tree(r)->Object_0;
    let f = run_fields();
    lemma_run_fields();
    assert forall|j: int| 0 <= j < m.len() implies (#[trigger] m[j]).0 == f[j] by {}
    assert(f[0] == "metadata"@ && f[1] == "nodes"@ && f[2] == "config_snapshot"@ && f[3]
        == "input_snapshot"@ && f[4] == "output_snapshot"@);
    lemma_lookup_field(m, f, 0);
    lemma_lookup_field(m, f, 1);
    lemma_lookup_field(m, f, 2);
    lemma_lookup_field(m, f, 3);
    lemma_lookup_field(m, f, 4);
}

/// What is left of a record once it was written and read back is the record, but for the forms of its
/// values: a record whose values JSON can tell from all others is left as it is.
pub proof fn lemma_plain_run(r: RunRec)
    requires
        plain_kind(r.input_snapshot),
        plain_kind(r.output_snapshot),
        forall|i: int|
            0 <= i < r.nodes.len() ==> plain_kind((#[trigger] r.nodes[i]).inputs) && (
            r.nodes[i].output matches Some(v) ==> plain_kind(v) && !(v is Null)),
    ensures
        plain_run(r) == r,
{
    lemma_plain_kind_kept(r.input_snapshot);
    lemma_plain_kind_kept(r.output_snapshot);
    assert forall|i: int| 0 <= i < r.nodes.len() implies plain_node(#[trigger] r.nodes[i])
        == r.nodes[i] by {
        let n = r.nodes[i];
        lemma_plain_kind_kept(n.inputs);
        if let Some(v) = n.output {
            lemma_plain_kind_kept(v);
        }
    }
    assert(plain_run(r).nodes =~= r.nodes);
}

/// The number that hexadecimal digits stand for.
pub open spec fn hex_number(s: Seq<char>) -> int
    decreases s.len(),
{
    if s.len() == 0 {
        0
    } else {
        16 * hex_number(s.drop_last()) + hex_value(s.last())
    }
}

/// The digits of the text of a UUID, without the hyphens.
pub open spec fn uuid_digits(s: Seq<char>) -> Seq<char> {
    s.subrange(0, 8) + s.subrange(9, 13) + s.subrange(14, 18) + s.subrange(19, 23) + s.subrange(24, 36)
}

proof fn lemma_hex_digits(n: u128, s: Seq<char>, k: nat)
    requires
        s.len() == 32,
        k <= 32,
        forall|i: int| 0 <= i < 32 ==> #[trigger] s[i] == hex_digit(n, i),
    ensures
        hex_number(s.take(k as int)) == n as int / pow(16, (32 - k) as nat),
    decreases k,
{
    let p = pow(16, (32 - k) as nat);
    lemma_pow_positive(16, (32 - k) as nat);
    if k == 0 {
        assert(pow(16, 32) == 0x1_0000_0000_0000_0000_0000_0000_0000_0000) by {
            reveal_with_fuel(pow, 33);
        }
        assert((n as int) / p == 0) by (nonlinear_arith)
            requires
                0 <= n as int,
                (n as int) < p,
        ;
    } else {
        let j = (k - 1) as nat;
        lemma_hex_digits(n, s, j);
        let q = pow(16, (32 - j) as nat);
        assert(q == 16 * p) by {
            reveal(pow);
        }
        assert(s.take(k as int).drop_last() =~= s.take(j as int));
        assert(s.take(k as int).last() == s[j as int]);
        let m = n as int / p;
        vstd::arithmetic::div_mod::lemma_div_denominator(n as int, p, 16);
        assert(p * 16 == q);
        assert(n as int / q == m / 16);
        assert(s[j as int] == hex_char(m % 16));
        assert(hex_value(hex_char(m % 16)) == m % 16);
        assert(m == 16 * (m / 16) + m % 16);
    }
}

/// The text of a UUID has hyphens behind the eighth, the twelfth, the sixteenth and the twentieth digit,
/// and its digits read as the number.
pub proof fn lemma_uuid_read(n: u128)
    ensures
        uuid_text(n).len() == 36,
        uuid_text(n)[8] == '-' && uuid_text(n)[13] == '-' && uuid_text(n)[18] == '-' && uuid_text(n)[23]
            == '-',
        hex_number(uuid_digits(uuid_text(n))) == n,
{
    let s = uuid_digits(uuid_text(n));
    assert forall|i: int| 0 <= i < 32 implies #[trigger] s[i] == hex_digit(n, i) by {}
    lemma_hex_digits(n, s, 32);
    assert(s.take(32) =~= s);
    assert(pow(16, 0) == 1) by {
        reveal(pow);
    }
    assert(n as int / 1 == n);
}

} // verus!
