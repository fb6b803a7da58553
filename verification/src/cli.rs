//! What the commands decide: which files they use, what they ask of the store and what they show.

use crate::config::PipelineConfig;
use crate::config::{ConfigFault, PipelineSpec};
use crate::error::CliError;
use crate::json::lemma_object_value;
use crate::json::{json_parse, json_text, tree_val, val_tree, Parsed, Tree};
use crate::json::{json_read, value_from_json};
use crate::record::parse_uuid;
use crate::record::uuid_parse;
use crate::record::{NodeRec, RunRec};
use crate::record::{NodeStatus, RunRecord, RunStatus};
use crate::report::{diff_lines, lines, raw_text};
use crate::report::{format_value, generate_diff_report, raw_run, Span};
use crate::runtext::holds_run;
use crate::store::not_a_run;
use crate::store::{Store, StoreError};
use crate::strmap::lookup;
use crate::strmap::StrMap;
use crate::text::{cat, cat3, join};
use crate::text::{joined, texts};
use crate::value::{lemma_dict_view, pair_vals};
use crate::value::{Val, Value};
use crate::yaml::config_of;
use crate::yaml::parse_config;
use vstd::prelude::*;
use vstd::utf8::encode_utf8;

verus! {

/// Checks that a text is the identifier of a run.
pub fn validate_run_id(id: &str) -> (r: Result<u128, CliError>)
    ensures
        match uuid_parse(id@) {
            Some(n) => r matches Ok(m) && m == n,
            None => r matches Err(CliError::Validation(s)) && s@ == "invalid run id format: "@ + id@,
        },
{
    match parse_uuid(id) {
        Some(n) => Ok(n),
        None => Err(CliError::Validation(cat("invalid run id format: ", id))),
    }
}

/// Gets a run that must be there.
pub fn get_run<S: Store>(store: &S, id: &str) -> (r: Result<RunRecord, CliError>)
    ensures
        match r {
            Ok(record) => lookup(store.contents(), id@) matches Some(b) && holds_run(b, record@),
            Err(CliError::RunNotFound(s)) => s@ == id@ && lookup(store.contents(), id@) is None,
            Err(CliError::Store(StoreError::Serialization(s))) => lookup(
                store.contents(),
                id@,
            ) matches Some(b) && not_a_run(b, s@),
            Err(CliError::Store(StoreError::Storage(_))) => !store.infallible(),
            Err(_) => false,
        },
{
    match store.get_run(id) {
        Ok(Some(record)) => Ok(record),
        Ok(None) => Err(CliError::RunNotFound(id.to_owned())),
        Err(e) => Err(CliError::Store(e)),
    }
}

/// The inputs that a JSON document holds, if it is an object.
pub open spec fn document_inputs(t: Tree) -> Option<Seq<(Seq<char>, Val)>> {
    match tree_val(t) {
        Val::Dict(s) => Some(s),
        _ => None,
    }
}

/// The inputs in a document.
pub fn inputs_of_value(value: Value) -> (r: Option<StrMap<Value>>)
    ensures
        match r {
            Some(m) => value@ == Val::Dict(pair_vals(m.pairs())),
            None => !(value@ is Dict),
        },
{
    match value {
        Value::Dict(m) => {
            proof {
                lemma_dict_view(m);
            }
            Some(m)
        },
        _ => None,
    }
}

/// Reads the inputs of a run from JSON text.
pub fn parse_inputs(source: &str) -> (r: Result<StrMap<Value>, CliError>)
    ensures
        match json_parse(encode_utf8(source@)) {
            Parsed::Document(t) => match document_inputs(t) {
                Some(s) => r matches Ok(m) && pair_vals(m.pairs()) == s,
                None => r matches Err(e) && unreadable_inputs(e),
            },
            Parsed::Fault(_) => r matches Err(e) && unreadable_inputs(e),
        },
{
    match json_read(source.as_bytes()) {
        Ok(j) => match inputs_of_value(value_from_json(j)) {
            Some(m) => Ok(m),
            None => Err(CliError::Anyhow("failed to parse JSON input file".to_owned())),
        },
        Err(_) => Err(CliError::Anyhow("failed to parse JSON input file".to_owned())),
    }
}

/// The inputs of a run: those in the JSON text, or none if there is no text.
pub fn load_inputs(source: Option<&str>) -> (r: Result<StrMap<Value>, CliError>)
    ensures
        match source {
            None => r matches Ok(m) && m.pairs().len() == 0,
            Some(text) => match json_parse(encode_utf8(text@)) {
                Parsed::Document(t) => match document_inputs(t) {
                    Some(s) => r matches Ok(m) && pair_vals(m.pairs()) == s,
                    None => r matches Err(e) && unreadable_inputs(e),
                },
                Parsed::Fault(_) => r matches Err(e) && unreadable_inputs(e),
            },
        },
{
    match source {
        None => Ok(StrMap::new()),
        Some(text) => parse_inputs(text),
    }
}

/// Whether an error says that inputs could not be read.
pub open spec fn unreadable_inputs(e: CliError) -> bool {
    e matches CliError::Anyhow(s) && s@ == "failed to parse JSON input file"@
}

/// The inputs that a snapshot holds.
pub open spec fn snapshot_inputs(v: Val) -> Option<Seq<(Seq<char>, Val)>> {
    match v {
        Val::Dict(s) => Some(s),
        Val::Object(s) => Some(s),
        Val::Null => Some(Seq::empty()),
        _ => None,
    }
}

/// Takes the inputs out of the snapshot of a run.
pub fn extract_inputs(value: Value) -> (r: Result<StrMap<Value>, CliError>)
    ensures
        match snapshot_inputs(value@) {
            Some(s) => r matches Ok(m) && pair_vals(m.pairs()) == s,
            None => r matches Err(CliError::Validation(s)) && s@
                == "stored inputs are not a map or null: "@ + json_text(val_tree(value@)),
        },
{
    match value {
        Value::Dict(m) => {
            proof {
                lemma_dict_view(m);
            }
            Ok(m)
        },
        Value::Object(m) => {
            proof {
                lemma_dict_view(m);
            }
            Ok(m)
        },
        Value::Null => {
            let m: StrMap<Value> = StrMap::new();
            assert(pair_vals(m.pairs()) =~= Seq::<(Seq<char>, Val)>::empty());
            Ok(m)
        },
        other => Err(
            CliError::Validation(
                cat("stored inputs are not a map or null: ", format_value(&other).as_str()),
            ),
        ),
    }
}

/// The error of the first node that failed.
pub open spec fn first_error(nodes: Seq<NodeRec>) -> Option<Seq<char>>
    decreases nodes.len(),
{
    if nodes.len() == 0 {
        None
    } else if nodes[0].status == NodeStatus::Failed {
        nodes[0].error
    } else {
        first_error(nodes.drop_first())
    }
}

/// Why a run failed.
pub open spec fn failure(r: RunRec) -> Seq<char> {
    match first_error(r.nodes) {
        Some(e) => e,
        None => "pipeline execution failed"@,
    }
}

fn failed(s: &NodeStatus) -> (r: bool)
    ensures
        r == (*s == NodeStatus::Failed),
{
    match s {
        NodeStatus::Failed => true,
        _ => false,
    }
}

fn failure_text(record: &RunRecord) -> (r: String)
    ensures
        r@ == failure(record@),
{
    let ghost nodes = record@.nodes;
    let mut i: usize = 0;
    assert(nodes.skip(0) =~= nodes);
    while i < record.nodes.len()
        invariant
            i <= record.nodes@.len(),
            nodes == record@.nodes,
            first_error(nodes) == first_error(nodes.skip(i as int)),
        decreases record.nodes.len() - i,
    {
        let ghost rest = nodes.skip(i as int);
        assert(rest[0] == record.nodes@[i as int]@);
        if failed(&record.nodes[i].status) {
            return match &record.nodes[i].error {
                Some(e) => e.clone(),
                None => "pipeline execution failed".to_owned(),
            };
        }
        assert(rest.drop_first() =~= nodes.skip(i + 1));
        i += 1;
    }
    "pipeline execution failed".to_owned()
}

/// What comes of a run that was recorded: the record, or an error if the run failed.
pub fn run_outcome(record: RunRecord) -> (r: Result<RunRecord, CliError>)
    ensures
        if record@.metadata.status == RunStatus::Failed {
            r matches Err(CliError::ExecutionFailed(s)) && s@ == failure(record@)
        } else {
            r == Result::<RunRecord, CliError>::Ok(record)
        },
{
    match record.metadata.status {
        RunStatus::Failed => Err(CliError::ExecutionFailed(failure_text(&record))),
        _ => Ok(record),
    }
}

/// What is to be shown of a run.
#[derive(Debug)]
pub enum Shown {
    /// The whole record, as it is stored.
    Raw(RunRecord),
    /// A summary.
    Summary(RunRecord),
}

/// Whether a command refuses the identifier of a run, and says so.
pub open spec fn bad_id(e: CliError, id: Seq<char>) -> bool {
    uuid_parse(id) is None && (e matches CliError::Validation(s) && s@ == "invalid run id format: "@
        + id)
}

/// Whether a run cannot be had from the store, and the error says why.
pub open spec fn no_run<S: Store>(store: S, e: CliError, id: Seq<char>) -> bool {
    match e {
        CliError::RunNotFound(s) => s@ == id && lookup(store.contents(), id) is None,
        CliError::Store(StoreError::Serialization(s)) => lookup(
            store.contents(),
            id,
        ) matches Some(b) && not_a_run(b, s@),
        CliError::Store(StoreError::Storage(_)) => !store.infallible(),
        _ => false,
    }
}

/// Whether the store holds that run under that identifier.
pub open spec fn is_run_of<S: Store>(store: S, r: RunRec, id: Seq<char>) -> bool {
    uuid_parse(id) is Some && (lookup(store.contents(), id) matches Some(b) && holds_run(b, r))
}

fn find_run<S: Store>(store: &S, id: &str) -> (r: Result<RunRecord, CliError>)
    ensures
        match r {
            Ok(record) => is_run_of(*store, record@, id@),
            Err(e) => bad_id(e, id@) || uuid_parse(id@) is Some && no_run(*store, e, id@),
        },
{
    match validate_run_id(id) {
        Ok(_) => get_run(store, id),
        Err(e) => Err(e),
    }
}

/// Shows a run.
pub fn show_command<S: Store>(store: &S, id: &str, raw: bool) -> (r: Result<Shown, CliError>)
    ensures
        match r {
            Ok(Shown::Raw(record)) => raw && is_run_of(*store, record@, id@),
            Ok(Shown::Summary(record)) => !raw && is_run_of(*store, record@, id@),
            Err(e) => bad_id(e, id@) || uuid_parse(id@) is Some && no_run(*store, e, id@),
        },
{
    match find_run(store, id) {
        Ok(record) => if raw {
            Ok(Shown::Raw(record))
        } else {
            Ok(Shown::Summary(record))
        },
        Err(e) => Err(e),
    }
}

/// Compares two runs. Both identifiers are checked before either run is looked up, and the second
/// run is looked up only once the first was found.
pub fn diff_command<S: Store>(store: &S, id_1: &str, id_2: &str) -> (r: Result<
    Vec<Vec<Span>>,
    CliError,
>)
    ensures
        match r {
            Ok(report) => exists|left: RunRec, right: RunRec|
                {
                    &&& is_run_of(*store, left, id_1@)
                    &&& is_run_of(*store, right, id_2@)
                    &&& lines(report@) == #[trigger] diff_lines(left, right)
                },
            Err(e) => if uuid_parse(id_1@) is None {
                bad_id(e, id_1@)
            } else if uuid_parse(id_2@) is None {
                bad_id(e, id_2@)
            } else {
                no_run(*store, e, id_1@) || no_run(*store, e, id_2@) && exists|left: RunRec|
                    #[trigger] is_run_of(*store, left, id_1@)
            },
        },
{
    match validate_run_id(id_1) {
        Ok(_) => {},
        Err(e) => {
            return Err(e);
        },
    }
    match validate_run_id(id_2) {
        Ok(_) => {},
        Err(e) => {
            return Err(e);
        },
    }
    let left = match get_run(store, id_1) {
        Ok(record) => record,
        Err(e) => {
            return Err(e);
        },
    };
    assert(is_run_of(*store, left@, id_1@));
    let right = match get_run(store, id_2) {
        Ok(record) => record,
        Err(e) => {
            return Err(e);
        },
    };
    let report = generate_diff_report(&left, &right);
    assert(lines(report@) == diff_lines(left@, right@));
    Ok(report)
}

/// What a run is repeated with.
#[derive(Debug)]
pub struct Rerun {
    pub pipeline: PipelineConfig,
    pub inputs: StrMap<Value>,
    pub ancestor: u128,
}

/// Whether a run is repeated with its own configuration and inputs, as its descendant.
pub open spec fn repeats(again: Rerun, original: RunRec) -> bool {
    &&& config_of(original.config_snapshot) == Result::<PipelineSpec, ConfigFault>::Ok(
        again.pipeline@,
    )
    &&& snapshot_inputs(original.input_snapshot) == Some(pair_vals(again.inputs.pairs()))
    &&& uuid_parse(original.metadata.run_id) == Some(again.ancestor)
}

/// Why a run cannot be repeated: the first of its configuration, its inputs and its identifier that
/// cannot be used again.
pub open spec fn unrepeatable(e: CliError, original: RunRec) -> bool {
    match config_of(original.config_snapshot) {
        Err(f) => e matches CliError::Config(c) && c@ == f,
        Ok(_) => match snapshot_inputs(original.input_snapshot) {
            None => e matches CliError::Validation(s) && s@
                == "stored inputs are not a map or null: "@ + json_text(
                val_tree(original.input_snapshot),
            ),
            Some(_) => uuid_parse(original.metadata.run_id) is None && (
            e matches CliError::Validation(s) && s@ == "invalid ancestor run id: "@
                + original.metadata.run_id),
        },
    }
}

/// What a recorded run is repeated with.
pub fn plan_rerun(original: RunRecord) -> (r: Result<Rerun, CliError>)
    ensures
        match r {
            Ok(again) => repeats(again, original@),
            Err(e) => unrepeatable(e, original@),
        },
{
    let pipeline = match parse_config(original.config_snapshot.as_str()) {
        Ok(p) => p,
        Err(e) => {
            return Err(CliError::Config(e));
        },
    };
    let inputs = match extract_inputs(original.input_snapshot) {
        Ok(m) => m,
        Err(e) => {
            return Err(e);
        },
    };
    match parse_uuid(original.metadata.run_id.as_str()) {
        Some(ancestor) => Ok(Rerun { pipeline, inputs, ancestor }),
        None => Err(
            CliError::Validation(
                cat("invalid ancestor run id: ", original.metadata.run_id.as_str()),
            ),
        ),
    }
}

/// What a stored run is repeated with.
pub fn rerun_command<S: Store>(store: &S, id: &str) -> (r: Result<Rerun, CliError>)
    ensures
        match r {
            Ok(again) => exists|original: RunRec| #[trigger]
                is_run_of(*store, original, id@) && repeats(again, original),
            Err(e) => bad_id(e, id@) || uuid_parse(id@) is Some && no_run(*store, e, id@) || exists|
                original: RunRec,
            | #[trigger] is_run_of(*store, original, id@) && unrepeatable(e, original),
        },
{
    match find_run(store, id) {
        Ok(original) => {
            assert(is_run_of(*store, original@, id@));
            plan_rerun(original)
        },
        Err(e) => Err(e),
    }
}

/// Where an application is run.
#[derive(Clone, Copy, Debug, PartialEq, Eq, Structural)]
pub enum Target {
    /// In the directory that was given.
    Given,
    /// In the current directory.
    Current,
    /// In the current directory, which holds no application: the pipeline stands alone.
    Alone,
}

/// Chooses where a pipeline is run: in the directory that was given, or else in the current one.
/// That must hold a manifest or a directory of assets, unless a configuration was given. Says what
/// is wrong if neither will do.
pub fn choose_target(
    given: Option<(&str, bool)>,
    config: bool,
    manifest: bool,
    dist: bool,
    public: bool,
) -> (r: Result<Target, String>)
    ensures
        match given {
            Some((path, is_dir)) => if is_dir {
                r matches Ok(Target::Given)
            } else {
                r matches Err(s) && s@ == "[ERROR][Orchestrator] Provided path '"@ + path@
                    + "' is not a valid directory. Suggestion: ensure the path exists or omit it to auto-discover."@
            },
            None => if manifest || dist || public {
                r matches Ok(Target::Current)
            } else if config {
                r matches Ok(Target::Alone)
            } else {
                r matches Err(s) && s@
                    == "[ERROR][Orchestrator] No target directory provided and no auto-discoverable workspace found in current directory. Suggestion: run 'manifold run <path>' or create 'manifold.toml' in the workspace."@
            },
        },
{
    match given {
        Some((path, is_dir)) => if is_dir {
            Ok(Target::Given)
        } else {
            Err(
                cat3(
                    "[ERROR][Orchestrator] Provided path '",
                    path,
                    "' is not a valid directory. Suggestion: ensure the path exists or omit it to auto-discover.",
                ),
            )
        },
        None => if manifest || dist || public {
            Ok(Target::Current)
        } else if config {
            Ok(Target::Alone)
        } else {
            Err(
                "[ERROR][Orchestrator] No target directory provided and no auto-discoverable workspace found in current directory. Suggestion: run 'manifold run <path>' or create 'manifold.toml' in the workspace.".to_owned(),
            )
        },
    }
}

/// The files in which a configuration is looked for, in this order.
pub open spec fn config_names() -> Seq<Seq<char>> {
    seq!["pipeline.yaml"@, "pipeline.yml"@, "manifold.yaml"@, "manifold.yml"@]
}

/// The files in which a configuration is looked for, in this order.
pub fn config_candidates() -> (r: Vec<String>)
    ensures
        texts(r@) == config_names(),
{
    let mut v: Vec<String> = Vec::new();
    v.push("pipeline.yaml".to_owned());
    v.push("pipeline.yml".to_owned());
    v.push("manifold.yaml".to_owned());
    v.push("manifold.yml".to_owned());
    assert(texts(v@) =~= config_names());
    v
}

/// The file that holds the configuration.
#[derive(Debug)]
pub enum ConfigFile {
    /// The one that was given.
    Given,
    /// This one in the directory of the application.
    Named(String),
}

/// The first place that is marked.
pub open spec fn first_present(present: Seq<bool>) -> Option<int>
    decreases present.len(),
{
    if present.len() == 0 {
        None
    } else if present[0] {
        Some(0)
    } else {
        match first_present(present.drop_first()) {
            Some(i) => Some(i + 1),
            None => None,
        }
    }
}

/// Finds the configuration of an application: the file that was given, or else the first of the
/// candidates that is there.
pub fn locate_pipeline_config(root: &str, explicit: Option<(&str, bool)>, present: [bool; 4]) -> (r:
    Result<ConfigFile, CliError>)
    ensures
        match explicit {
            Some((path, is_file)) => if is_file {
                r matches Ok(ConfigFile::Given)
            } else {
                r matches Err(CliError::Validation(s)) && s@ == "config file not found: "@ + path@
            },
            None => match first_present(present@) {
                Some(i) => r matches Ok(ConfigFile::Named(n)) && n@ == config_names()[i],
                None => r matches Err(CliError::Validation(s)) && s@
                    == "pipeline config not found in "@ + root@ + ". expected one of: "@ + joined(
                    config_names(),
                    ", "@,
                ),
            },
        },
{
    match explicit {
        Some((path, is_file)) => {
            return if is_file {
                Ok(ConfigFile::Given)
            } else {
                Err(CliError::Validation(cat("config file not found: ", path)))
            };
        },
        None => {},
    }
    let names = config_candidates();
    assert(texts(names@).len() == 4);
    let ghost all = present@;
    let mut i: usize = 0;
    assert(all.skip(0) =~= all);
    while i < 4
        invariant
            i <= 4,
            explicit is None,
            all == present@,
            all.len() == 4,
            texts(names@) == config_names(),
            names@.len() == 4,
            first_present(all) == match first_present(all.skip(i as int)) {
                Some(k) => Some(k + i),
                None => None::<int>,
            },
        decreases 4 - i,
    {
        let ghost rest = all.skip(i as int);
        assert(rest[0] == present@[i as int]);
        if present[i] {
            assert(texts(names@)[i as int] == names@[i as int]@);
            return Ok(ConfigFile::Named(names[i].clone()));
        }
        assert(rest.drop_first() =~= all.skip(i + 1));
        i += 1;
    }
    assert(all.skip(4).len() == 0);
    let list = join(&names, ", ");
    let mut text = cat3("pipeline config not found in ", root, ". expected one of: ");
    text.append(list.as_str());
    Err(CliError::Validation(text))
}

/// The directory of assets in that of an application, by whether it has `dist` and `public`; none
/// where its own files are the assets.
pub fn determine_asset_root(dist: bool, public: bool) -> (r: Option<&'static str>)
    ensures
        match r {
            Some(s) => if dist {
                s@ == "dist"@
            } else {
                public && s@ == "public"@
            },
            None => !dist && !public,
        },
{
    if dist {
        Some("dist")
    } else if public {
        Some("public")
    } else {
        None
    }
}

/// The error of a check in something that is not a directory.
pub fn no_directory(path: &str) -> (r: CliError)
    ensures
        r matches CliError::Validation(s) && s@ == "directory not found: "@ + path@,
{
    CliError::Validation(cat("directory not found: ", path))
}

/// What is reported when an application runs.
pub open spec fn boot_report(
    app_id: Seq<char>,
    asset_url: Seq<char>,
    run_id: Seq<char>,
) -> Seq<Seq<char>> {
    seq![
        "[INFO][Orchestrator] Booting dApp workspace"@,
        "[INFO][Orchestrator] Application ID : app:"@ + app_id,
        "[INFO][Orchestrator] Storage Sandboxing : ENABLED (InstanceNamespace prefix)"@,
        "[INFO][Orchestrator] Virtual Sandboxing: ACTIVE (fuel & memory caps)"@,
        "[INFO][Orchestrator] Frontend Endpoint : "@ + asset_url,
        "[INFO][Orchestrator] Run ID             : "@ + run_id,
        "[INFO][Orchestrator] Waiting for Ctrl-C to terminate the orchestrator..."@,
    ]
}

/// Reports that an application runs.
pub fn boot_lines(app_id: &str, asset_url: &str, run_id: &str) -> (r: Vec<String>)
    ensures
        texts(r@) == boot_report(app_id@, asset_url@, run_id@),
{
    let mut v: Vec<String> = Vec::new();
    v.push("[INFO][Orchestrator] Booting dApp workspace".to_owned());
    v.push(cat("[INFO][Orchestrator] Application ID : app:", app_id));
    v.push(
        "[INFO][Orchestrator] Storage Sandboxing : ENABLED (InstanceNamespace prefix)".to_owned(),
    );
    v.push("[INFO][Orchestrator] Virtual Sandboxing: ACTIVE (fuel & memory caps)".to_owned());
    v.push(cat("[INFO][Orchestrator] Frontend Endpoint : ", asset_url));
    v.push(cat("[INFO][Orchestrator] Run ID             : ", run_id));
    v.push("[INFO][Orchestrator] Waiting for Ctrl-C to terminate the orchestrator...".to_owned());
    assert(texts(v@) =~= boot_report(app_id@, asset_url@, run_id@));
    v
}

/// What follows a run that completed.
#[derive(Debug)]
pub enum Afterwards {
    /// Its record is shown, and that is all.
    Show(String),
    /// These lines are shown, and the application is served until it is stopped.
    Serve(Vec<String>),
}

/// Decides what follows a run that completed: an application is served, and of a pipeline that
/// stands alone the record is shown.
pub fn after_run(target: Target, app_id: &str, asset_url: &str, record: &RunRecord) -> (r: Afterwards)
    ensures
        match target {
            Target::Alone => r matches Afterwards::Show(s) && s@ == raw_text(record@),
            _ => r matches Afterwards::Serve(v) && texts(v@) == boot_report(
                app_id@,
                asset_url@,
                record@.metadata.run_id,
            ),
        },
{
    match target {
        Target::Alone => Afterwards::Show(raw_run(record)),
        _ => Afterwards::Serve(boot_lines(app_id, asset_url, record.metadata.run_id.as_str())),
    }
}

/// A run that failed is told by the error of the first of its nodes that failed.
pub proof fn lemma_failure_told(r: RunRec, i: int)
    requires
        0 <= i < r.nodes.len(),
        r.nodes[i].status == NodeStatus::Failed,
        forall|j: int| 0 <= j < i ==> (#[trigger] r.nodes[j]).status != NodeStatus::Failed,
    ensures
        r.nodes[i].error matches Some(e) ==> failure(r) == e,
        r.nodes[i].error is None ==> failure(r) == "pipeline execution failed"@,
{
    lemma_first_error(r.nodes, i);
}

proof fn lemma_first_error(nodes: Seq<NodeRec>, i: int)
    requires
        0 <= i < nodes.len(),
        nodes[i].status == NodeStatus::Failed,
        forall|j: int| 0 <= j < i ==> (#[trigger] nodes[j]).status != NodeStatus::Failed,
    ensures
        first_error(nodes) == nodes[i].error,
    decreases i,
{
    if i > 0 {
        let t = nodes.drop_first();
        assert(nodes[0].status != NodeStatus::Failed);
        assert forall|j: int| 0 <= j < i - 1 implies (#[trigger] t[j]).status != NodeStatus::Failed by {
            assert(t[j] == nodes[j + 1]);
        }
        lemma_first_error(t, i - 1);
    }
}

/// A run of which no node failed is told to have failed, and no more.
pub proof fn lemma_failure_unknown(r: RunRec)
    requires
        forall|j: int| 0 <= j < r.nodes.len() ==> (#[trigger] r.nodes[j]).status != NodeStatus::Failed,
    ensures
        failure(r) == "pipeline execution failed"@,
    decreases r.nodes.len(),
{
    if r.nodes.len() > 0 {
        let rest = RunRec { nodes: r.nodes.drop_first(), ..r };
        assert(r.nodes[0].status != NodeStatus::Failed);
        assert forall|j: int| 0 <= j < rest.nodes.len() implies (#[trigger] rest.nodes[j]).status
            != NodeStatus::Failed by {
            assert(rest.nodes[j] == r.nodes[j + 1]);
        }
        lemma_failure_unknown(rest);
    }
}

/// The inputs of a run are found in its snapshot: those of a map are its entries, nothing means none,
/// and no other value holds inputs. So a run is repeated on the inputs that it had.
pub proof fn lemma_inputs_found(v: Val, inputs: Seq<(Seq<char>, Val)>)
    ensures
        snapshot_inputs(Val::Dict(inputs)) == Some(inputs),
        snapshot_inputs(Val::Object(inputs)) == Some(inputs),
        snapshot_inputs(Val::Null) matches Some(s) && s.len() == 0,
        snapshot_inputs(v) is Some <==> v is Dict || v is Object || v is Null,
{
}

/// A run is repeated with its own pipeline, on its own inputs and as its descendant.
pub proof fn lemma_run_repeated(
    again: Rerun,
    original: RunRec,
    pipeline: PipelineSpec,
    inputs: Seq<(Seq<char>, Val)>,
    id: u128,
)
    requires
        repeats(again, original),
        config_of(original.config_snapshot) == Result::<PipelineSpec, ConfigFault>::Ok(pipeline),
        original.input_snapshot == Val::Dict(inputs),
        uuid_parse(original.metadata.run_id) == Some(id),
    ensures
        again.pipeline@ == pipeline,
        forall|k: Seq<char>| #[trigger]
            lookup(pair_vals(again.inputs.pairs()), k) == lookup(inputs, k),
        again.ancestor == id,
{
}

/// Of the places that are marked the first is taken.
pub proof fn lemma_first_taken(present: Seq<bool>, i: int)
    requires
        0 <= i <= present.len(),
        forall|j: int| 0 <= j < i ==> !#[trigger] present[j],
        i < present.len() ==> present[i],
    ensures
        first_present(present) == if i < present.len() {
            Some(i)
        } else {
            None
        },
    decreases present.len(),
{
    if i > 0 {
        assert(!present[0]);
        let t = present.drop_first();
        assert forall|j: int| 0 <= j < i - 1 implies !#[trigger] t[j] by {
            assert(!present[j + 1]);
        }
        lemma_first_taken(t, i - 1);
    }
}

/// A configuration is looked for under four names: first that of a pipeline, then that of an
/// application, and each first with the longer ending.
pub proof fn lemma_config_names()
    ensures
        config_names().len() == 4,
        config_names()[0] == "pipeline.yaml"@ && config_names()[1] == "pipeline.yml"@,
        config_names()[2] == "manifold.yaml"@ && config_names()[3] == "manifold.yml"@,
{
}

/// The report on an application that runs gives its name, where its files are served, and the run.
pub proof fn lemma_boot_told(app_id: Seq<char>, asset_url: Seq<char>, run_id: Seq<char>)
    ensures
        boot_report(app_id, asset_url, run_id).len() == 7,
        boot_report(app_id, asset_url, run_id)[0] == "[INFO][Orchestrator] Booting dApp workspace"@,
        boot_report(app_id, asset_url, run_id)[2]
            == "[INFO][Orchestrator] Storage Sandboxing : ENABLED (InstanceNamespace prefix)"@,
        boot_report(app_id, asset_url, run_id)[3]
            == "[INFO][Orchestrator] Virtual Sandboxing: ACTIVE (fuel & memory caps)"@,
        boot_report(app_id, asset_url, run_id)[6]
            == "[INFO][Orchestrator] Waiting for Ctrl-C to terminate the orchestrator..."@,
        boot_report(app_id, asset_url, run_id)[1] == "[INFO][Orchestrator] Application ID : app:"@
            + app_id,
        boot_report(app_id, asset_url, run_id)[4] == "[INFO][Orchestrator] Frontend Endpoint : "@
            + asset_url,
        boot_report(app_id, asset_url, run_id)[5] == "[INFO][Orchestrator] Run ID             : "@
            + run_id,
{
}

/// A document holds inputs if and only if it is an object, and the input under a name is what the last
/// member of that name stands for.
pub proof fn lemma_document_inputs(t: Tree, key: Seq<char>, i: int)
    ensures
        document_inputs(t) is Some <==> t is Object,
        t matches Tree::Object(m) ==> (0 <= i < m.len() && m[i].0 == key && (forall|j: int|
            i < j < m.len() ==> (#[trigger] m[j]).0 != key) ==> lookup(document_inputs(t)->0, key)
            == Some(tree_val(m[i].1))),
        t matches Tree::Object(m) ==> ((forall|j: int| 0 <= j < m.len() ==> (#[trigger] m[j]).0 != key)
            ==> lookup(document_inputs(t)->0, key) is None),
{
    if let Tree::Object(m) = t {
        if (0 <= i < m.len() && m[i].0 == key && forall|j: int| i < j < m.len() ==> (#[trigger] m[j]).0 != key)
            || (forall|j: int| 0 <= j < m.len() ==> (#[trigger] m[j]).0 != key) {
            lemma_object_value(m, key, i);
        }
    }
}

} // verus!
