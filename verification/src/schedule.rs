//! The course of one run of a pipeline: which node may start when, and what becomes of the run.

use crate::config::{
    build_dependency_graph, config_fault, feeds, first_fault, lemma_acyclic, lemma_faultless_distinct,
    lemma_input_nodes, node_sources, ConfigError, NodeConfig, NodeSpec, PipelineConfig, PipelineSpec,
};
use crate::graph::Graph;
use crate::graph::{
    before, lemma_contains_push, lemma_distinct_len, lemma_missing_none, lemma_stuck, missing,
    respects,
};
use crate::record::{
    node_recs, opt_text, MetaRec, NodeRec, NodeRecord, NodeStatus, RunMetadata, RunRec,
    RunRecord, RunStatus, Timestamp,
};
use crate::strmap::StrMap;
use crate::strmap::{ascending, lemma_put_ascending, lemma_put_lookup, lookup, put};
use crate::text::{cat, cat3, cat5, holds_text};
use crate::text::{occurs, occurs_at, texts};
use crate::value::{bind, copy_dict, copy_value, Value};
use crate::value::{lemma_dict_view, lemma_pair_vals_lookup, pair_vals, Val};
use crate::yaml::config_to_yaml;
use crate::yaml::{pipeline_tree, yaml_text, YamlShown};
use vstd::prelude::*;

verus! {

/// What became of a node that was to run.
#[derive(Debug)]
pub enum Outcome {
    /// Its engine returned an output.
    Output(Value),
    /// Its engine returned an error.
    Error(String),
    /// Its engine panicked, with a message if there was one.
    Panic(Option<String>),
    /// Its engine is not registered.
    MissingEngine,
    /// One of its inputs is missing.
    MissingInput(String),
}

/// What an [`Outcome`] says.
pub enum OutcomeSpec {
    Output(Val),
    Error(Seq<char>),
    Panic(Option<Seq<char>>),
    MissingEngine,
    MissingInput(Seq<char>),
}

impl Outcome {
    pub open spec fn view(&self) -> OutcomeSpec {
        match self {
            Outcome::Output(v) => OutcomeSpec::Output(v@),
            Outcome::Error(e) => OutcomeSpec::Error(e@),
            Outcome::Panic(m) => OutcomeSpec::Panic(opt_text(*m)),
            Outcome::MissingEngine => OutcomeSpec::MissingEngine,
            Outcome::MissingInput(e) => OutcomeSpec::MissingInput(e@),
        }
    }
}

/// What is said of an engine that is not registered.
pub open spec fn unregistered(engine: Seq<char>) -> Seq<char> {
    "engine '"@ + engine + "' is not registered"@
}

/// What is said of a missing input.
pub open spec fn missing_input(input: Seq<char>, node: Seq<char>) -> Seq<char> {
    "missing input '"@ + input + "' for node '"@ + node + "'"@
}

/// The message of a panic.
pub open spec fn panic_text(message: Option<Seq<char>>) -> Seq<char> {
    match message {
        Some(m) => m,
        None => "plugin panic occurred"@,
    }
}

/// The error in the record of a node with that outcome.
pub open spec fn node_error(node: NodeSpec, o: OutcomeSpec) -> Option<Seq<char>> {
    match o {
        OutcomeSpec::Output(_) => None,
        OutcomeSpec::Error(e) => Some(e),
        OutcomeSpec::Panic(m) => Some(panic_text(m)),
        OutcomeSpec::MissingEngine => Some(unregistered(node.engine)),
        OutcomeSpec::MissingInput(e) => Some("input resolution failed: "@ + e),
    }
}

/// The error that a run fails with at a node with that outcome.
pub open spec fn run_error(node: NodeSpec, o: OutcomeSpec) -> Option<Seq<char>> {
    match o {
        OutcomeSpec::Output(_) => None,
        OutcomeSpec::Error(e) => Some(e),
        OutcomeSpec::Panic(m) => Some("plugin panic: "@ + panic_text(m)),
        OutcomeSpec::MissingEngine => Some(unregistered(node.engine)),
        OutcomeSpec::MissingInput(e) => Some(e),
    }
}

/// Whether a node with that outcome was handed its inputs.
pub open spec fn had_inputs(o: OutcomeSpec) -> bool {
    !(o is MissingEngine) && !(o is MissingInput)
}

/// The record of a node.
pub open spec fn finished_record(
    node: NodeSpec,
    inputs: Val,
    o: OutcomeSpec,
    started_at: Timestamp,
    ended_at: Timestamp,
) -> NodeRec {
    NodeRec {
        name: node.name,
        engine: node.engine,
        code: node.code,
        inputs: if had_inputs(o) {
            inputs
        } else {
            Val::Null
        },
        output: match o {
            OutcomeSpec::Output(v) => Some(v),
            _ => None,
        },
        status: if o is Output {
            NodeStatus::Completed
        } else {
            NodeStatus::Failed
        },
        started_at,
        ended_at,
        error: node_error(node, o),
    }
}

/// The values under the names of inputs, or what is said of the first that is missing.
pub open spec fn gathered_map(
    inputs: Seq<Seq<char>>,
    outputs: Seq<(Seq<char>, Val)>,
    node: Seq<char>,
) -> Result<Seq<(Seq<char>, Val)>, Seq<char>>
    decreases inputs.len(),
{
    if inputs.len() == 0 {
        Ok(Seq::empty())
    } else {
        match gathered_map(inputs.drop_last(), outputs, node) {
            Err(e) => Err(e),
            Ok(map) => match lookup(outputs, inputs.last()) {
                Some(v) => Ok(put(map, inputs.last(), v)),
                None => Err(missing_input(inputs.last(), node)),
            },
        }
    }
}

/// What a node is handed: nothing, the value of its one input, or a map of its inputs.
pub open spec fn gathered(node: NodeSpec, outputs: Seq<(Seq<char>, Val)>) -> Result<Val, Seq<char>> {
    if node.inputs.len() == 0 {
        Ok(Val::Null)
    } else if node.inputs.len() == 1 {
        match lookup(outputs, node.inputs[0]) {
            Some(v) => Ok(v),
            None => Err(missing_input(node.inputs[0], node.name)),
        }
    } else {
        match gathered_map(node.inputs, outputs, node.name) {
            Ok(map) => Ok(Val::Dict(map)),
            Err(e) => Err(e),
        }
    }
}

/// How a node starts.
#[derive(Debug)]
pub enum NodeStart {
    /// Its engine runs the code on the input.
    Execute(String, Value),
    /// It cannot run.
    Refused(Outcome),
}

/// What a [`NodeStart`] says.
pub enum StartSpec {
    Execute(Seq<char>, Val),
    Refused(OutcomeSpec),
}

impl NodeStart {
    pub open spec fn view(&self) -> StartSpec {
        match self {
            NodeStart::Execute(code, input) => StartSpec::Execute(code@, input@),
            NodeStart::Refused(o) => StartSpec::Refused(o@),
        }
    }
}

/// How a node starts: its engine must be registered and its inputs must be there.
pub open spec fn start_of(
    node: NodeSpec,
    outputs: Seq<(Seq<char>, Val)>,
    engines: Seq<Seq<char>>,
) -> StartSpec {
    if !engines.contains(node.engine) {
        StartSpec::Refused(OutcomeSpec::MissingEngine)
    } else {
        match gathered(node, outputs) {
            Ok(input) => StartSpec::Execute(node.code, input),
            Err(e) => StartSpec::Refused(OutcomeSpec::MissingInput(e)),
        }
    }
}

fn missing_input_text(input: &str, node: &str) -> (r: String)
    ensures
        r@ == missing_input(input@, node@),
{
    cat5("missing input '", input, "' for node '", node, "'")
}

/// Collects what a node is handed.
pub fn collect_node_inputs(node: &NodeConfig, outputs: &StrMap<Value>) -> (r: Result<Value, String>)
    ensures
        match r {
            Ok(v) => gathered(node@, pair_vals(outputs.pairs())) == Result::<Val, Seq<char>>::Ok(v@),
            Err(e) => gathered(node@, pair_vals(outputs.pairs())) == Result::<Val, Seq<char>>::Err(
                e@,
            ),
        },
{
    let ghost outs = pair_vals(outputs.pairs());
    let ghost names = texts(node.inputs@);
    if node.inputs.len() == 0 {
        return Ok(Value::Null);
    }
    if node.inputs.len() == 1 {
        let name = node.inputs[0].as_str();
        proof {
            lemma_pair_vals_lookup(outputs.pairs(), name@);
        }
        return match outputs.get(name) {
            Some(v) => Ok(copy_value(v)),
            None => Err(missing_input_text(name, node.name.as_str())),
        };
    }
    let mut map: StrMap<Value> = StrMap::new();
    let mut i: usize = 0;
    assert(names.take(0) =~= Seq::<Seq<char>>::empty());
    assert(pair_vals(map.pairs()) =~= Seq::<(Seq<char>, Val)>::empty());
    while i < node.inputs.len()
        invariant
            i <= node.inputs@.len(),
            node.inputs@.len() > 1,
            names == texts(node.inputs@),
            outs == pair_vals(outputs.pairs()),
            gathered_map(names.take(i as int), outs, node.name@) == Result::<
                Seq<(Seq<char>, Val)>,
                Seq<char>,
            >::Ok(pair_vals(map.pairs())),
        decreases node.inputs.len() - i,
    {
        let name = node.inputs[i].as_str();
        proof {
            lemma_pair_vals_lookup(outputs.pairs(), name@);
            assert(names.take(i + 1).drop_last() =~= names.take(i as int));
            assert(names.take(i + 1).last() == name@);
        }
        match outputs.get(name) {
            Some(v) => {
                bind(&mut map, name, copy_value(v));
            },
            None => {
                proof {
                    lemma_gathered_fault(names, outs, node.name@, i + 1);
                }
                return Err(missing_input_text(name, node.name.as_str()));
            },
        }
        i += 1;
    }
    assert(names.take(i as int) =~= names);
    proof {
        lemma_dict_view(map);
    }
    Ok(Value::Dict(map))
}

proof fn lemma_gathered_fault(
    inputs: Seq<Seq<char>>,
    outputs: Seq<(Seq<char>, Val)>,
    node: Seq<char>,
    i: int,
)
    requires
        0 <= i <= inputs.len(),
        gathered_map(inputs.take(i), outputs, node) is Err,
    ensures
        gathered_map(inputs, outputs, node) == gathered_map(inputs.take(i), outputs, node),
    decreases inputs.len(),
{
    if i < inputs.len() {
        assert(inputs.drop_last().take(i) =~= inputs.take(i));
        lemma_gathered_fault(inputs.drop_last(), outputs, node, i);
    } else {
        assert(inputs.take(i) =~= inputs);
    }
}

/// Where a run stands.
pub struct RunState {
    /// The pipeline.
    pub config: PipelineSpec,
    /// What the run was given.
    pub inputs: Seq<(Seq<char>, Val)>,
    /// What the run was given and what its nodes have put out.
    pub outputs: Seq<(Seq<char>, Val)>,
    /// The nodes that may start, in the order in which they do.
    pub queue: Seq<usize>,
    /// How many of them have started.
    pub started: nat,
    /// The nodes that have finished, in the order in which they did.
    pub finished: Seq<usize>,
    /// The nodes whose completion was counted by those that waited for them.
    pub released: Seq<usize>,
    /// The records of the nodes that have finished.
    pub records: Seq<NodeRec>,
    /// The error of the first node that failed.
    pub error: Option<Seq<char>>,
}

/// Whether one of the records is that of a node of that name which completed.
pub open spec fn has_completed(records: Seq<NodeRec>, name: Seq<char>) -> bool {
    exists|p: int|
        0 <= p < records.len() && (#[trigger] records[p]).name == name && records[p].status
            == NodeStatus::Completed
}

impl RunState {
    /// For each node, the nodes that it waits for.
    pub open spec fn sources(self) -> Seq<Seq<usize>> {
        node_sources(self.config.nodes)
    }

    /// Whether a node has started and has not finished.
    pub open spec fn running(self, i: usize) -> bool {
        self.queue.take(self.started as int).contains(i) && !self.finished.contains(i)
    }

    /// Whether everything that may start has started, and everything that started has finished.
    pub open spec fn done(self) -> bool {
        self.started == self.queue.len() && self.finished.len() == self.started
    }

    /// What holds at every point of a run.
    pub open spec fn sound(self) -> bool {
        &&& self.config.nodes.len() <= usize::MAX
        &&& config_fault(self.config.nodes) is None
        &&& self.queue.no_duplicates()
        &&& forall|p: int|
            0 <= p < self.queue.len() ==> (#[trigger] self.queue[p]) < self.config.nodes.len()
        &&& forall|b: int|
            0 <= b < self.config.nodes.len() ==> (self.queue.contains(b as usize) <==> missing(
                #[trigger] self.sources()[b],
                self.released,
            ) == 0)
        &&& self.started <= self.queue.len()
        &&& respects(self.sources(), self.finished)
        &&& forall|p: int|
            0 <= p < self.finished.len() ==> self.queue.take(self.started as int).contains(
                #[trigger] self.finished[p],
            )
        &&& forall|p: int|
            0 <= p < self.released.len() ==> self.finished.contains(#[trigger] self.released[p])
        &&& self.error is None ==> self.released == self.finished
        &&& self.records.len() == self.finished.len()
        &&& forall|p: int|
            0 <= p < self.records.len() ==> self.record_sound(#[trigger] self.records[p], p)
        &&& self.error is Some ==> exists|p: int|
            0 <= p < self.records.len() && (#[trigger] self.records[p]).status == NodeStatus::Failed
        &&& forall|k: Seq<char>|
            !has_completed(self.records, k) ==> #[trigger] lookup(self.outputs, k) == lookup(
                self.inputs,
                k,
            )
    }

    /// What holds of the record at position `p`: it is that of the node that finished there, with its
    /// engine and its code; it has an output or an error, by its status; and a completed node has its
    /// output among the outputs.
    pub open spec fn record_sound(self, n: NodeRec, p: int) -> bool {
        &&& n.name == self.config.nodes[self.finished[p] as int].name
        &&& n.engine == self.config.nodes[self.finished[p] as int].engine
        &&& n.code == self.config.nodes[self.finished[p] as int].code
        &&& n.status == NodeStatus::Completed || n.status == NodeStatus::Failed
        &&& n.status == NodeStatus::Completed <==> n.error is None
        &&& n.status == NodeStatus::Failed ==> n.output is None
        &&& n.status == NodeStatus::Failed ==> self.error is Some
        &&& self.released.contains(self.finished[p]) ==> n.status == NodeStatus::Completed
        &&& n.status == NodeStatus::Completed ==> n.output is Some && lookup(self.outputs, n.name)
            == n.output
    }
}

/// Whether a run of the pipeline on those inputs stands there when it has just begun.
pub open spec fn begins(
    config: PipelineSpec,
    inputs: Seq<(Seq<char>, Val)>,
    s: RunState,
) -> bool {
    &&& config_fault(config.nodes) is None
    &&& s.config == config
    &&& s.inputs == inputs
    &&& s.outputs == inputs
    &&& s.started == 0
    &&& s.finished.len() == 0
    &&& s.released.len() == 0
    &&& s.records.len() == 0
    &&& s.error is None
    &&& s.sound()
}

/// Whether the run starts the next node that may start.
pub open spec fn starts(before: RunState, after: RunState) -> bool {
    &&& before.started < before.queue.len()
    &&& after == (RunState { started: before.started + 1, ..before })
}

/// A run of a pipeline that is under way.
pub struct PipelineRun {
    config: PipelineConfig,
    graph: Graph,
    inputs: StrMap<Value>,
    outputs: StrMap<Value>,
    pending: Vec<usize>,
    queue: Vec<usize>,
    started: usize,
    finished: Vec<usize>,
    released: Vec<usize>,
    records: Vec<NodeRecord>,
    error: Option<String>,
}

impl PipelineRun {
    pub closed spec fn view(&self) -> RunState {
        RunState {
            config: self.config@,
            inputs: pair_vals(self.inputs.pairs()),
            outputs: pair_vals(self.outputs.pairs()),
            queue: self.queue@,
            started: self.started as nat,
            finished: self.finished@,
            released: self.released@,
            records: node_recs(self.records@),
            error: opt_text(self.error),
        }
    }

    #[verifier::type_invariant]
    closed spec fn counted(&self) -> bool {
        &&& self.view().sound()
        &&& self.graph.wf()
        &&& self.graph.source_lists() == self.view().sources()
        &&& self.pending@.len() == self.config@.nodes.len()
        &&& forall|b: int|
            0 <= b < self.pending@.len() ==> #[trigger] self.pending@[b] == missing(
                self.view().sources()[b],
                self.released@,
            )
    }

    /// Begins a run. A configuration with a fault is refused.
    pub fn begin(config: PipelineConfig, inputs: StrMap<Value>) -> (r: Result<
        PipelineRun,
        ConfigError,
    >)
        ensures
            match r {
                Ok(run) => begins(config@, pair_vals(inputs.pairs()), run@),
                Err(e) => config_fault(config@.nodes) == Some(e@),
            },
    {
        match config.validate() {
            Ok(_) => {},
            Err(e) => {
                return Err(e);
            },
        }
        let ghost nodes = config@.nodes;
        proof {
            lemma_faultless_distinct(nodes);
        }
        let graph = build_dependency_graph(&config.nodes);
        let n: usize = config.nodes.len();
        let ghost src = node_sources(nodes);
        let ghost none = Seq::<usize>::empty();
        let (pending, queue) = graph.start();
        let outputs = copy_dict(&inputs);
        proof {
            lemma_dict_view(outputs);
            lemma_dict_view(inputs);
            assert forall|b: int| 0 <= b < n implies (queue@.contains(b as usize) <==> missing(
                #[trigger] src[b],
                none,
            ) == 0) by {
                assert(pending@[b] == missing(src[b], none));
            }
        }
        let finished: Vec<usize> = Vec::new();
        let released: Vec<usize> = Vec::new();
        let records: Vec<NodeRecord> = Vec::new();
        assert(released@ =~= none);
        Ok(
            PipelineRun {
                config,
                graph,
                inputs,
                outputs,
                pending,
                queue,
                started: 0,
                finished,
                released,
                records,
                error: None,
            },
        )
    }

    /// Starts the next node that may start, and says how it starts.
    pub fn next_node(&mut self, engines: &Vec<String>) -> (r: Option<(usize, NodeStart)>)
        ensures
            match r {
                Some((i, start)) => {
                    &&& starts(old(self)@, final(self)@)
                    &&& i == old(self)@.queue[old(self)@.started as int]
                    &&& start@ == start_of(
                        old(self)@.config.nodes[i as int],
                        old(self)@.outputs,
                        texts(engines@),
                    )
                },
                None => old(self)@.started == old(self)@.queue.len() && final(self)@ == old(self)@,
            },
            final(self)@.sound(),
    {
        proof {
            use_type_invariant(&*self);
        }
        if self.started >= self.queue.len() {
            return None;
        }
        let i: usize = self.queue[self.started];
        let ghost before = self.view();
        let ghost after = RunState { started: before.started + 1, ..before };
        proof {
            assert forall|p: int| 0 <= p < after.finished.len() implies after.queue.take(
                after.started as int,
            ).contains(#[trigger] after.finished[p]) by {
                let x = after.finished[p];
                let q = before.queue.take(before.started as int);
                assert(q.contains(x));
                let k = choose|k: int| 0 <= k < q.len() && q[k] == x;
                assert(after.queue.take(after.started as int)[k] == x);
            }
            assert forall|p: int| 0 <= p < after.records.len() implies after.record_sound(
                #[trigger] after.records[p],
                p,
            ) by {
                assert(before.record_sound(before.records[p], p));
            }
            assert(after.sound());
        }
        let node = &self.config.nodes[i];
        let start = if !holds_text(engines, node.engine.as_str()) {
            NodeStart::Refused(Outcome::MissingEngine)
        } else {
            match collect_node_inputs(node, &self.outputs) {
                Ok(input) => NodeStart::Execute(node.code.clone(), input),
                Err(e) => NodeStart::Refused(Outcome::MissingInput(e)),
            }
        };
        self.started = self.started + 1;
        Some((i, start))
    }
}

fn holds_index(v: &Vec<usize>, to: usize, x: usize) -> (r: bool)
    requires
        to <= v@.len(),
    ensures
        r == v@.take(to as int).contains(x),
{
    let mut i: usize = 0;
    while i < to
        invariant
            i <= to <= v@.len(),
            forall|j: int| 0 <= j < i ==> v@[j] != x,
        decreases to - i,
    {
        if v[i] == x {
            assert(v@.take(to as int)[i as int] == x);
            return true;
        }
        i += 1;
    }
    assert(!v@.take(to as int).contains(x)) by {
        if v@.take(to as int).contains(x) {
            let k = choose|k: int| 0 <= k < to && v@.take(to as int)[k] == x;
            assert(v@[k] == x);
        }
    }
    false
}

fn make_record(
    node: &NodeConfig,
    inputs: Value,
    outcome: &Outcome,
    started_at: Timestamp,
    ended_at: Timestamp,
) -> (r: NodeRecord)
    ensures
        r@ == finished_record(node@, inputs@, outcome@, started_at, ended_at),
{
    let (inputs, output, status, error) = match outcome {
        Outcome::Output(v) => (inputs, Some(copy_value(v)), NodeStatus::Completed, None),
        Outcome::Error(e) => (inputs, None, NodeStatus::Failed, Some(e.clone())),
        Outcome::Panic(m) => (inputs, None, NodeStatus::Failed, Some(panic_message(m))),
        Outcome::MissingEngine => (
            Value::Null,
            None,
            NodeStatus::Failed,
            Some(unregistered_text(node.engine.as_str())),
        ),
        Outcome::MissingInput(e) => (
            Value::Null,
            None,
            NodeStatus::Failed,
            Some(cat("input resolution failed: ", e.as_str())),
        ),
    };
    NodeRecord {
        name: node.name.clone(),
        engine: node.engine.clone(),
        code: node.code.clone(),
        inputs,
        output,
        status,
        started_at,
        ended_at,
        error,
    }
}

fn unregistered_text(engine: &str) -> (r: String)
    ensures
        r@ == unregistered(engine@),
{
    cat3("engine '", engine, "' is not registered")
}

fn panic_message(m: &Option<String>) -> (r: String)
    ensures
        r@ == panic_text(opt_text(*m)),
{
    match m {
        Some(s) => s.clone(),
        None => "plugin panic occurred".to_owned(),
    }
}

fn error_of(node: &NodeConfig, outcome: &Outcome) -> (r: Option<String>)
    ensures
        opt_text(r) == run_error(node@, outcome@),
{
    match outcome {
        Outcome::Output(_) => None,
        Outcome::Error(e) => Some(e.clone()),
        Outcome::Panic(m) => Some(cat("plugin panic: ", panic_message(m).as_str())),
        Outcome::MissingEngine => Some(unregistered_text(node.engine.as_str())),
        Outcome::MissingInput(e) => Some(e.clone()),
    }
}

/// What follows when a running node finishes: it is recorded, an output is stored, the first error
/// is kept, and as long as nothing has failed, those that waited for it are counted down.
pub open spec fn finishes(
    before: RunState,
    after: RunState,
    i: usize,
    inputs: Val,
    o: OutcomeSpec,
    started_at: Timestamp,
    ended_at: Timestamp,
) -> bool {
    let node = before.config.nodes[i as int];
    &&& after.config == before.config
    &&& after.inputs == before.inputs
    &&& after.started == before.started
    &&& after.finished == before.finished.push(i)
    &&& after.records == before.records.push(
        finished_record(node, inputs, o, started_at, ended_at),
    )
    &&& after.outputs == match o {
        OutcomeSpec::Output(v) => put(before.outputs, node.name, v),
        _ => before.outputs,
    }
    &&& after.error == match before.error {
        Some(e) => Some(e),
        None => run_error(node, o),
    }
    &&& after.released == if o is Output && before.error is None {
        before.released.push(i)
    } else {
        before.released
    }
    &&& before.queue.len() <= after.queue.len()
    &&& after.queue.take(before.queue.len() as int) == before.queue
    &&& !(o is Output && before.error is None) ==> after.queue == before.queue
}

/// A running node can finish next: all of its sources have.
proof fn lemma_finishes_in_order(s: RunState, i: usize)
    requires
        s.sound(),
        s.running(i),
    ensures
        respects(s.sources(), s.finished.push(i)),
{
    let next = s.finished.push(i);
    let q = s.queue.take(s.started as int);
    let j = choose|j: int| 0 <= j < q.len() && q[j] == i;
    assert(s.queue[j] == i);
    assert(s.queue.contains(i));
    assert(missing(s.sources()[i as int], s.released) == 0);
    lemma_missing_none(s.sources()[i as int], s.released);
    assert(next.no_duplicates()) by {
        assert forall|x: int, y: int| 0 <= x < y < next.len() implies next[x] != next[y] by {
            assert(next[x] == s.finished[x]);
            if y == s.finished.len() {
                assert(s.finished.contains(s.finished[x]));
            }
        }
    }
    assert forall|p: int, k: int|
        0 <= p < next.len() && 0 <= k < s.sources()[next[p] as int].len() implies before(
        next,
        p,
        #[trigger] s.sources()[next[p] as int][k],
    ) by {
        let x = s.sources()[next[p] as int][k];
        if p < s.finished.len() {
            assert(next[p] == s.finished[p]);
            assert(before(s.finished, p, s.sources()[s.finished[p] as int][k]));
            let r = choose|r: int|
                0 <= r < p && r < s.finished.len() && #[trigger] s.finished[r] == x;
            assert(next[r] == x);
        } else {
            assert(s.released.contains(x));
            let l = choose|l: int| 0 <= l < s.released.len() && s.released[l] == x;
            assert(s.finished.contains(s.released[l]));
            let r = choose|r: int| 0 <= r < s.finished.len() && s.finished[r] == x;
            assert(next[r] == x);
        }
    }
}

proof fn lemma_finishes_sound(
    before: RunState,
    after: RunState,
    i: usize,
    inputs: Val,
    o: OutcomeSpec,
    started_at: Timestamp,
    ended_at: Timestamp,
)
    requires
        before.sound(),
        before.running(i),
        finishes(before, after, i, inputs, o, started_at, ended_at),
        after.queue.no_duplicates(),
        forall|p: int|
            0 <= p < after.queue.len() ==> (#[trigger] after.queue[p]) < after.config.nodes.len(),
        forall|b: int|
            0 <= b < after.config.nodes.len() ==> (after.queue.contains(b as usize) <==> missing(
                #[trigger] after.sources()[b],
                after.released,
            ) == 0),
    ensures
        after.sound(),
{
    let nodes = before.config.nodes;
    lemma_faultless_distinct(nodes);
    let n = before.started as int;
    let q = before.queue.take(n);
    assert(after.queue.take(n) =~= q) by {
        let l = before.queue.len() as int;
        assert(after.queue.take(n) =~= after.queue.take(l).take(n));
    }
    assert(i < nodes.len()) by {
        let k = choose|k: int| 0 <= k < q.len() && q[k] == i;
        assert(before.queue[k] == i);
    }
    assert forall|p: int| 0 <= p < after.finished.len() implies after.queue.take(n).contains(
        #[trigger] after.finished[p],
    ) by {
        if p < before.finished.len() {
            assert(after.finished[p] == before.finished[p]);
        }
    }
    lemma_finishes_in_order(before, i);
    assert forall|k: Seq<char>| !has_completed(after.records, k) implies #[trigger] lookup(
        after.outputs,
        k,
    ) == lookup(after.inputs, k) by {
        assert(!has_completed(before.records, k)) by {
            if has_completed(before.records, k) {
                let p = choose|p: int|
                    0 <= p < before.records.len() && (#[trigger] before.records[p]).name == k
                        && before.records[p].status == NodeStatus::Completed;
                assert(after.records[p] == before.records[p]);
            }
        }
        match o {
            OutcomeSpec::Output(v) => {
                let last = after.records[before.records.len() as int];
                assert(last.name == nodes[i as int].name && last.status == NodeStatus::Completed);
                lemma_put_lookup(before.outputs, nodes[i as int].name, v, k);
            },
            _ => {},
        }
    }
    assert forall|p: int| 0 <= p < after.released.len() implies after.finished.contains(
        #[trigger] after.released[p],
    ) by {
        lemma_contains_push(before.finished, i, after.released[p]);
        if p < before.released.len() {
            assert(after.released[p] == before.released[p]);
        }
    }
    assert forall|p: int| 0 <= p < after.records.len() implies after.record_sound(
        #[trigger] after.records[p],
        p,
    ) by {
        let node = nodes[i as int];
        if p < before.records.len() {
            assert(before.record_sound(before.records[p], p));
            let f = before.finished[p];
            assert(before.finished.contains(f));
            assert(f < nodes.len()) by {
                assert(q.contains(f));
                let k = choose|k: int| 0 <= k < q.len() && q[k] == f;
                assert(before.queue[k] == f);
            }
            assert(nodes[f as int].name != node.name) by {
                if f < i {
                    assert(nodes[f as int].name != nodes[i as int].name);
                } else {
                    assert(nodes[i as int].name != nodes[f as int].name);
                }
            }
            if after.released.contains(f) {
                if after.released != before.released {
                    lemma_contains_push(before.released, i, f);
                }
            }
            match o {
                OutcomeSpec::Output(v) => {
                    lemma_put_lookup(before.outputs, node.name, v, before.records[p].name);
                },
                _ => {},
            }
        } else {
            if !(o is Output) && after.released.contains(i) {
                let k = choose|k: int| 0 <= k < after.released.len() && after.released[k] == i;
                assert(before.finished.contains(before.released[k]));
            }
            match o {
                OutcomeSpec::Output(v) => {
                    lemma_put_lookup(before.outputs, node.name, v, node.name);
                },
                _ => {},
            }
        }
    }
    if after.error is Some {
        if before.error is Some {
            let p = choose|p: int|
                0 <= p < before.records.len() && (#[trigger] before.records[p]).status
                    == NodeStatus::Failed;
            assert(after.records[p] == before.records[p]);
        } else {
            assert(after.records[before.records.len() as int].status == NodeStatus::Failed);
        }
    }
}

impl PipelineRun {
    /// A run of nothing.
    fn idle() -> (r: PipelineRun)
        ensures
            r@ == (RunState {
                config: PipelineSpec { name: Seq::empty(), nodes: Seq::empty() },
                inputs: Seq::empty(),
                outputs: Seq::empty(),
                queue: Seq::empty(),
                started: 0,
                finished: Seq::empty(),
                released: Seq::empty(),
                records: Seq::empty(),
                error: None,
            }),
            r@.sound(),
            r@.done(),
    {
        let config = PipelineConfig { name: String::new(), nodes: Vec::new() };
        let ghost nodes = config@.nodes;
        proof {
            let rank = Seq::<int>::empty();
            assert(crate::config::ranked(nodes, rank));
            assert(first_fault(nodes, 0) is None);
            lemma_faultless_distinct(nodes);
        }
        let graph = build_dependency_graph(&config.nodes);
        let r = PipelineRun {
            config,
            graph,
            inputs: StrMap::new(),
            outputs: StrMap::new(),
            pending: Vec::new(),
            queue: Vec::new(),
            started: 0,
            finished: Vec::new(),
            released: Vec::new(),
            records: Vec::new(),
            error: None,
        };
        assert(r@.config.nodes =~= Seq::<NodeSpec>::empty());
        assert(r@.outputs =~= Seq::<(Seq<char>, Val)>::empty());
        assert(r@.records =~= Seq::<NodeRec>::empty());
        r
    }

    /// Tells the run what became of a node: what it was handed, its outcome, and when it started
    /// and ended. Nothing happens, and the result is false, if the node is not running.
    pub fn finish_node(
        &mut self,
        i: usize,
        inputs: Value,
        outcome: Outcome,
        started_at: Timestamp,
        ended_at: Timestamp,
    ) -> (r: bool)
        ensures
            r == old(self)@.running(i),
            r ==> finishes(
                old(self)@,
                final(self)@,
                i,
                inputs@,
                outcome@,
                started_at,
                ended_at,
            ),
            !r ==> final(self)@ == old(self)@,
            final(self)@.sound(),
    {
        proof {
            use_type_invariant(&*self);
        }
        let ghost before = self.view();
        assert(self.finished@.take(self.finished@.len() as int) =~= self.finished@);
        if !holds_index(&self.queue, self.started, i) || holds_index(
            &self.finished,
            self.finished.len(),
            i,
        ) {
            return false;
        }
        let mut taken = PipelineRun::idle();
        std::mem::swap(self, &mut taken);
        let config = taken.config;
        let graph = taken.graph;
        let given = taken.inputs;
        let mut outputs = taken.outputs;
        let mut pending = taken.pending;
        let mut queue = taken.queue;
        let started: usize = taken.started;
        let mut finished = taken.finished;
        let mut released = taken.released;
        let mut records = taken.records;
        let error = taken.error;
        assert(i < config.nodes@.len()) by {
            let q = before.queue.take(before.started as int);
            let k = choose|k: int| 0 <= k < q.len() && q[k] == i;
            assert(before.queue[k] == i);
        }
        let ghost node = config@.nodes[i as int];
        let ghost ins = inputs@;
        let ghost out = outcome@;
        assert(before.queue =~= queue@);
        assert(config.nodes@[i as int]@ == node);
        let record = make_record(&config.nodes[i], inputs, &outcome, started_at, ended_at);
        let calm = match &error {
            Some(_) => false,
            None => true,
        };
        assert(calm == (before.error is None));
        let next_error = match error {
            Some(e) => Some(e),
            None => error_of(&config.nodes[i], &outcome),
        };
        assert(queue@.take(queue@.len() as int) =~= queue@);
        match outcome {
            Outcome::Output(v) => {
                bind(&mut outputs, config.nodes[i].name.as_str(), v);
                if calm {
                    proof {
                        assert(!released@.contains(i)) by {
                            if released@.contains(i) {
                                let k = choose|k: int| 0 <= k < released@.len() && released@[k] == i;
                                assert(before.finished.contains(before.released[k]));
                            }
                        }
                        assert forall|b: int| 0 <= b < pending@.len() implies (queue@.contains(
                            b as usize,
                        ) <==> #[trigger] pending@[b] == 0) by {
                            assert(pending@[b] == missing(before.sources()[b], released@));
                        }
                    }
                    graph.release(Ghost(released@), &mut pending, &mut queue, i);
                    released.push(i);
                }
            },
            _ => {},
        }
        finished.push(i);
        let ghost earlier = node_recs(records@);
        records.push(record);
        assert(node_recs(records@) =~= earlier.push(record@));
        let ghost after = RunState {
            config: config@,
            inputs: pair_vals(given.pairs()),
            outputs: pair_vals(outputs.pairs()),
            queue: queue@,
            started: started as nat,
            finished: finished@,
            released: released@,
            records: node_recs(records@),
            error: opt_text(next_error),
        };
        proof {
            assert(finishes(before, after, i, ins, out, started_at, ended_at));
            assert forall|b: int| 0 <= b < after.config.nodes.len() implies (after.queue.contains(
                b as usize,
            ) <==> missing(#[trigger] after.sources()[b], after.released) == 0) by {
                assert(pending@[b] == missing(after.sources()[b], after.released));
            }
            lemma_finishes_sound(before, after, i, ins, out, started_at, ended_at);
        }
        *self = PipelineRun {
            config,
            graph,
            inputs: given,
            outputs,
            pending,
            queue,
            started,
            finished,
            released,
            records,
            error: next_error,
        };
        true
    }

    /// Whether nothing is left to start and nothing is running.
    pub fn is_done(&self) -> (r: bool)
        ensures
            r == self@.done(),
    {
        self.started == self.queue.len() && self.finished.len() == self.started
    }
}

/// The record of a run that has come to an end.
pub open spec fn run_record_of(
    s: RunState,
    config_snapshot: Seq<char>,
    run_id: Seq<char>,
    start_time: Timestamp,
    end_time: Timestamp,
    duration_ms: u128,
    ancestor_run_id: Option<u128>,
) -> RunRec {
    RunRec {
        metadata: MetaRec {
            run_id,
            pipeline_name: s.config.name,
            status: if s.error is Some {
                RunStatus::Failed
            } else {
                RunStatus::Completed
            },
            start_time,
            end_time,
            duration_ms,
            nodes_executed: s.records.len() as usize,
            ancestor_run_id,
            error_message: s.error,
        },
        nodes: s.records,
        config_snapshot,
        input_snapshot: Val::Dict(s.inputs),
        output_snapshot: Val::Dict(s.outputs),
    }
}

impl PipelineRun {
    /// The record of a run that is done, or the message of the emitter that could not write its
    /// configuration.
    pub fn conclude(
        self,
        run_id: String,
        start_time: Timestamp,
        end_time: Timestamp,
        duration_ms: u128,
        ancestor_run_id: Option<u128>,
    ) -> (r: Result<RunRecord, String>)
        requires
            self@.done(),
        ensures
            match r {
                Ok(d) => yaml_text(pipeline_tree(self@.config)) == YamlShown::Text(
                    d.config_snapshot@,
                ) && d@ == run_record_of(
                    self@,
                    d.config_snapshot@,
                    run_id@,
                    start_time,
                    end_time,
                    duration_ms,
                    ancestor_run_id,
                ),
                Err(e) => yaml_text(pipeline_tree(self@.config)) == YamlShown::Fault(e@),
            },
    {
        let config_snapshot = match config_to_yaml(&self.config) {
            Ok(s) => s,
            Err(e) => {
                return Err(e);
            },
        };
        let status = match &self.error {
            Some(_) => RunStatus::Failed,
            None => RunStatus::Completed,
        };
        let metadata = RunMetadata {
            run_id,
            pipeline_name: self.config.name,
            status,
            start_time,
            end_time,
            duration_ms,
            nodes_executed: self.records.len(),
            ancestor_run_id,
            error_message: self.error,
        };
        proof {
            lemma_dict_view(self.inputs);
            lemma_dict_view(self.outputs);
        }
        Ok(
            RunRecord {
                metadata,
                nodes: self.records,
                config_snapshot,
                input_snapshot: Value::Dict(self.inputs),
                output_snapshot: Value::Dict(self.outputs),
            },
        )
    }
}

/// Whether the run goes from one state to the next: a node starts, or one that runs finishes.
pub open spec fn steps(before: RunState, after: RunState) -> bool {
    &&& after.sound()
    &&& starts(before, after) || exists|
        i: usize,
        inputs: Val,
        o: OutcomeSpec,
        started_at: Timestamp,
        ended_at: Timestamp,
    |
        before.running(i) && #[trigger] finishes(
            before,
            after,
            i,
            inputs,
            o,
            started_at,
            ended_at,
        )
}

/// Whether these are the states that a run of the pipeline on those inputs goes through, from its
/// beginning until it is done.
pub open spec fn runs(
    config: PipelineSpec,
    inputs: Seq<(Seq<char>, Val)>,
    course: Seq<RunState>,
) -> bool {
    &&& course.len() > 0
    &&& begins(config, inputs, course[0])
    &&& forall|j: int, k: int|
        0 <= j && j + 1 == k && k < course.len() ==> steps(
            #[trigger] course[j],
            #[trigger] course[k],
        )
    &&& course.last().done()
}

/// Only a pipeline without a fault runs. All along the run is sound, and its pipeline and its
/// inputs stay what they were.
pub proof fn lemma_course(
    config: PipelineSpec,
    inputs: Seq<(Seq<char>, Val)>,
    course: Seq<RunState>,
    k: int,
)
    requires
        runs(config, inputs, course),
        0 <= k < course.len(),
    ensures
        config_fault(config.nodes) is None,
        course[k].sound(),
        course[k].config == config,
        course[k].inputs == inputs,
    decreases k,
{
    if k > 0 {
        lemma_course(config, inputs, course, k - 1);
        assert(steps(course[k - 1], course[k]));
    }
}

/// A run that is done has failed if one of its nodes has, and else each of its nodes has completed.
pub proof fn lemma_end(s: RunState)
    requires
        s.sound(),
        s.done(),
    ensures
        s.error is Some <==> exists|p: int|
            0 <= p < s.records.len() && (#[trigger] s.records[p]).status == NodeStatus::Failed,
        s.error is None ==> forall|b: int|
            0 <= b < s.config.nodes.len() ==> has_completed(
                s.records,
                (#[trigger] s.config.nodes[b]).name,
            ),
{
    assert forall|p: int|
        0 <= p < s.records.len() && (#[trigger] s.records[p]).status
            == NodeStatus::Failed implies s.error is Some by {
        assert(s.record_sound(s.records[p], p));
    }
    if s.error is None {
        assert forall|b: int| 0 <= b < s.config.nodes.len() implies has_completed(
            s.records,
            (#[trigger] s.config.nodes[b]).name,
        ) by {
            lemma_all_complete(s, b);
        }
    }
}

/// A node on an engine that nobody registered cannot run, and the run fails with it unless it has
/// failed before: both the record of the node and that of the run say that the engine is not
/// registered.
pub proof fn lemma_missing_engine_fails(
    before: RunState,
    after: RunState,
    i: usize,
    engines: Seq<Seq<char>>,
    inputs: Val,
    started_at: Timestamp,
    ended_at: Timestamp,
)
    requires
        before.error is None,
        !engines.contains(before.config.nodes[i as int].engine),
        finishes(
            before,
            after,
            i,
            inputs,
            OutcomeSpec::MissingEngine,
            started_at,
            ended_at,
        ),
    ensures
        ({
            let node = before.config.nodes[i as int];
            let message = unregistered(node.engine);
            &&& start_of(node, before.outputs, engines) == StartSpec::Refused(
                OutcomeSpec::MissingEngine,
            )
            &&& after.error == Some(message)
            &&& after.records.last().status == NodeStatus::Failed
            &&& after.records.last().error == Some(message)
            &&& occurs(message, "is not registered"@)
            &&& forall|snapshot: Seq<char>, id: Seq<char>, start: Timestamp, end: Timestamp, ms: u128, ancestor: Option<u128>|
                {
                    let r = #[trigger] run_record_of(after, snapshot, id, start, end, ms, ancestor);
                    r.metadata.status == RunStatus::Failed && r.metadata.error_message == Some(
                        message,
                    )
                }
        }),
{
    let message = unregistered(before.config.nodes[i as int].engine);
    let part = "is not registered"@;
    reveal_strlit("is not registered");
    reveal_strlit("' is not registered");
    let n = message.len() - part.len();
    assert(message.subrange(n, n + part.len()) =~= part);
    assert(occurs_at(message, part, n));
}

/// A node starts only after every node that feeds it has finished with an output, and that output
/// is there.
pub proof fn lemma_starts_after_inputs(s: RunState, p: int, a: int)
    requires
        s.sound(),
        0 <= p < s.queue.len(),
        0 <= a < s.config.nodes.len(),
        feeds(s.config.nodes, a, s.queue[p] as int),
    ensures
        s.finished.contains(a as usize),
        lookup(s.outputs, s.config.nodes[a].name) is Some,
{
    let nodes = s.config.nodes;
    let b = s.queue[p];
    lemma_faultless_distinct(nodes);
    assert(s.queue.contains(b));
    assert(missing(s.sources()[b as int], s.released) == 0);
    lemma_missing_none(s.sources()[b as int], s.released);
    lemma_input_nodes(nodes, nodes[b as int].inputs);
    assert(nodes[b as int].inputs.contains(nodes[a].name));
    assert(s.sources()[b as int].contains(a as usize));
    let k = choose|k: int|
        0 <= k < s.sources()[b as int].len() && s.sources()[b as int][k] == a as usize;
    assert(s.released.contains(s.sources()[b as int][k]));
    let j = choose|j: int| 0 <= j < s.released.len() && s.released[j] == a as usize;
    assert(s.finished.contains(s.released[j]));
    let f = choose|f: int| 0 <= f < s.finished.len() && s.finished[f] == a as usize;
    assert(s.record_sound(s.records[f], f));
    assert(s.records[f].status == NodeStatus::Completed);
}

/// The record of a node follows those of all the nodes that feed it, and those completed.
pub proof fn lemma_records_follow_inputs(s: RunState, p: int, a: int)
    requires
        s.sound(),
        0 <= p < s.records.len(),
        0 <= a < s.config.nodes.len(),
        feeds(s.config.nodes, a, s.finished[p] as int),
    ensures
        exists|q: int|
            0 <= q < p && (#[trigger] s.records[q]).name == s.config.nodes[a].name
                && s.records[q].status == NodeStatus::Completed,
{
    let nodes = s.config.nodes;
    let b = s.finished[p];
    lemma_faultless_distinct(nodes);
    let started = s.queue.take(s.started as int);
    assert(started.contains(s.finished[p]));
    let j = choose|j: int| 0 <= j < started.len() && started[j] == b;
    assert(s.queue[j] == b);
    assert(s.queue.contains(b));
    assert(missing(s.sources()[b as int], s.released) == 0);
    lemma_missing_none(s.sources()[b as int], s.released);
    lemma_input_nodes(nodes, nodes[b as int].inputs);
    assert(nodes[b as int].inputs.contains(nodes[a].name));
    assert(s.sources()[b as int].contains(a as usize));
    let k = choose|k: int|
        0 <= k < s.sources()[b as int].len() && s.sources()[b as int][k] == a as usize;
    assert(s.released.contains(s.sources()[b as int][k]));
    assert(before(s.finished, p, s.sources()[s.finished[p] as int][k]));
    let q = choose|q: int|
        0 <= q < p && q < s.finished.len() && #[trigger] s.finished[q] == a as usize;
    assert(s.record_sound(s.records[q], q));
}

/// Under each name a run holds the output of the node of that name, if that completed, and else
/// what it was given under that name: so its outputs have the keys of its inputs and the names of
/// the nodes that completed, and no others.
pub proof fn lemma_output_keys(s: RunState, name: Seq<char>)
    requires
        s.sound(),
    ensures
        lookup(s.outputs, name) is Some <==> lookup(s.inputs, name) is Some || has_completed(
            s.records,
            name,
        ),
        !has_completed(s.records, name) ==> lookup(s.outputs, name) == lookup(s.inputs, name),
        forall|p: int|
            0 <= p < s.records.len() && (#[trigger] s.records[p]).name == name
                && s.records[p].status == NodeStatus::Completed ==> lookup(s.outputs, name)
                == s.records[p].output,
{
    assert forall|p: int|
        0 <= p < s.records.len() && (#[trigger] s.records[p]).name == name && s.records[p].status
            == NodeStatus::Completed implies lookup(s.outputs, name) == s.records[p].output && lookup(
        s.outputs,
        name,
    ) is Some by {
        assert(s.record_sound(s.records[p], p));
    }
    if has_completed(s.records, name) {
        let p = choose|p: int|
            0 <= p < s.records.len() && (#[trigger] s.records[p]).name == name
                && s.records[p].status == NodeStatus::Completed;
        assert(lookup(s.outputs, name) is Some);
    }
}

/// Once nothing is left to do and nothing has failed, every node has finished with an output, which
/// is there under its name.
pub proof fn lemma_all_complete(s: RunState, b: int)
    requires
        s.sound(),
        s.done(),
        s.error is None,
        0 <= b < s.config.nodes.len(),
    ensures
        s.finished.contains(b as usize),
        has_completed(s.records, s.config.nodes[b].name),
        lookup(s.outputs, s.config.nodes[b].name) is Some,
{
    let nodes = s.config.nodes;
    let src = s.sources();
    lemma_faultless_distinct(nodes);
    lemma_acyclic(nodes);
    assert(s.queue.take(s.started as int) =~= s.queue);
    lemma_same_members(s.finished, s.queue);
    assert forall|c: int| 0 <= c < src.len() implies (s.finished.contains(c as usize) <==> missing(
        #[trigger] src[c],
        s.finished,
    ) == 0) by {
        assert(s.queue.contains(c as usize) <==> missing(s.sources()[c], s.released) == 0);
    }
    if !s.finished.contains(b as usize) {
        lemma_stuck(src, s.finished, b);
    }
    let f = choose|f: int| 0 <= f < s.finished.len() && s.finished[f] == b as usize;
    assert(s.record_sound(s.records[f], f));
}

/// Distinct items of a list of distinct items that is as long are all of them.
proof fn lemma_same_members(s: Seq<usize>, t: Seq<usize>)
    requires
        s.no_duplicates(),
        t.no_duplicates(),
        s.len() == t.len(),
        forall|p: int| 0 <= p < s.len() ==> t.contains(#[trigger] s[p]),
    ensures
        forall|x: usize| s.contains(x) <==> t.contains(x),
    decreases s.len(),
{
    if s.len() > 0 {
        let x = s.last();
        assert(t.contains(s[s.len() - 1]));
        let k = choose|k: int| 0 <= k < t.len() && t[k] == x;
        let a = s.drop_last();
        let b = t.remove(k);
        assert forall|p: int| 0 <= p < a.len() implies b.contains(#[trigger] a[p]) by {
            assert(t.contains(s[p]));
            let j = choose|j: int| 0 <= j < t.len() && t[j] == s[p];
            if j < k {
                assert(b[j] == s[p]);
            } else {
                assert(j != k);
                assert(b[j - 1] == s[p]);
            }
        }
        assert(b.no_duplicates());
        lemma_same_members(a, b);
        assert forall|y: usize| s.contains(y) <==> t.contains(y) by {
            if s.contains(y) {
                let p = choose|p: int| 0 <= p < s.len() && s[p] == y;
                assert(t.contains(s[p]));
            }
            if t.contains(y) {
                let j = choose|j: int| 0 <= j < t.len() && t[j] == y;
                if j != k {
                    if j < k {
                        assert(b[j] == y);
                    } else {
                        assert(b[j - 1] == y);
                    }
                    assert(a.contains(y));
                    let p = choose|p: int| 0 <= p < a.len() && a[p] == y;
                    assert(s[p] == y);
                } else {
                    assert(s[s.len() - 1] == y);
                }
            }
        }
    }
}

proof fn lemma_gathered_map(inputs: Seq<Seq<char>>, outputs: Seq<(Seq<char>, Val)>, node: Seq<char>)
    requires
        forall|i: int| 0 <= i < inputs.len() ==> lookup(outputs, #[trigger] inputs[i]) is Some,
    ensures
        gathered_map(inputs, outputs, node) matches Ok(m) && ascending(m) && forall|k: Seq<char>|
            #[trigger] lookup(m, k) == if inputs.contains(k) {
                lookup(outputs, k)
            } else {
                None
            },
    decreases inputs.len(),
{
    if inputs.len() > 0 {
        let front = inputs.drop_last();
        let last = inputs.last();
        assert(inputs[inputs.len() - 1] == last);
        assert forall|i: int| 0 <= i < front.len() implies lookup(
            outputs,
            #[trigger] front[i],
        ) is Some by {
            assert(front[i] == inputs[i]);
        }
        lemma_gathered_map(front, outputs, node);
        let m = gathered_map(front, outputs, node)->Ok_0;
        let v = lookup(outputs, last)->0;
        lemma_put_ascending(m, last, v);
        assert forall|k: Seq<char>| #[trigger] lookup(put(m, last, v), k) == if inputs.contains(k) {
            lookup(outputs, k)
        } else {
            None
        } by {
            lemma_put_lookup(m, last, v, k);
            if front.contains(k) {
                let j = choose|j: int| 0 <= j < front.len() && front[j] == k;
                assert(inputs[j] == k);
            }
            if inputs.contains(k) && k != last {
                let j = choose|j: int| 0 <= j < inputs.len() && inputs[j] == k;
                assert(front[j] == k);
            }
        }
    }
}

/// What a node is handed whose inputs are all there: nothing if it has none, the value of a single
/// one, and of several a map that holds each of them under its name and nothing else.
pub proof fn lemma_handed_inputs(node: NodeSpec, outputs: Seq<(Seq<char>, Val)>)
    requires
        forall|i: int| 0 <= i < node.inputs.len() ==> lookup(outputs, #[trigger] node.inputs[i]) is Some,
    ensures
        node.inputs.len() == 0 ==> gathered(node, outputs) == Result::<Val, Seq<char>>::Ok(Val::Null),
        node.inputs.len() == 1 ==> gathered(node, outputs) == Result::<Val, Seq<char>>::Ok(
            lookup(outputs, node.inputs[0])->0,
        ),
        node.inputs.len() >= 2 ==> (gathered(node, outputs) matches Ok(Val::Dict(m)) && ascending(m)
            && forall|k: Seq<char>| #[trigger]
            lookup(m, k) == if node.inputs.contains(k) {
                lookup(outputs, k)
            } else {
                None
            }),
{
    if node.inputs.len() == 1 {
        assert(lookup(outputs, node.inputs[0]) is Some);
    }
    lemma_gathered_map(node.inputs, outputs, node.name);
}

/// A node one of whose inputs is not there is handed nothing, and the first that is missing is named.
pub proof fn lemma_first_missing_named(node: NodeSpec, outputs: Seq<(Seq<char>, Val)>, i: int)
    requires
        0 <= i < node.inputs.len(),
        lookup(outputs, node.inputs[i]) is None,
        forall|j: int| 0 <= j < i ==> lookup(outputs, #[trigger] node.inputs[j]) is Some,
    ensures
        gathered(node, outputs) == Result::<Val, Seq<char>>::Err(
            "missing input '"@ + node.inputs[i] + "' for node '"@ + node.name + "'"@,
        ),
{
    if node.inputs.len() > 1 {
        let front = node.inputs.take(i);
        assert forall|j: int| 0 <= j < front.len() implies lookup(
            outputs,
            #[trigger] front[j],
        ) is Some by {
            assert(front[j] == node.inputs[j]);
        }
        lemma_gathered_map(front, outputs, node.name);
        assert(node.inputs.take(i + 1).drop_last() =~= front);
        assert(node.inputs.take(i + 1).last() == node.inputs[i]);
        lemma_gathered_fault(node.inputs, outputs, node.name, i + 1);
    }
}

/// A node starts by running its own code on what it is handed if and only if its engine is registered
/// and its inputs are there; else it is refused, for want of its engine before anything else.
pub proof fn lemma_node_start(
    node: NodeSpec,
    outputs: Seq<(Seq<char>, Val)>,
    engines: Seq<Seq<char>>,
    e: int,
)
    ensures
        0 <= e < engines.len() && engines[e] == node.engine && (forall|i: int|
            0 <= i < node.inputs.len() ==> lookup(outputs, #[trigger] node.inputs[i]) is Some) ==> (
        start_of(node, outputs, engines) matches StartSpec::Execute(code, input) && code == node.code
            && gathered(node, outputs) == Result::<Val, Seq<char>>::Ok(input)),
        (forall|k: int| 0 <= k < engines.len() ==> #[trigger] engines[k] != node.engine) ==> start_of(
            node,
            outputs,
            engines,
        ) == StartSpec::Refused(OutcomeSpec::MissingEngine),
        start_of(node, outputs, engines) is Execute ==> engines.contains(node.engine) && forall|i: int|
            0 <= i < node.inputs.len() ==> lookup(outputs, #[trigger] node.inputs[i]) is Some,
        start_of(node, outputs, engines) matches StartSpec::Refused(o) ==> !had_inputs(o) && (
        o is MissingEngine <==> !engines.contains(node.engine)),
{
    if forall|i: int| 0 <= i < node.inputs.len() ==> lookup(outputs, #[trigger] node.inputs[i]) is Some {
        lemma_handed_inputs(node, outputs);
    } else {
        let k = choose|k: int|
            0 <= k < node.inputs.len() && lookup(outputs, #[trigger] node.inputs[k]) is None;
        let i = lemma_first_absent(node.inputs, outputs, k);
        lemma_first_missing_named(node, outputs, i);
    }
}

proof fn lemma_first_absent(names: Seq<Seq<char>>, outputs: Seq<(Seq<char>, Val)>, k: int) -> (i: int)
    requires
        0 <= k < names.len(),
        lookup(outputs, names[k]) is None,
    ensures
        0 <= i <= k,
        lookup(outputs, names[i]) is None,
        forall|j: int| 0 <= j < i ==> lookup(outputs, #[trigger] names[j]) is Some,
    decreases k,
{
    if forall|j: int| 0 <= j < k ==> lookup(outputs, #[trigger] names[j]) is Some {
        k
    } else {
        let j = choose|j: int| 0 <= j < k && lookup(outputs, #[trigger] names[j]) is None;
        lemma_first_absent(names, outputs, j)
    }
}

/// What is recorded when a node finishes: one more record, with the name, the engine and the code of
/// the node, the two instants, what it was handed if it ran, and either its output or its error. Its
/// output is added under its name, and nothing else changes; the error of the run is that of the
/// first node that failed.
pub proof fn lemma_finish_recorded(
    before: RunState,
    after: RunState,
    i: usize,
    inputs: Val,
    o: OutcomeSpec,
    started_at: Timestamp,
    ended_at: Timestamp,
)
    requires
        finishes(before, after, i, inputs, o, started_at, ended_at),
    ensures
        ({
            let node = before.config.nodes[i as int];
            let n = after.records.last();
            &&& after.records.len() == before.records.len() + 1
            &&& after.records.drop_last() == before.records
            &&& after.finished.last() == i
            &&& n.name == node.name
            &&& n.engine == node.engine
            &&& n.code == node.code
            &&& n.started_at == started_at
            &&& n.ended_at == ended_at
            &&& o matches OutcomeSpec::Output(v) ==> {
                &&& n.status == NodeStatus::Completed
                &&& n.inputs == inputs
                &&& n.output == Some(v)
                &&& n.error is None
                &&& after.error == before.error
                &&& lookup(after.outputs, node.name) == Some(v)
            }
            &&& !(o is Output) ==> {
                &&& n.status == NodeStatus::Failed
                &&& n.output is None
                &&& n.error is Some
                &&& after.error is Some
                &&& after.outputs == before.outputs
                &&& after.queue == before.queue
            }
            &&& o matches OutcomeSpec::Error(e) ==> n.inputs == inputs && n.error == Some(e) && (
            before.error is None ==> after.error == Some(e))
            &&& o matches OutcomeSpec::Panic(Some(m)) ==> n.inputs == inputs && n.error == Some(m) && (
            before.error is None ==> after.error == Some("plugin panic: "@ + m))
            &&& o matches OutcomeSpec::Panic(None) ==> n.inputs == inputs && n.error == Some(
                "plugin panic occurred"@,
            )
            &&& o is MissingEngine ==> n.inputs == Val::Null && n.error == Some(
                "engine '"@ + node.engine + "' is not registered"@,
            ) && (before.error is None ==> after.error == n.error)
            &&& o matches OutcomeSpec::MissingInput(e) ==> n.inputs == Val::Null && n.error == Some(
                "input resolution failed: "@ + e,
            ) && (before.error is None ==> after.error == Some(e))
            &&& before.error is Some ==> after.error == before.error
            &&& forall|k: Seq<char>|
                k != node.name ==> #[trigger] lookup(after.outputs, k) == lookup(before.outputs, k)
        }),
{
    let node = before.config.nodes[i as int];
    assert(after.records.drop_last() =~= before.records);
    match o {
        OutcomeSpec::Output(v) => {
            lemma_put_lookup(before.outputs, node.name, v, node.name);
            assert forall|k: Seq<char>| k != node.name implies #[trigger] lookup(after.outputs, k)
                == lookup(before.outputs, k) by {
                lemma_put_lookup(before.outputs, node.name, v, k);
            }
        },
        _ => {},
    }
}

/// Each record of a run is that of one of the nodes of its pipeline, with the name, the engine and the
/// code of that node.
pub proof fn lemma_record_node(s: RunState, p: int)
    requires
        s.sound(),
        0 <= p < s.records.len(),
    ensures
        s.finished[p] < s.config.nodes.len(),
        s.records[p].name == s.config.nodes[s.finished[p] as int].name,
        s.records[p].engine == s.config.nodes[s.finished[p] as int].engine,
        s.records[p].code == s.config.nodes[s.finished[p] as int].code,
{
    assert(s.record_sound(s.records[p], p));
    let q = s.queue.take(s.started as int);
    assert(q.contains(s.finished[p]));
    let k = choose|k: int| 0 <= k < q.len() && q[k] == s.finished[p];
    assert(s.queue[k] == s.finished[p]);
}

/// A run has at most one record for each node, so their number is a length.
pub proof fn lemma_few_records(s: RunState)
    requires
        s.sound(),
    ensures
        s.records.len() <= s.config.nodes.len() <= usize::MAX,
        s.finished.no_duplicates(),
{
    assert forall|p: int| 0 <= p < s.finished.len() implies (#[trigger] s.finished[p])
        < s.config.nodes.len() by {
        lemma_record_node(s, p);
    }
    lemma_distinct_len(s.finished, s.config.nodes.len());
}

/// A start changes nothing but how many nodes have started, by one, and only a node that waits in the
/// queue starts: then it runs.
pub proof fn lemma_start_recorded(before: RunState, after: RunState)
    requires
        before.sound(),
        starts(before, after),
    ensures
        before.started < before.queue.len(),
        after.started == before.started + 1,
        after.config == before.config,
        after.inputs == before.inputs,
        after.outputs == before.outputs,
        after.queue == before.queue,
        after.finished == before.finished,
        after.released == before.released,
        after.records == before.records,
        after.error == before.error,
        after.running(before.queue[before.started as int]),
        !before.running(before.queue[before.started as int]),
{
    let i = before.queue[before.started as int];
    let front = before.queue.take(before.started as int);
    let more = after.queue.take(after.started as int);
    assert(more[before.started as int] == i);
    assert(!front.contains(i)) by {
        if front.contains(i) {
            let p = choose|p: int| 0 <= p < front.len() && front[p] == i;
            assert(before.queue[p] == before.queue[before.started as int]);
        }
    }
    if before.finished.contains(i) {
        let p = choose|p: int| 0 <= p < before.finished.len() && before.finished[p] == i;
        assert(front.contains(before.finished[p]));
    }
}

/// A node runs if and only if it has started and has not finished.
pub proof fn lemma_running(s: RunState, i: usize)
    requires
        s.started <= s.queue.len(),
    ensures
        s.running(i) <==> (exists|p: int| 0 <= p < s.started && #[trigger] s.queue[p] == i) && forall|p: int|
            0 <= p < s.finished.len() ==> #[trigger] s.finished[p] != i,
{
    let front = s.queue.take(s.started as int);
    if front.contains(i) {
        let p = choose|p: int| 0 <= p < front.len() && front[p] == i;
        assert(s.queue[p] == i);
    }
    if exists|p: int| 0 <= p < s.started && #[trigger] s.queue[p] == i {
        let p = choose|p: int| 0 <= p < s.started && #[trigger] s.queue[p] == i;
        assert(front[p] == i);
    }
}

/// A run begins with what it was given and nothing done, and a node may start at once if and only if
/// no node of the pipeline feeds it.
pub proof fn lemma_beginning(config: PipelineSpec, inputs: Seq<(Seq<char>, Val)>, s: RunState, b: int)
    requires
        begins(config, inputs, s),
        0 <= b < config.nodes.len(),
    ensures
        config_fault(config.nodes) is None,
        s.config == config,
        s.inputs == inputs,
        s.outputs == inputs,
        s.started == 0,
        s.finished.len() == 0,
        s.records.len() == 0,
        s.error is None,
        s.queue.contains(b as usize) <==> missing(node_sources(config.nodes)[b], Seq::empty()) == 0,
{
    assert(s.released =~= Seq::empty());
    assert(s.sources()[b] == node_sources(config.nodes)[b]);
}

/// What the end of a node leaves alone: the pipeline, the inputs, what has started, what ended before
/// and what was in the queue. Only a node with an output, in a run without a failure, counts for those
/// that wait for it; no other end lets a node start.
pub proof fn lemma_finish_frame(
    before: RunState,
    after: RunState,
    i: usize,
    inputs: Val,
    o: OutcomeSpec,
    started_at: Timestamp,
    ended_at: Timestamp,
)
    requires
        finishes(before, after, i, inputs, o, started_at, ended_at),
    ensures
        after.config == before.config,
        after.inputs == before.inputs,
        after.started == before.started,
        after.finished.drop_last() == before.finished,
        before.queue.is_prefix_of(after.queue),
        o is Output && before.error is None ==> after.released.len() == before.released.len() + 1
            && after.released.drop_last() == before.released && after.released.last() == i,
        !(o is Output) || before.error is Some ==> after.released == before.released && after.queue
            == before.queue,
        o == OutcomeSpec::Panic(None) && before.error is None ==> after.error == Some(
            "plugin panic: "@ + "plugin panic occurred"@,
        ),
{
    assert(after.queue.subrange(0, before.queue.len() as int) =~= before.queue);
}

} // verus!
