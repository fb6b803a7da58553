use manifold::cli::{extract_inputs, run_outcome};
use manifold::config::{NodeConfig, PipelineConfig};
use manifold::engine::{ExecutionEngine, NativeEngine, UiuaEngine};
use manifold::error::CliError;
use manifold::record::{
    fresh_id, NodeStatus, RunMetadata, RunRecord, RunStatus, Timestamp,
};
use manifold::runtime::Runtime;
use manifold::schedule::{collect_node_inputs, NodeStart, Outcome, PipelineRun};
use manifold::store::{InMemoryStore, Store};
use manifold::strmap::StrMap;
use manifold::value::Value;
use manifold::yaml::parse_config;

fn at(secs: i64) -> Timestamp {
    Timestamp::new(1_700_000_000 + secs, 0).unwrap()
}

fn node(name: &str, engine: &str, code: &str, inputs: &[&str]) -> NodeConfig {
    NodeConfig {
        name: name.to_string(),
        engine: engine.to_string(),
        code: code.to_string(),
        inputs: inputs.iter().map(|s| s.to_string()).collect(),
    }
}

fn pipeline(name: &str, nodes: Vec<NodeConfig>) -> PipelineConfig {
    PipelineConfig { name: name.to_string(), nodes }
}

fn simple(code: &str, input: Value) -> Outcome {
    let mut map = StrMap::new();
    map.insert("code".to_string(), Value::String(code.to_string()));
    map.insert("input".to_string(), input);
    Outcome::Output(Value::Dict(map))
}

fn execute_pipeline(
    runtime: &mut Runtime<InMemoryStore>,
    config: PipelineConfig,
    inputs: StrMap<Value>,
    ancestor: Option<u128>,
    engine: &dyn Fn(&str, Value) -> Outcome,
) -> RunRecord {
    let mut run = PipelineRun::begin(config, inputs).unwrap();
    while let Some((i, start)) = run.next_node(&runtime.engines) {
        let (input, outcome) = match start {
            NodeStart::Execute(code, input) => {
                let outcome = engine(&code, input.clone());
                (input, outcome)
            }
            NodeStart::Refused(outcome) => (Value::Null, outcome),
        };
        assert!(run.finish_node(i, input, outcome, at(0), at(1)));
    }
    assert!(run.is_done());
    let id = fresh_id();
    runtime.conclude_run(run, id, at(0), at(2), 2000, ancestor).unwrap()
}

#[test]
fn async_dag_schedules_parallel_nodes() {
    let engines = vec!["uiua".to_string()];
    let config = pipeline(
        "dag-test",
        vec![
            node("A", "uiua", "A", &[]),
            node("B", "uiua", "B", &[]),
            node("C", "uiua", "C", &["A", "B"]),
        ],
    );
    let mut run = PipelineRun::begin(config, StrMap::new()).unwrap();

    let (a, _) = run.next_node(&engines).unwrap();
    let (b, _) = run.next_node(&engines).unwrap();
    assert_eq!((a, b), (0, 1), "A and B did not execute concurrently");
    assert!(run.next_node(&engines).is_none());
    assert!(run.finish_node(b, Value::Null, Outcome::Output(Value::Int(2)), at(0), at(1)));
    assert!(run.next_node(&engines).is_none(), "C started before A and B finished");
    assert!(run.finish_node(a, Value::Null, Outcome::Output(Value::Int(1)), at(0), at(1)));
    assert!(!run.is_done());
    let (c, start) = run.next_node(&engines).unwrap();
    assert_eq!(c, 2);
    let input = match start {
        NodeStart::Execute(code, input) => {
            assert_eq!(code, "C");
            input
        }
        NodeStart::Refused(_) => unreachable!(),
    };
    let both = input.as_map().unwrap();
    assert_eq!(both.get("A"), Some(&Value::Int(1)));
    assert_eq!(both.get("B"), Some(&Value::Int(2)));
    assert!(run.finish_node(c, input, Outcome::Output(Value::Int(3)), at(1), at(2)));
    assert!(!run.finish_node(c, Value::Null, Outcome::MissingEngine, at(1), at(2)));
    assert!(run.is_done());

    let record = run.conclude("r".to_string(), at(0), at(2), 2000, None).unwrap();
    assert_eq!(record.metadata.status, RunStatus::Completed);
    assert_eq!(record.metadata.nodes_executed, 3);
}

#[test]
fn runtime_executes_pipeline_and_stores_run() {
    let mut runtime = Runtime::new(InMemoryStore::new());
    runtime.register_engine("uiua".to_string());

    let config = pipeline(
        "test-pipeline",
        vec![node("first", "uiua", "1", &[]), node("second", "uiua", "2", &["first"])],
    );
    let record = execute_pipeline(&mut runtime, config, StrMap::new(), None, &simple);

    assert_eq!(record.metadata.pipeline_name, "test-pipeline");
    assert_eq!(record.metadata.ancestor_run_id, None);
    assert_eq!(record.nodes.len(), 2);
    assert!(record.output_snapshot.as_map().unwrap().contains_key("second"));

    let stored = runtime.store.get_run(&record.metadata.run_id).unwrap().unwrap();
    assert_eq!(stored.metadata.pipeline_name, "test-pipeline");
    assert_eq!(stored.output_snapshot, record.output_snapshot);
    let again = parse_config(&stored.config_snapshot).unwrap();
    assert_eq!(again.name, "test-pipeline");
    assert_eq!(again.nodes[1].inputs, vec!["first".to_string()]);
}

#[test]
fn missing_engine_schedules_failed_node_and_partial_lineage() {
    let mut runtime = Runtime::new(InMemoryStore::new());
    runtime.register_engine("uiua".to_string());

    let config = pipeline("missing-engine-test", vec![node("only", "rust", "x", &[])]);
    let record = execute_pipeline(&mut runtime, config, StrMap::new(), None, &simple);

    assert_eq!(record.metadata.status, RunStatus::Failed);
    assert!(record.metadata.error_message.is_some());
    let msg = record.metadata.error_message.clone().unwrap();
    assert!(msg.contains("is not registered"));

    assert_eq!(record.nodes.len(), 1);
    assert_eq!(record.nodes[0].status, NodeStatus::Failed);
    assert!(record.nodes[0].error.is_some());
    assert_eq!(record.nodes[0].error.as_deref(), Some("engine 'rust' is not registered"));

    match run_outcome(record) {
        Err(CliError::ExecutionFailed(s)) => assert_eq!(s, "engine 'rust' is not registered"),
        _ => unreachable!(),
    }
}

#[test]
fn rerun_preserves_ancestor_chain() {
    let mut store = InMemoryStore::new();
    let original_id = fresh_id();
    let original = RunRecord {
        metadata: RunMetadata {
            run_id: original_id.clone(),
            pipeline_name: "demo".to_string(),
            status: RunStatus::Completed,
            start_time: at(0),
            end_time: at(0),
            duration_ms: 5,
            nodes_executed: 0,
            ancestor_run_id: None,
            error_message: None,
        },
        nodes: vec![],
        config_snapshot: "name: demo\nnodes: []\n".to_string(),
        input_snapshot: Value::Dict(StrMap::new()),
        output_snapshot: Value::Null,
    };
    store.put_run(original.clone()).unwrap();

    let mut runtime = Runtime::new(store);
    runtime.register_engine("uiua".to_string());
    let config = parse_config(&original.config_snapshot).unwrap();
    let inputs = extract_inputs(original.input_snapshot.clone()).unwrap();

    let ancestor = uuid::Uuid::parse_str(&original_id).unwrap().as_u128();
    let new_record = execute_pipeline(&mut runtime, config, inputs, Some(ancestor), &simple);
    assert_eq!(new_record.metadata.ancestor_run_id, Some(ancestor));
    assert!(run_outcome(new_record).is_ok());
}

#[test]
fn a_failure_stops_what_depends_on_it() {
    let engines = vec!["uiua".to_string()];
    let config = pipeline(
        "failing",
        vec![
            node("bad", "uiua", "x", &[]),
            node("other", "uiua", "y", &["seed"]),
            node("after", "uiua", "z", &["bad"]),
        ],
    );
    let mut inputs = StrMap::new();
    inputs.insert("seed".to_string(), Value::Int(9));
    let mut run = PipelineRun::begin(config, inputs).unwrap();
    let (bad, _) = run.next_node(&engines).unwrap();
    let (other, start) = run.next_node(&engines).unwrap();
    match start {
        NodeStart::Execute(_, input) => assert_eq!(input, Value::Int(9)),
        NodeStart::Refused(_) => unreachable!(),
    }
    assert!(run.finish_node(bad, Value::Null, Outcome::Panic(None), at(0), at(1)));
    assert!(run.finish_node(other, Value::Int(9), Outcome::Output(Value::Null), at(0), at(1)));
    assert!(run.next_node(&engines).is_none());
    assert!(run.is_done());
    let record = run.conclude("r".to_string(), at(0), at(1), 1, None).unwrap();
    assert_eq!(record.metadata.status, RunStatus::Failed);
    assert_eq!(
        record.metadata.error_message.as_deref(),
        Some("plugin panic: plugin panic occurred")
    );
    assert_eq!(record.nodes[0].error.as_deref(), Some("plugin panic occurred"));
    assert_eq!(record.nodes[1].inputs, Value::Int(9));
    assert!(!record.output_snapshot.as_map().unwrap().contains_key("after"));
}

#[test]
fn missing_inputs_are_told() {
    let engines = vec!["uiua".to_string()];
    let config = pipeline("p", vec![node("n", "uiua", "x", &["nowhere"])]);
    let mut run = PipelineRun::begin(config, StrMap::new()).unwrap();
    let (i, start) = run.next_node(&engines).unwrap();
    let outcome = match start {
        NodeStart::Refused(outcome) => outcome,
        NodeStart::Execute(..) => unreachable!(),
    };
    assert!(run.finish_node(i, Value::Null, outcome, at(0), at(1)));
    let record = run.conclude("r".to_string(), at(0), at(1), 1, None).unwrap();
    assert_eq!(
        record.nodes[0].error.as_deref(),
        Some("input resolution failed: missing input 'nowhere' for node 'n'")
    );
    assert_eq!(
        record.metadata.error_message.as_deref(),
        Some("missing input 'nowhere' for node 'n'")
    );

    let outputs = StrMap::new();
    assert_eq!(
        collect_node_inputs(&node("n", "uiua", "", &["a", "b"]), &outputs).unwrap_err(),
        "missing input 'a' for node 'n'"
    );
    assert_eq!(collect_node_inputs(&node("n", "uiua", "", &[]), &outputs).unwrap(), Value::Null);
}

#[test]
fn a_faulty_configuration_is_not_begun() {
    let config = pipeline(
        "loop",
        vec![node("a", "uiua", "", &["b"]), node("b", "uiua", "", &["a"])],
    );
    assert!(PipelineRun::begin(config, StrMap::new()).is_err());
}

#[test]
fn engines_repeat_what_they_were_given() {
    let v = NativeEngine::new().execute("c", Value::Int(1)).unwrap();
    let m = v.as_map().unwrap();
    assert_eq!(m.get("engine"), Some(&Value::String("native".to_string())));
    assert_eq!(m.get("code"), Some(&Value::String("c".to_string())));
    assert_eq!(m.get("input"), Some(&Value::Int(1)));
    let v = UiuaEngine::default().execute("c", Value::Null).unwrap();
    assert_eq!(v.as_map().unwrap().get("engine"), Some(&Value::String("uiua".to_string())));
}

#[test]
fn exactly_the_record_handed_back_is_stored() {
    let mut runtime = Runtime::new(InMemoryStore::new());
    runtime.register_engine("uiua".to_string());
    let good = pipeline("good", vec![node("a", "uiua", "A", &[]), node("b", "uiua", "B", &["a"])]);
    let record = execute_pipeline(&mut runtime, good, StrMap::new(), Some(9), &|code, input| {
        simple(code, input)
    });
    assert_eq!(record.metadata.status, RunStatus::Completed);
    assert_eq!(runtime.store.list_runs().unwrap().len(), 1);
    let found = runtime.store.get_run(&record.metadata.run_id).unwrap();
    assert_eq!(found, Some(record));

    let bad = pipeline("bad", vec![node("a", "uiua", "A", &[]), node("b", "uiua", "B", &["a"])]);
    let record = execute_pipeline(&mut runtime, bad, StrMap::new(), None, &|_, _| {
        Outcome::Error("boom".to_string())
    });
    assert_eq!(record.metadata.status, RunStatus::Failed);
    assert_eq!(record.metadata.error_message, Some("boom".to_string()));
    assert_eq!(record.nodes.len(), 1);
    assert_eq!(runtime.store.list_runs().unwrap().len(), 2);
    let found = runtime.store.get_run(&record.metadata.run_id).unwrap();
    assert_eq!(found, Some(record));

    let faulty = pipeline("faulty", vec![node("a", "uiua", "A", &["a"])]);
    assert!(PipelineRun::begin(faulty, StrMap::new()).is_err());
    assert_eq!(runtime.store.list_runs().unwrap().len(), 2);
}
