use manifold::cli::{
    after_run, choose_target, load_inputs, plan_rerun, rerun_command, run_outcome, Afterwards, Target,
};
use manifold::config::PipelineConfig;
use manifold::engine::{ExecutionEngine, NativeEngine, UiuaEngine};
use manifold::error::CliError;
use manifold::namespace::InstanceNamespace;
use manifold::record::{
    fresh_id, run_of_json, RunMetadata, RunRecord, RunStatus, Timestamp,
};
use manifold::runtime::Runtime;
use manifold::schedule::{NodeStart, Outcome, PipelineRun};
use manifold::store::{InMemoryStore, Store};
use manifold::strmap::StrMap;
use manifold::value::Value;
use manifold::yaml::parse_config;

fn at(secs: i64) -> Timestamp {
    Timestamp::new(1_700_000_000 + secs, 0).unwrap()
}

fn standard() -> Runtime<InstanceNamespace<InMemoryStore>> {
    let mut runtime = Runtime::<InMemoryStore>::new_with_namespace(InMemoryStore::new(), "test");
    for name in ["uiua", "native", "wasm"] {
        runtime.register_engine(name.to_string());
    }
    runtime
}

fn engine_output(engine: &str, code: &str, input: Value) -> Outcome {
    let output = match engine {
        "native" => NativeEngine::new().execute(code, input),
        "uiua" => UiuaEngine::new().execute(code, input),
        _ => Err("no such engine".to_string()),
    };
    match output {
        Ok(value) => Outcome::Output(value),
        Err(error) => Outcome::Error(error),
    }
}

fn execute_runtime_pipeline<S: Store>(
    runtime: &mut Runtime<S>,
    config: PipelineConfig,
    inputs: StrMap<Value>,
    ancestor: Option<u128>,
) -> Result<RunRecord, CliError> {
    let names: Vec<String> = config.nodes.iter().map(|node| node.engine.clone()).collect();
    let mut run = PipelineRun::begin(config, inputs).map_err(CliError::Config)?;
    while let Some((i, start)) = run.next_node(&runtime.engines) {
        let (input, outcome) = match start {
            NodeStart::Execute(code, input) => {
                let outcome = engine_output(&names[i], &code, input.clone());
                (input, outcome)
            }
            NodeStart::Refused(outcome) => (Value::Null, outcome),
        };
        assert!(run.finish_node(i, input, outcome, at(0), at(1)));
    }
    assert!(run.is_done());
    run_outcome(runtime.conclude_run(run, fresh_id(), at(0), at(1), 1000, ancestor).unwrap())
}

/// Runs a configuration that stands alone, and gives what the program prints of it.
fn run_command<S: Store>(
    runtime: &mut Runtime<S>,
    yaml: &str,
    inputs: Option<&str>,
) -> Result<String, CliError> {
    let target = choose_target(None, true, false, false, false).unwrap();
    let config = parse_config(yaml).map_err(CliError::Config)?;
    let record = execute_runtime_pipeline(runtime, config, load_inputs(inputs)?, None)?;
    match after_run(target, "test", "in-memory://asset-host", &record) {
        Afterwards::Show(text) => Ok(text),
        Afterwards::Serve(_) => unreachable!(),
    }
}

#[test]
fn multi_engine_pipeline_executes_and_persists() {
    let config_yaml = r#"name: multi-engine
nodes:
  - name: native_node
    engine: native
    code: native-op
    inputs: []
  - name: uiua_node
    engine: uiua
    code: +
    inputs:
      - native_node
"#;
    let mut runtime = standard();
    let stdout = run_command(&mut runtime, config_yaml, None).unwrap();

    let run_record = run_of_json(&stdout).unwrap();
    assert_eq!(run_record.metadata.status, RunStatus::Completed);
    assert!(run_record.metadata.error_message.is_none());

    let outputs = run_record.output_snapshot.as_map().unwrap();
    assert!(outputs.contains_key("native_node"));
    assert!(outputs.contains_key("uiua_node"));
    assert_eq!(outputs.len(), 2);

    let persisted = runtime.store.get_run(&run_record.metadata.run_id).unwrap().unwrap();
    assert_eq!(persisted.metadata.status, RunStatus::Completed);
    assert_eq!(persisted.nodes[0].name, "native_node");
    assert_eq!(persisted.nodes[1].name, "uiua_node");
}

#[test]
fn missing_engine_records_partial_lineage() {
    let config_yaml = r#"name: bad-engine
nodes:
  - name: broken
    engine: does_not_exist
    code: x
    inputs: []
"#;
    let mut runtime = standard();
    match run_command(&mut runtime, config_yaml, None) {
        Err(CliError::ExecutionFailed(s)) => {
            assert_eq!(s, "engine 'does_not_exist' is not registered")
        }
        _ => unreachable!(),
    }

    let runs = runtime.store.list_runs().unwrap();
    assert!(!runs.is_empty(), "expected at least one persisted run");
    let failed = runs
        .into_iter()
        .find(|m| m.status == RunStatus::Failed)
        .expect("expected a failed run");

    let rec = runtime.store.get_run(&failed.run_id).unwrap().expect("run record present");
    assert_eq!(rec.metadata.status, RunStatus::Failed);
    assert!(rec.metadata.error_message.is_some());
    assert!(rec.metadata.error_message.unwrap().contains("is not registered"));
}

#[test]
fn integration_run_and_persist_lineage() {
    let config_yaml = r#"name: integration-pipeline
nodes:
  - name: generate
    engine: uiua
    code: "[1 2 3 4]"
    inputs: []
  - name: process_sum
    engine: uiua
    code: "+"
    inputs:
      - generate
"#;
    let mut runtime = standard();
    let stdout = run_command(&mut runtime, config_yaml, Some("{}")).unwrap();

    let run_record = run_of_json(&stdout).unwrap();
    assert_eq!(run_record.metadata.status, RunStatus::Completed);
    assert!(run_record.metadata.error_message.is_none());
    assert!(run_record.metadata.ancestor_run_id.is_none());
    let outputs = run_record.output_snapshot.as_map().expect("expected output_snapshot to be a map");
    let process_sum_output =
        outputs.get("process_sum").expect("expected process_sum output to be present");
    assert!(process_sum_output.as_map().is_some(), "expected process_sum output to be a map");

    let persisted_record = runtime
        .store
        .get_run(&run_record.metadata.run_id)
        .unwrap()
        .expect("expected persisted run record");
    assert_eq!(persisted_record.metadata.status, RunStatus::Completed);
    assert!(persisted_record.metadata.error_message.is_none());
    assert!(persisted_record.metadata.ancestor_run_id.is_none());
    assert!(persisted_record.output_snapshot.as_map().unwrap().contains_key("process_sum"));
}

#[test]
fn integration_rerun_preserves_ancestor_chain() {
    let original_id = fresh_id();
    let config_yaml = r#"name: rerun-pipeline
nodes:
  - name: generate
    engine: uiua
    code: "[1 2 3 4]"
    inputs: []
"#;
    let original_record = RunRecord {
        metadata: RunMetadata {
            run_id: original_id.clone(),
            pipeline_name: "rerun-pipeline".to_string(),
            status: RunStatus::Completed,
            start_time: at(0),
            end_time: at(0),
            duration_ms: 1,
            nodes_executed: 1,
            ancestor_run_id: None,
            error_message: None,
        },
        nodes: vec![],
        config_snapshot: config_yaml.to_string(),
        input_snapshot: Value::Dict(StrMap::new()),
        output_snapshot: Value::Dict(StrMap::new()),
    };
    let mut runtime = standard();
    runtime.store.put_run(original_record.clone()).unwrap();
    assert!(plan_rerun(original_record).is_ok());

    let again = rerun_command(&runtime.store, &original_id).unwrap();
    let record =
        execute_runtime_pipeline(&mut runtime, again.pipeline, again.inputs, Some(again.ancestor))
            .unwrap();
    let new_run_id = record.metadata.run_id;
    assert_ne!(new_run_id, original_id);
    assert!(uuid::Uuid::parse_str(&new_run_id).is_ok());

    let rerun_record =
        runtime.store.get_run(&new_run_id).unwrap().expect("expected rerun record to exist");
    assert_eq!(rerun_record.metadata.status, RunStatus::Completed);
    assert_eq!(
        rerun_record.metadata.ancestor_run_id,
        Some(uuid::Uuid::parse_str(&original_id).unwrap().as_u128())
    );
}

#[test]
fn applications_are_served_after_their_run() {
    let mut runtime = standard();
    let config = parse_config("name: p\nnodes: []\n").unwrap();
    let record = execute_runtime_pipeline(&mut runtime, config, StrMap::new(), None).unwrap();
    for target in [Target::Given, Target::Current] {
        match after_run(target, "a", "u", &record) {
            Afterwards::Serve(lines) => {
                assert_eq!(lines.len(), 7);
                assert!(lines[5].ends_with(&record.metadata.run_id));
            }
            Afterwards::Show(_) => unreachable!(),
        }
    }
}

#[test]
fn outputs_have_the_names_of_inputs_and_of_completed_nodes() {
    let yaml = "name: p\nnodes:\n  - {name: c, engine: uiua, code: '', inputs: [b, a]}\n  - {name: b, engine: uiua, code: '', inputs: [a]}\n  - {name: a, engine: native, code: '', inputs: [x]}\n";
    let mut runtime = standard();
    let inputs = load_inputs(Some("{\"x\": 1, \"y\": 2}")).unwrap();
    let record =
        execute_runtime_pipeline(&mut runtime, parse_config(yaml).unwrap(), inputs, None).unwrap();
    let order: Vec<&str> = record.nodes.iter().map(|n| n.name.as_str()).collect();
    assert_eq!(order, ["a", "b", "c"]);
    let outputs = record.output_snapshot.as_map().unwrap();
    assert_eq!(outputs.len(), 5);
    for key in ["a", "b", "c", "x", "y"] {
        assert!(outputs.contains_key(key));
    }
    assert_eq!(outputs.get("y"), Some(&Value::Int(2)));
}
