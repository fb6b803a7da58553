use manifold::cli::{
    boot_lines, choose_target, config_candidates, determine_asset_root, diff_command,
    extract_inputs, get_run, load_inputs, locate_pipeline_config, no_directory, parse_inputs,
    rerun_command, run_outcome, show_command, validate_run_id, ConfigFile, Shown, Target,
};
use manifold::error::CliError;
use manifold::record::{NodeRecord, NodeStatus, RunMetadata, RunRecord, RunStatus, Timestamp};
use manifold::report::{
    compare_performance, compare_snapshot_maps, format_value, generate_diff_report, plain_text,
    print_run_summary, print_snapshot, raw_run, Tone,
};
use manifold::store::{InMemoryStore, Store};
use manifold::strmap::StrMap;
use manifold::value::Value;

const ID: &str = "0a1b2c3d-0000-4000-8000-000000000001";
const OTHER: &str = "0a1b2c3d-0000-4000-8000-000000000002";

fn text(s: &str) -> Value {
    Value::String(s.to_string())
}

fn dict(entries: &[(&str, Value)]) -> Value {
    let mut map = StrMap::new();
    for (k, v) in entries {
        map.insert(k.to_string(), v.clone());
    }
    Value::Dict(map)
}

fn make_run_record(
    id: &str,
    duration_ms: u128,
    input_snapshot: Value,
    output_snapshot: Value,
) -> RunRecord {
    let now = Timestamp::new(1_700_000_000, 0).unwrap();
    RunRecord {
        metadata: RunMetadata {
            run_id: id.to_string(),
            pipeline_name: "demo".to_string(),
            status: RunStatus::Completed,
            start_time: now,
            end_time: now,
            duration_ms,
            nodes_executed: 0,
            ancestor_run_id: None,
            error_message: None,
        },
        nodes: vec![],
        config_snapshot: "name: demo\nnodes: []\n".to_string(),
        input_snapshot,
        output_snapshot,
    }
}

#[test]
fn diff_report_detects_mutation() {
    let a = make_run_record("a", 10, dict(&[]), dict(&[("value", text("old"))]));
    let b = make_run_record("b", 12, dict(&[]), dict(&[("value", text("new"))]));
    let report = plain_text(&generate_diff_report(&a, &b));

    assert!(report.contains("value: \"old\" -> \"new\""));
    assert!(report.contains("slower"));

    assert_eq!(
        report,
        "RUN DIFF\n\
         Left ID:             a\n\
         Right ID:            b\n\
         \n\
         INPUTS\n  unchanged\n\
         \n\
         OUTPUTS\n  ~ value: \"old\" -> \"new\"\n\
         \n\
         PERFORMANCE\n  ✖ 10 -> 12 (2ms slower)\n"
    );
}

#[test]
fn diverged_configurations_are_told() {
    let a = make_run_record("a", 10, Value::Null, Value::Null);
    let mut b = make_run_record("b", 10, Value::Null, Value::Null);
    b.config_snapshot = "name: other\nnodes: []\n".to_string();
    let lines = generate_diff_report(&a, &b);
    assert_eq!(lines[0][0].tone, Tone::BoldUnderline);
    assert_eq!(lines[4][0].tone, Tone::YellowBold);
    assert_eq!(lines[4][0].text, "⚠ Warning:");
    let report = plain_text(&lines);
    assert!(report.contains("Pipeline configurations have diverged between these runs!"));
    assert!(report.contains("  = unchanged 10ms"));
    assert!(report.ends_with(
        "CONFIG SNAPSHOT\n  Pipeline configuration content differs between runs."
    ));
}

#[test]
fn every_key_is_compared() {
    let left = dict(&[("a", Value::Int(1)), ("b", Value::Int(2)), ("d", Value::Int(4))]);
    let right = dict(&[("b", Value::Int(2)), ("c", Value::Int(3)), ("d", Value::Int(5))]);
    assert_eq!(
        plain_text(&compare_snapshot_maps(&left, &right)),
        "  - a: 1\n  = b\n  + c: 3\n  ~ d: 4 -> 5"
    );
    assert_eq!(
        plain_text(&compare_snapshot_maps(&left, &Value::Int(1))),
        "  ~ {\"a\":1,\"b\":2,\"d\":4} -> 1"
    );
    let a = make_run_record("a", 12, Value::Null, Value::Null);
    let b = make_run_record("b", 10, Value::Null, Value::Null);
    let faster = compare_performance(&a, &b);
    assert_eq!(plain_text(&faster), "  ✔ 12 -> 10 (2ms faster)");
    assert_eq!(faster[0][1].tone, Tone::Green);
}

#[test]
fn snapshots_are_shown() {
    assert_eq!(plain_text(&print_snapshot(&dict(&[]))), "  <none>");
    assert_eq!(plain_text(&print_snapshot(&Value::List(vec![]))), "  <none>");
    assert_eq!(
        plain_text(&print_snapshot(&dict(&[("key", text("v"))]))),
        "  key                  \"v\""
    );
    assert_eq!(
        plain_text(&print_snapshot(&Value::Table(vec![Value::Int(1), Value::Null]))),
        "  - 1\n  - null"
    );
    assert_eq!(plain_text(&print_snapshot(&text("x"))), "  \"x\"");
    assert_eq!(format_value(&Value::Bool(true)), "true");
}

#[test]
fn runs_are_summarised() {
    let mut record = make_run_record(ID, 5, dict(&[]), Value::Null);
    record.metadata.ancestor_run_id = Some(0x0a1b2c3d_0000_4000_8000_000000000002);
    record.metadata.error_message = Some("oh".to_string());
    record.metadata.status = RunStatus::Failed;
    let (rows, below) = print_run_summary(&record);
    let shown: Vec<(String, String)> =
        rows.iter().map(|r| (r.key.clone(), r.value.text.clone())).collect();
    let expected = [
        ("Run ID", ID),
        ("Pipeline", "demo"),
        ("Status", "Failure"),
        ("Duration", "5ms"),
        ("Nodes", "0"),
        ("Started", "2023-11-14T22:13:20+00:00"),
        ("Ancestor", OTHER),
        ("Error", "oh"),
    ];
    assert_eq!(shown.len(), expected.len());
    for (i, (k, v)) in expected.iter().enumerate() {
        assert_eq!((shown[i].0.as_str(), shown[i].1.as_str()), (*k, *v));
    }
    assert_eq!(rows[2].value.tone, Tone::RedBold);
    assert_eq!(
        plain_text(&below),
        "\nINPUTS\n  <none>\n\nOUTPUTS\n  null\n\nCONFIG SNAPSHOT\nname: demo\nnodes: []"
    );
    let raw = raw_run(&make_run_record("r", 1, Value::Null, Value::Null));
    assert!(raw.starts_with("{\n  \"metadata\": {\n    \"run_id\": \"r\","));
}

#[test]
fn runs_are_looked_up() {
    let mut store = InMemoryStore::new();
    store.put_run(make_run_record(ID, 5, dict(&[("x", Value::Int(1))]), Value::Null)).unwrap();

    assert_eq!(validate_run_id(ID).unwrap(), 0x0a1b2c3d_0000_4000_8000_000000000001);
    assert_eq!(
        validate_run_id("nope").unwrap_err().line(),
        "[ERROR][CLI] validation error: invalid run id format: nope"
    );
    assert_eq!(get_run(&store, ID).unwrap().metadata.run_id, ID);
    assert_eq!(
        get_run(&store, OTHER).unwrap_err().message(),
        format!("run not found: {}", OTHER)
    );
    assert!(matches!(show_command(&store, ID, true), Ok(Shown::Raw(_))));
    assert!(matches!(show_command(&store, ID, false), Ok(Shown::Summary(_))));
    assert!(matches!(show_command(&store, "x", false), Err(CliError::Validation(_))));
    assert!(diff_command(&store, ID, ID).is_ok());
    assert!(matches!(diff_command(&store, ID, OTHER), Err(CliError::RunNotFound(_))));
    let third = "00000000-0000-4000-8000-0000000000ff";
    match diff_command(&store, OTHER, third) {
        Err(CliError::RunNotFound(id)) => assert_eq!(id, OTHER),
        _ => unreachable!(),
    }
    assert!(matches!(diff_command(&store, OTHER, "x"), Err(CliError::Validation(_))));

    let again = rerun_command(&store, ID).unwrap();
    assert_eq!(again.pipeline.name, "demo");
    assert_eq!(again.inputs.get("x"), Some(&Value::Int(1)));
    assert_eq!(again.ancestor, 0x0a1b2c3d_0000_4000_8000_000000000001);

    store.put_entry(OTHER, Value::Int(3)).unwrap();
    assert!(matches!(get_run(&store, OTHER), Err(CliError::Store(_))));
}

#[test]
fn inputs_are_read() {
    let m = parse_inputs("{\"value\": 41, \"value\": 42, \"t\": \"x\"}").unwrap();
    assert_eq!(m.len(), 2);
    assert_eq!(m.get("value"), Some(&Value::Int(42)));
    for bad in ["[1]", "{", "3"] {
        assert_eq!(
            parse_inputs(bad).unwrap_err().message(),
            "execution error: failed to parse JSON input file"
        );
    }
    assert!(load_inputs(None).unwrap().is_empty());
    assert!(load_inputs(Some("{}")).unwrap().is_empty());
    assert!(extract_inputs(Value::Null).unwrap().is_empty());
    assert_eq!(extract_inputs(dict(&[("a", Value::Null)])).unwrap().len(), 1);
    assert_eq!(
        extract_inputs(Value::Int(3)).unwrap_err().message(),
        "validation error: stored inputs are not a map or null: 3"
    );
}

#[test]
fn failed_runs_are_errors() {
    let now = Timestamp::new(0, 0).unwrap();
    let mut record = make_run_record("r", 1, Value::Null, Value::Null);
    assert!(run_outcome(record.clone()).is_ok());
    record.metadata.status = RunStatus::Failed;
    assert_eq!(
        run_outcome(record.clone()).unwrap_err().message(),
        "execution failure: pipeline execution failed"
    );
    record.nodes.push(NodeRecord {
        name: "n".to_string(),
        engine: "uiua".to_string(),
        code: String::new(),
        inputs: Value::Null,
        output: None,
        status: NodeStatus::Failed,
        started_at: now,
        ended_at: now,
        error: Some("boom".to_string()),
    });
    assert_eq!(run_outcome(record).unwrap_err().message(), "execution failure: boom");
}

#[test]
fn files_and_directories_are_chosen() {
    assert_eq!(choose_target(Some(("d", true)), false, false, false, false), Ok(Target::Given));
    assert_eq!(choose_target(None, false, false, true, false), Ok(Target::Current));
    assert_eq!(choose_target(None, true, true, false, false), Ok(Target::Current));
    assert_eq!(choose_target(None, true, false, false, false), Ok(Target::Alone));
    assert_eq!(
        choose_target(Some(("d", false)), true, true, true, true).unwrap_err(),
        "[ERROR][Orchestrator] Provided path 'd' is not a valid directory. Suggestion: ensure the path exists or omit it to auto-discover."
    );
    assert!(choose_target(None, false, false, false, false).is_err());

    assert!(matches!(
        locate_pipeline_config("r", Some(("c", true)), [false; 4]),
        Ok(ConfigFile::Given)
    ));
    assert_eq!(
        locate_pipeline_config("r", Some(("c", false)), [true; 4]).unwrap_err().message(),
        "validation error: config file not found: c"
    );
    match locate_pipeline_config("r", None, [false, true, false, true]) {
        Ok(ConfigFile::Named(n)) => assert_eq!(n, "pipeline.yml"),
        _ => unreachable!(),
    }
    assert_eq!(
        locate_pipeline_config("r", None, [false; 4]).unwrap_err().message(),
        "validation error: pipeline config not found in r. expected one of: pipeline.yaml, pipeline.yml, manifold.yaml, manifold.yml"
    );
    assert_eq!(config_candidates().len(), 4);
    assert_eq!(determine_asset_root(true, true), Some("dist"));
    assert_eq!(determine_asset_root(false, true), Some("public"));
    assert_eq!(determine_asset_root(false, false), None);
    assert_eq!(no_directory("d").message(), "validation error: directory not found: d");
    let boot = boot_lines("a", "u", "r");
    assert_eq!(boot[1], "[INFO][Orchestrator] Application ID : app:a");
    assert_eq!(boot.len(), 7);
}
