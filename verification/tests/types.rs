use manifold::json::{json_of_value, value_of_json};
use manifold::record::{
    run_json, run_of_json, NodeRecord, NodeStatus, RunMetadata, RunRecord, RunStatus, Timestamp,
};
use manifold::strmap::StrMap;
use manifold::value::{Float, Value};

fn text(s: &str) -> Value {
    Value::String(s.to_string())
}

fn float(s: &str) -> Value {
    Value::Float(Float { text: s.to_string() })
}

fn now() -> Timestamp {
    Timestamp::new(1_700_000_000, 123_456_789).unwrap()
}

#[test]
fn value_round_trip_serialize() {
    let mut map = StrMap::new();
    map.insert("key".to_string(), Value::Int(42));
    let source = Value::Dict(map);

    let json = json_of_value(&source);
    let round_trip = value_of_json(&json).unwrap();

    assert_eq!(source, round_trip);
    assert_eq!(json, "{\"key\":42}");
}

#[test]
fn bytes_value_round_trip_serialize() {
    let source = Value::Bytes(b"hello world".to_vec());

    let json = json_of_value(&source);
    let round_trip = value_of_json(&json).unwrap();

    assert_eq!(source, round_trip);
    assert_eq!(round_trip.as_bytes().unwrap(), b"hello world");
}

#[test]
fn run_record_contains_metadata_and_output() {
    let metadata = RunMetadata {
        run_id: "run-1".to_string(),
        pipeline_name: "demo".to_string(),
        status: RunStatus::Completed,
        start_time: now(),
        end_time: now(),
        duration_ms: 27,
        nodes_executed: 1,
        ancestor_run_id: None,
        error_message: None,
    };

    let record = RunRecord {
        metadata,
        nodes: vec![],
        config_snapshot: "{}".to_string(),
        input_snapshot: Value::Null,
        output_snapshot: text("ok"),
    };

    let json = run_json(&record);
    let parsed = run_of_json(&json).unwrap();

    assert_eq!(parsed.metadata.pipeline_name, "demo");
    assert_eq!(parsed.output_snapshot, text("ok"));
}

#[test]
fn a_record_is_read_back_with_all_its_fields() {
    let record = RunRecord {
        metadata: RunMetadata {
            run_id: "run-2".to_string(),
            pipeline_name: "demo".to_string(),
            status: RunStatus::Failed,
            start_time: now(),
            end_time: Timestamp::new(1_700_000_001, 0).unwrap(),
            duration_ms: 876,
            nodes_executed: 1,
            ancestor_run_id: Some(0x0123_4567_89ab_cdef_0123_4567_89ab_cdef),
            error_message: Some("boom".to_string()),
        },
        nodes: vec![NodeRecord {
            name: "a".to_string(),
            engine: "uiua".to_string(),
            code: "+".to_string(),
            inputs: Value::List(vec![text("x"), Value::Int(-5)]),
            output: None,
            status: NodeStatus::Failed,
            started_at: now(),
            ended_at: now(),
            error: Some("boom".to_string()),
        }],
        config_snapshot: "name: demo\n".to_string(),
        input_snapshot: Value::Null,
        output_snapshot: Value::Bool(true),
    };
    let json = run_json(&record);
    assert!(json.contains("\"start_time\":\"2023-11-14T22:13:20.123456789Z\""));
    assert!(json.contains("\"end_time\":\"2023-11-14T22:13:21Z\""));
    assert!(json.contains("\"ancestor_run_id\":\"01234567-89ab-cdef-0123-456789abcdef\""));
    assert!(json.starts_with("{\"metadata\":{\"run_id\":\"run-2\",\"pipeline_name\":\"demo\",\"status\":\"Failed\""));
    assert_eq!(run_of_json(&json).unwrap(), record);
}

#[test]
fn a_record_with_a_missing_field_is_refused() {
    assert!(run_of_json("{\"metadata\":{}}").is_none());
    assert!(run_of_json("[]").is_none());
    assert!(run_of_json("not json").is_none());
}

#[test]
fn plain_forms_come_back() {
    let table = Value::Table(vec![text("a")]);
    assert_eq!(value_of_json(&json_of_value(&table)).unwrap(), Value::List(vec![text("a")]));
    let numbers = Value::List(vec![Value::Int(1), Value::Int(255)]);
    assert_eq!(value_of_json(&json_of_value(&numbers)).unwrap(), Value::Bytes(vec![1, 255]));
    let larger = Value::List(vec![Value::Int(1), Value::Int(256)]);
    assert_eq!(value_of_json(&json_of_value(&larger)).unwrap(), larger);
    let mut map = StrMap::new();
    map.insert("b".to_string(), Value::Null);
    map.insert("a".to_string(), Value::Bool(false));
    let json = json_of_value(&Value::Object(map));
    assert_eq!(json, "{\"a\":false,\"b\":null}");
    assert!(matches!(value_of_json(&json), Some(Value::Dict(_))));
}

#[test]
fn floating_point_numbers_are_kept_by_their_text() {
    assert_eq!(json_of_value(&float("1.5")), "1.5");
    assert_eq!(json_of_value(&float("3")), "3.0");
    assert_eq!(json_of_value(&float("NaN")), "null");
    assert_eq!(json_of_value(&float("inf")), "null");
    assert_eq!(value_of_json("2.25").unwrap(), float("2.25"));
    assert_eq!(value_of_json("18446744073709551615").unwrap(), float("18446744073709552000"));
    assert_eq!(float("0"), float("-0"));
    assert_ne!(float("NaN"), float("NaN"));
}

#[test]
fn values_serve_as_identifiers() {
    assert_eq!(text("vertex").normalize_to_id_string(), "vertex");
    assert_eq!(Value::Int(-42).normalize_to_id_string(), "-42");
    assert_eq!(Value::Bool(true).normalize_to_id_string(), "true");
    assert_eq!(Value::Null.normalize_to_id_string(), "null");
    assert_eq!(Value::Bytes(vec![0, 171]).normalize_to_id_string(), "bytes:00ab");
    assert_eq!(float("1.5").normalize_to_id_string(), "1.5");
    assert_eq!(float("2").normalize_to_id_string(), "2");
    assert_eq!(float("NaN").normalize_to_id_string(), "NaN");
    assert_eq!(
        float("100000000000000000000000").normalize_to_id_string(),
        "99999999999999991611392"
    );
    assert_eq!(Value::List(vec![text("a"), Value::Int(1)]).normalize_to_id_string(), "[\"a\",1]");
}

#[test]
fn values_are_told_apart() {
    assert_eq!(Value::Bool(true).as_bool(), Some(true));
    assert_eq!(Value::Int(1).as_bool(), None);
    assert_eq!(Value::Int(7).as_i64(), Some(7));
    assert_eq!(float("1.5").as_f64().unwrap().text, "1.5");
    assert!(Value::Int(1).as_f64().is_none());
    assert_eq!(text("a").as_str(), Some("a"));
    assert_eq!(text("a").as_bytes(), Some(&b"a"[..]));
    assert_eq!(Value::Null.as_bytes(), None);
    assert_eq!(Value::Table(vec![Value::Null]).as_list().unwrap().len(), 1);
    assert!(Value::List(vec![]).as_table().is_none());
    assert_eq!(Value::Table(vec![Value::Null]).as_table().unwrap().len(), 1);
    assert!(Value::Dict(StrMap::new()).as_map().is_some());
    assert!(Value::Object(StrMap::new()).as_object().is_some());
    assert!(Value::Null.as_object().is_none());
    assert_eq!(Value::default(), Value::Null);
    let v = Value::List(vec![text("a"), Value::Bytes(vec![1])]);
    assert_eq!(v.clone(), v);
}

#[test]
fn instants_have_texts() {
    let t = Timestamp::new(0, 0).unwrap();
    assert_eq!(t.iso(), "1970-01-01T00:00:00Z");
    assert_eq!(t.to_rfc3339(), "1970-01-01T00:00:00+00:00");
    assert_eq!(Timestamp::parse("1970-01-01T01:00:00+01:00"), Some(t));
    assert!(Timestamp::parse("yesterday").is_none());
    assert!(Timestamp::new(253_402_300_799, 999_999_999).is_some());
    assert!(Timestamp::new(0, 2_000_000_000).is_none());
    assert!(Timestamp::new(i64::MAX, 0).is_none());
}
