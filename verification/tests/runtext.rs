use manifold::jsontext::read_parts;
use manifold::record::{run_json, run_of_json, NodeStatus, RunRecord, RunStatus};
use manifold::report::raw_run;
use manifold::runtext::run_of_bytes;
use manifold::store::{deserialize_run, StoreError};
use manifold::value::Value;

const TIME: &str = "\"2023-11-14T22:13:20Z\"";

fn metadata(duration: &str, more: &str) -> String {
    format!(
        "{{\"run_id\":\"r\",\"pipeline_name\":\"p\",\"status\":\"Completed\",\"start_time\":{},\
         \"end_time\":{},\"duration_ms\":{},\"nodes_executed\":1{}}}",
        TIME, TIME, duration, more
    )
}

fn node(inputs: &str, more: &str) -> String {
    format!(
        "{{\"name\":\"n\",\"engine\":\"e\",\"code\":\"c\",\"inputs\":{},\"status\":\"Failed\",\
         \"started_at\":{},\"ended_at\":{},\"error\":\"x\"{}}}",
        inputs, TIME, TIME, more
    )
}

fn run(metadata: &str, node: &str, input: &str, more: &str) -> String {
    format!(
        "{{\"metadata\":{},\"nodes\":[{}],\"config_snapshot\":\"s\",\"input_snapshot\":{},\
         \"output_snapshot\":null{}}}",
        metadata, node, input, more
    )
}

fn plain(duration: &str) -> String {
    run(&metadata(duration, ""), &node("null", ""), "null", "")
}

fn nested(levels: usize) -> String {
    format!("{}{}", "[".repeat(levels), "]".repeat(levels))
}

fn duration(text: &str) -> Option<u128> {
    run_of_json(text).map(|r| r.metadata.duration_ms)
}

#[test]
fn durations_are_read_up_to_their_widest() {
    assert_eq!(duration(&plain("0")), Some(0));
    assert_eq!(duration(&plain("18446744073709551615")), Some(u64::MAX as u128));
    assert_eq!(duration(&plain("18446744073709551616")), Some(u64::MAX as u128 + 1));
    assert_eq!(duration(&plain("340282366920938463463374607431768211455")), Some(u128::MAX));
    assert_eq!(duration(&plain(" 18446744073709551616\n")), Some(u64::MAX as u128 + 1));
}

#[test]
fn other_durations_are_refused() {
    for text in [
        "340282366920938463463374607431768211456",
        "018446744073709551616",
        "18446744073709551616.0",
        "1e30",
        "5.0",
        "-1",
        "-18446744073709551616",
        "\"18446744073709551616\"",
        "null",
        "[18446744073709551616]",
    ] {
        assert_eq!(duration(&plain(text)), None);
    }
}

#[test]
fn a_wide_duration_leaves_the_rest_as_it_is() {
    let narrow = run_of_json(&run(&metadata("7", ""), &node("[1,2]", ""), "{\"a\":1}", "")).unwrap();
    let wide = run_of_json(&run(
        &metadata("18446744073709551623", ""),
        &node("[1,2]", ""),
        "{\"a\":1}",
        "",
    ))
    .unwrap();
    assert_eq!(wide.metadata.duration_ms, 18446744073709551623);
    let mut again = wide.clone();
    again.metadata.duration_ms = 7;
    assert_eq!(again, narrow);
    let expected = raw_run(&narrow).replace("\"duration_ms\": 7", "\"duration_ms\": 18446744073709551623");
    assert_eq!(raw_run(&wide), expected);
    assert_eq!(run_of_json(&raw_run(&wide)).unwrap(), wide);
}

#[test]
fn a_repeated_field_is_refused() {
    let meta = metadata("1", "");
    let one = node("null", "");
    assert!(run_of_json(&run(&meta, &one, "null", "")).is_some());
    assert!(run_of_json(&run(&meta, &one, "null", ",\"config_snapshot\":\"s\"")).is_none());
    assert!(run_of_json(&run(&meta, &one, "null", &format!(",\"metadata\":{}", meta))).is_none());
    assert!(run_of_json(&run(&metadata("1", ",\"run_id\":\"r\""), &one, "null", "")).is_none());
    assert!(run_of_json(&run(&metadata("1", ",\"duration_ms\":1"), &one, "null", "")).is_none());
    assert!(run_of_json(&run(&meta, &node("null", ",\"error\":null"), "null", "")).is_none());
    assert!(run_of_json(&run(&meta, &one, "null", ",\"\\u006eodes\":[]")).is_none());
}

#[test]
fn the_last_of_repeated_members_of_a_value_counts() {
    let text = run(&metadata("1", ""), &node("{\"k\":1,\"k\":2}", ""), "{\"a\":1,\"a\":2}", "");
    let record = run_of_json(&text).unwrap();
    assert_eq!(record.input_snapshot.as_map().unwrap().get("a"), Some(&Value::Int(2)));
    assert_eq!(record.nodes[0].inputs.as_map().unwrap().get("k"), Some(&Value::Int(2)));
}

#[test]
fn what_is_no_field_is_not_looked_at() {
    let meta = metadata("1", ",\"mood\":1,\"mood\":2");
    let deep = nested(1000);
    let more = format!(",\"extra\":{},\"far\":1e999", deep);
    let text = run(&meta, &node("null", &more), "null", &more);
    let record = run_of_json(&text).unwrap();
    assert_eq!(record, run_of_json(&plain("1")).unwrap());
    assert_eq!(record.metadata.status, RunStatus::Completed);
    assert_eq!(record.nodes[0].status, NodeStatus::Failed);
    assert!(run_of_json(&run(&meta, &node("null", ",\"extra\":[1,]"), "null", "")).is_none());
}

#[test]
fn values_may_nest_as_deep_as_the_parser_goes() {
    let beside = ",\"mood\":1,\"mood\":2";
    for more in ["", beside] {
        let meta = metadata("1", more);
        assert!(run_of_json(&run(&meta, &node("null", ""), &nested(126), "")).is_some());
        assert!(run_of_json(&run(&meta, &node("null", ""), &nested(127), "")).is_none());
        assert!(run_of_json(&run(&meta, &node(&nested(124), ""), "null", "")).is_some());
        assert!(run_of_json(&run(&meta, &node(&nested(125), ""), "null", "")).is_none());
    }
}

#[test]
fn a_status_is_a_name_or_an_object_with_one_member() {
    let with = |status: &str| {
        plain("18446744073709551616").replace("\"status\":\"Completed\"", &format!("\"status\":{}", status))
    };
    assert!(run_of_json(&with("{\"Completed\":null}")).is_some());
    assert!(run_of_json(&with("{\"Completed\":null,\"Completed\":null}")).is_none());
    assert!(run_of_json(&with("{}")).is_none());
    assert!(run_of_json(&with("\"Unknown\"")).is_none());
}

#[test]
fn records_may_be_arrays_of_their_fields() {
    let meta = format!("[\"r\",\"p\",\"Completed\",{},{},18446744073709551616,1,null,null]", TIME, TIME);
    let text = format!("[ {} , [{}] , \"s\" , null , null ]", meta, node("null", ""));
    let record = run_of_json(&text).unwrap();
    assert_eq!(record.metadata.duration_ms, u64::MAX as u128 + 1);
    assert_eq!(record.metadata.pipeline_name, "p");
    assert_eq!(record.nodes.len(), 1);
    let short = text.replace(" , null ]", " ]");
    assert!(run_of_json(&short).is_none());
}

#[test]
fn stored_records_are_read_the_same_way() {
    let wide = plain("18446744073709551616");
    let record: RunRecord = deserialize_run(wide.as_bytes()).unwrap();
    assert_eq!(record.metadata.duration_ms, u64::MAX as u128 + 1);
    assert_eq!(run_of_bytes(wide.as_bytes()), Some(record));
    let twice = run(&metadata("1", ""), &node("null", ""), "null", ",\"nodes\":[]");
    match deserialize_run(twice.as_bytes()) {
        Err(StoreError::Serialization(message)) => assert_eq!(message, "not a record of a run"),
        _ => unreachable!(),
    }
    match deserialize_run(b"{") {
        Err(StoreError::Serialization(message)) => assert!(message.contains("EOF")),
        _ => unreachable!(),
    }
    let narrow = run_of_json(&plain("5")).unwrap();
    assert_eq!(deserialize_run(run_json(&narrow).as_bytes()).unwrap(), narrow);
}

#[test]
fn parts_stand_as_in_the_text() {
    let (named, items) = read_parts(b" { \"a\" : [1, {\"x\":2}] ,\"\\u0061\":\"}\" } ").unwrap();
    assert!(named);
    assert_eq!(
        items,
        vec![
            ("a".to_string(), b"[1, {\"x\":2}]".to_vec()),
            ("a".to_string(), b"\"}\"".to_vec()),
        ]
    );
    let (named, items) = read_parts(b"[\n-1.5e3\t,null]").unwrap();
    assert!(!named);
    assert_eq!(items[0].1, b"-1.5e3".to_vec());
    assert_eq!(items[1].1, b"null".to_vec());
    assert_eq!(read_parts(b"{ }").unwrap().1.len(), 0);
    assert_eq!(read_parts(b"[]").unwrap().1.len(), 0);
    for text in ["", "1", "\"a\"", "{", "[", "[1,]", "[,1]", "{\"a\":1,}", "{\"a\"}", "{\"a\" 1}",
        "{1:2}", "[1 2]", "[1]]", "{\"a\":1} x", "[1}", "{\"a\":tru}"]
    {
        assert!(read_parts(text.as_bytes()).is_none());
    }
}
