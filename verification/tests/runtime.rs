use manifold::inspect::{debug_command, Inspection};
use manifold::error::CliError;
use manifold::namespace::InstanceNamespace;
use manifold::runtime::{parse_edge_ref, Runtime};
use manifold::store::{InMemoryStore, Store};
use manifold::value::Value;

fn text(s: &str) -> Value {
    Value::String(s.to_string())
}

#[test]
fn register_hyperedge_and_query_relations() {
    let mut runtime = Runtime::new(InMemoryStore::new());

    runtime
        .register_hyperedge(
            "dependency",
            "edge-1",
            &vec![text("vertex-A"), Value::Int(42), Value::Bool(true)],
        )
        .unwrap();

    let relations = runtime.host_query_vertex_relations("vertex-A").unwrap();
    let rows = relations.as_table().unwrap();
    assert_eq!(rows.len(), 1);
    let row = rows[0].as_map().unwrap();
    assert_eq!(row.get("edge_type"), Some(&text("dependency")));
    assert_eq!(row.get("edge_id"), Some(&text("edge-1")));
    assert_eq!(row.get("target_vertex"), Some(&text("vertex-A")));
    assert_eq!(
        row.get("members"),
        Some(&Value::List(vec![text("vertex-A"), text("42"), text("true")]))
    );

    assert_eq!(runtime.resolve_vertex_id("42"), Some(1));
    assert_eq!(runtime.resolve_vertex_index(2).as_deref(), Some("true"));
    let listed = runtime.query_vertex_relations("42").unwrap();
    assert_eq!(listed.len(), 1);
    assert_eq!(listed[0].0, "0");
}

#[test]
fn edge_references_have_two_parts() {
    assert_eq!(
        parse_edge_ref("edge:t:a:b"),
        Some(("t".to_string(), "a:b".to_string()))
    );
    assert_eq!(parse_edge_ref("edge:t"), None);
    assert_eq!(parse_edge_ref("vertex:t:a"), None);
}

#[test]
fn vertices_are_numbered() {
    let mut runtime = Runtime::new(InMemoryStore::new());
    assert_eq!(runtime.register_vertex_id("a"), 0);
    assert_eq!(runtime.register_vertex_id("b"), 1);
    assert_eq!(runtime.register_vertex_id("a"), 0);
    assert!(runtime.deregister_vertex_id("a"));
    assert!(!runtime.deregister_vertex_id("a"));
    assert_eq!(runtime.resolve_vertex_id("a"), None);
    runtime.register_engine("uiua".to_string());
    runtime.register_engine("uiua".to_string());
    assert_eq!(runtime.engines, vec!["uiua".to_string()]);
}

#[test]
fn runtimes_of_applications_are_apart() {
    let mut one = InstanceNamespace::new(InMemoryStore::new(), "one");
    one.put_entry("k", Value::Int(1)).unwrap();
    let mut runtime = Runtime::new(one);
    runtime.register_hyperedge("t", "1", &vec![text("v")]).unwrap();
    assert_eq!(runtime.store.get_entry("k").unwrap(), Some(Value::Int(1)));
    assert_eq!(runtime.scan_store_prefix("k", 10, 0).unwrap()[0].0, "k");
    let other = Runtime::<InMemoryStore>::new_with_namespace(InMemoryStore::new(), "two");
    assert_eq!(other.store.get_entry("k").unwrap(), None);
    assert_eq!(other.store.namespace_key("k"), "app:two:k");
    assert_eq!(other.store.strip_namespace("app:two:k"), "k");
}

#[test]
fn stored_things_are_inspected() {
    let mut runtime = Runtime::new(InMemoryStore::new());
    match debug_command(&runtime, None, None, 50, 0) {
        Err(CliError::Validation(s)) => {
            assert_eq!(s, "debug requires either --table or --find-relations")
        }
        _ => unreachable!(),
    }
    match debug_command(&runtime, Some("t".to_string()), Some("v".to_string()), 50, 0) {
        Err(CliError::Validation(s)) => {
            assert_eq!(s, "debug accepts only one of --table or --find-relations")
        }
        _ => unreachable!(),
    }
    match debug_command(&runtime, Some("t".to_string()), None, 50, 0) {
        Ok(Inspection::Nothing(s)) => {
            assert_eq!(s, "No table entries found for the requested prefix.")
        }
        _ => unreachable!(),
    }
    match debug_command(&runtime, None, Some("v".to_string()), 50, 0) {
        Ok(Inspection::Nothing(s)) => assert_eq!(s, "No relations found for target_id v."),
        _ => unreachable!(),
    }
    runtime.store.put_entry("table:t:a", Value::Int(1)).unwrap();
    runtime.store.put_entry("table:t:b", text("x")).unwrap();
    runtime.store.put_entry("table:u:c", text("y")).unwrap();
    match debug_command(&runtime, Some("t".to_string()), None, 50, 1) {
        Ok(Inspection::Entries(rows)) => {
            assert_eq!(rows.len(), 1);
            assert_eq!(rows[0].key, "table:t:b");
            assert_eq!(rows[0].value, "\"x\"");
        }
        _ => unreachable!(),
    }
    runtime.register_hyperedge("likes", "1", &vec![text("v"), text("w")]).unwrap();
    match debug_command(&runtime, None, Some("v".to_string()), 50, 0) {
        Ok(Inspection::Relations(rows)) => {
            assert_eq!(rows.len(), 1);
            assert_eq!(rows[0].edge_type, "likes");
            assert_eq!(rows[0].edge_id, "1");
            assert_eq!(rows[0].target, "v");
            assert_eq!(rows[0].members, "v, w");
        }
        _ => unreachable!(),
    }
    runtime
        .store
        .put_entry("vertex_idx:z", Value::List(vec![text("nonsense")]))
        .unwrap();
    match debug_command(&runtime, None, Some("z".to_string()), 50, 0) {
        Ok(Inspection::Relations(rows)) => {
            assert_eq!(rows[0].edge_type, "<unknown>");
            assert_eq!(rows[0].edge_id, "<unknown>");
            assert_eq!(rows[0].target, "z");
            assert_eq!(rows[0].members, "[]");
        }
        _ => unreachable!(),
    }
}
