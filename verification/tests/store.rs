use manifold::ids::IdMapper;
use manifold::namespace::InstanceNamespace;
use manifold::record::{RunMetadata, RunRecord, RunStatus, Timestamp};
use manifold::store::{InMemoryStore, Store, StoreError};
use manifold::value::Value;

fn texts(list: &[&str]) -> Vec<String> {
    list.iter().map(|s| s.to_string()).collect()
}

fn record(run_id: &str) -> RunRecord {
    let now = Timestamp::new(1_700_000_000, 5_000).unwrap();
    RunRecord {
        metadata: RunMetadata {
            run_id: run_id.to_string(),
            pipeline_name: "test".to_string(),
            status: RunStatus::Completed,
            start_time: now,
            end_time: now,
            duration_ms: 5,
            nodes_executed: 1,
            ancestor_run_id: None,
            error_message: None,
        },
        nodes: vec![],
        config_snapshot: "{}".to_string(),
        input_snapshot: Value::Null,
        output_snapshot: Value::String("ok".to_string()),
    }
}

#[test]
fn in_memory_store_puts_and_gets_run_records() {
    let mut store = InMemoryStore::new();

    store.put_run(record("test-run")).unwrap();
    let loaded = store.get_run("test-run").unwrap().expect("record must exist");
    assert_eq!(loaded.metadata.run_id, "test-run");
    assert_eq!(loaded.output_snapshot, Value::String("ok".to_string()));

    let listed = store.list_runs().unwrap();
    assert_eq!(listed.len(), 1);
    assert_eq!(listed[0].run_id, "test-run");
}

#[test]
fn in_memory_store_edge_indexing_and_scan_prefix() {
    let mut store = InMemoryStore::new();
    store.put_edge("friendship", "edge-1", &texts(&["alice", "bob"])).unwrap();
    store.put_edge("friendship", "edge-2", &texts(&["bob", "carol"])).unwrap();

    let alice_edges = store.get_vertex_edges("alice").unwrap();
    assert_eq!(alice_edges, vec!["edge:friendship:edge-1".to_string()]);

    let bob_edges = store.get_vertex_edges("bob").unwrap();
    assert_eq!(bob_edges.len(), 2);
    assert!(bob_edges.contains(&"edge:friendship:edge-1".to_string()));
    assert!(bob_edges.contains(&"edge:friendship:edge-2".to_string()));

    let scan_results = store.scan_prefix("edge:friendship:", 10, 0).unwrap();
    assert_eq!(scan_results.len(), 2);
    assert!(scan_results.iter().any(|(k, _)| k == "edge:friendship:edge-1"));
    assert!(scan_results.iter().any(|(k, _)| k == "edge:friendship:edge-2"));
}

#[test]
fn indexes_follow_changed_and_removed_edges() {
    let mut store = InMemoryStore::new();
    store.put_edge("t", "1", &texts(&["a", "b", "a"])).unwrap();
    store.put_edge("t", "2", &texts(&["b"])).unwrap();
    assert_eq!(store.get_edge_targets("t", "1").unwrap().unwrap(), texts(&["a", "b", "a"]));
    assert_eq!(store.get_vertex_edges("a").unwrap(), texts(&["edge:t:1"]));
    store.put_edge("t", "1", &texts(&["c"])).unwrap();
    assert!(store.get_vertex_edges("a").unwrap().is_empty());
    assert_eq!(store.get_vertex_edges("b").unwrap(), texts(&["edge:t:2"]));
    assert_eq!(store.get_vertex_edges("c").unwrap(), texts(&["edge:t:1"]));
    store.delete_edge("t", "1").unwrap();
    assert!(store.get_edge_targets("t", "1").unwrap().is_none());
    assert!(store.get_vertex_edges("c").unwrap().is_empty());
    store.delete_edge("t", "missing").unwrap();
    store.put_edge("t", "2", &texts(&[])).unwrap();
    assert_eq!(store.get_edge_targets("t", "2").unwrap().unwrap(), texts(&[]));
    assert!(store.get_vertex_edges("b").unwrap().is_empty());
}

#[test]
fn entries_are_stored_and_removed() {
    let mut store = InMemoryStore::default();
    assert!(store.get_entry("k").unwrap().is_none());
    store.put_entry("k", Value::Int(1)).unwrap();
    store.put_entry("k", Value::Table(vec![Value::Null])).unwrap();
    assert_eq!(store.get_entry("k").unwrap(), Some(Value::List(vec![Value::Null])));
    store.delete_entry("k").unwrap();
    assert!(store.get_entry("k").unwrap().is_none());
    store.delete_entry("k").unwrap();
}

#[test]
fn scans_are_paged_in_key_order() {
    let mut store = InMemoryStore::new();
    for key in ["p:c", "p:a", "q", "p:b", "o"] {
        store.put_entry(key, Value::String(key.to_string())).unwrap();
    }
    let keys = |limit: usize, offset: usize| -> Vec<String> {
        store.scan_prefix("p:", limit, offset).unwrap().into_iter().map(|(k, _)| k).collect()
    };
    assert_eq!(keys(10, 0), texts(&["p:a", "p:b", "p:c"]));
    assert_eq!(keys(2, 0), texts(&["p:a", "p:b"]));
    assert_eq!(keys(2, 1), texts(&["p:b", "p:c"]));
    assert_eq!(keys(2, 3), texts(&[]));
    assert_eq!(keys(0, 0), texts(&[]));
}

#[test]
fn listing_runs_fails_where_something_else_is_stored() {
    let mut store = InMemoryStore::new();
    store.put_run(record("r")).unwrap();
    store.put_entry("x", Value::Int(1)).unwrap();
    let error = store.list_runs().unwrap_err();
    assert!(matches!(error, StoreError::Serialization(_)));
    assert!(error.message().starts_with("serialization failed: "));
    assert!(matches!(store.get_run("x"), Err(StoreError::Serialization(_))));
    assert!(store.get_run("y").unwrap().is_none());
    assert_eq!(StoreError::Storage("disk".to_string()).message(), "storage failed: disk");
}

#[test]
fn deep_values_cannot_be_read_back() {
    let mut store = InMemoryStore::new();
    let mut shallow = Value::String("x".to_string());
    for _ in 0..127 {
        shallow = Value::List(vec![shallow]);
    }
    store.put_entry("shallow", shallow.clone()).unwrap();
    assert_eq!(store.get_entry("shallow").unwrap(), Some(shallow.clone()));
    store.put_entry("deep", Value::List(vec![shallow])).unwrap();
    assert!(matches!(store.get_entry("deep"), Err(StoreError::Serialization(_))));
}

#[test]
fn applications_do_not_see_each_other() {
    let mut first = InstanceNamespace::new(InMemoryStore::new(), "one");
    first.put_entry("k", Value::Int(1)).unwrap();
    first.put_edge("t", "1", &texts(&["a"])).unwrap();
    first.put_run(record("r")).unwrap();
    assert_eq!(first.get_edge_targets("t", "1").unwrap().unwrap(), texts(&["a"]));
    assert_eq!(first.get_vertex_edges("a").unwrap(), texts(&["edge:app:one:t:1"]));
    assert_eq!(first.scan_prefix("", 10, 0).unwrap(), vec![("k".to_string(), Value::Int(1))]);
    let second = InstanceNamespace::new(first.inner, "two");
    assert!(second.get_entry("k").unwrap().is_none());
    assert!(second.get_edge_targets("t", "1").unwrap().is_none());
    assert!(second.get_run("r").unwrap().is_some());
    let inner = second.inner;
    assert_eq!(inner.get_entry("app:one:k").unwrap(), Some(Value::Int(1)));
    assert_eq!(inner.get_edge_targets("app:one:t", "1").unwrap().unwrap(), texts(&["app:one:a"]));
}

#[test]
fn identifiers_get_consecutive_numbers() {
    let mut ids = IdMapper::default();
    assert_eq!(ids.register_id("a"), 0);
    assert_eq!(ids.register_id("b"), 1);
    assert_eq!(ids.register_id("a"), 0);
    assert_eq!(ids.register_id("c"), 2);
    assert_eq!(ids.resolve_id("b"), Some(1));
    assert_eq!(ids.resolve_index(2), Some("c"));
    assert_eq!(ids.resolve_index(3), None);
    assert!(ids.remove_id("a"));
    assert!(!ids.remove_id("a"));
    assert_eq!(ids.resolve_id("b"), Some(0));
    assert_eq!(ids.resolve_index(1), Some("c"));
    assert_eq!(ids.register_id("a"), 2);
}
