use manifold::batch::{
    edge_reads, list_runs, plan_delete_edge, plan_put_edge, plan_run, plan_run_with_key,
    scan_prefix, Write,
};
use manifold::record::{run_of_json, RunMetadata, RunRecord, RunStatus, Timestamp};
use manifold::strmap::StrMap;
use manifold::value::Value;
use std::collections::BTreeMap;

type Db = BTreeMap<String, Vec<u8>>;

fn texts(list: &[&str]) -> Vec<String> {
    list.iter().map(|s| s.to_string()).collect()
}

fn write(db: &mut Db, batch: Vec<Write>) {
    for w in batch {
        match w {
            Write::Put(k, v) => {
                db.insert(k, v);
            }
            Write::Delete(k) => {
                db.remove(&k);
            }
        }
    }
}

fn found(db: &Db, keys: &[String]) -> StrMap<Vec<u8>> {
    let mut m = StrMap::new();
    for k in keys {
        if let Some(v) = db.get(k) {
            m.insert(k.clone(), v.clone());
        }
    }
    m
}

fn put_edge(db: &mut Db, edge_type: &str, edge_id: &str, targets: &[&str]) {
    let targets = texts(targets);
    let mut keys = vec![format!("edge:{}:{}", edge_type, edge_id)];
    let own = found(db, &keys);
    keys.extend(edge_reads(edge_type, edge_id, &targets, &own));
    let all = found(db, &keys);
    write(db, plan_put_edge(edge_type, edge_id, &targets, &all));
}

fn delete_edge(db: &mut Db, edge_type: &str, edge_id: &str) {
    let mut keys = vec![format!("edge:{}:{}", edge_type, edge_id)];
    let own = found(db, &keys);
    keys.extend(edge_reads(edge_type, edge_id, &vec![], &own));
    let all = found(db, &keys);
    write(db, plan_delete_edge(edge_type, edge_id, &all));
}

#[test]
fn batches_keep_edges_and_indexes_in_step() {
    let mut db = Db::new();
    put_edge(&mut db, "t", "1", &["a", "b", "a"]);
    put_edge(&mut db, "t", "2", &["b"]);
    assert_eq!(db["edge:t:1"], b"[\"a\",\"b\",\"a\"]".to_vec());
    assert_eq!(db["vertex_idx:a"], b"[\"edge:t:1\"]".to_vec());
    assert_eq!(db["vertex_idx:b"], b"[\"edge:t:1\",\"edge:t:2\"]".to_vec());
    put_edge(&mut db, "t", "1", &["c"]);
    assert!(!db.contains_key("vertex_idx:a"));
    assert_eq!(db["vertex_idx:b"], b"[\"edge:t:2\"]".to_vec());
    assert_eq!(db["vertex_idx:c"], b"[\"edge:t:1\"]".to_vec());
    delete_edge(&mut db, "t", "1");
    assert_eq!(db.keys().cloned().collect::<Vec<_>>(), texts(&["edge:t:2", "vertex_idx:b"]));
    delete_edge(&mut db, "t", "missing");
    db.insert("edge:t:3".to_string(), b"not json".to_vec());
    delete_edge(&mut db, "t", "3");
    assert!(db.contains_key("edge:t:3"));
}

#[test]
fn databases_are_scanned_by_pages() {
    let entries: Vec<(String, Vec<u8>)> = [("a", "1"), ("t:1", "1"), ("t:2", "\"x\""), ("t:3", "3"), ("u", "{")]
        .iter()
        .map(|(k, v)| (k.to_string(), v.as_bytes().to_vec()))
        .collect();
    let keys = |limit: usize, offset: usize| -> Vec<String> {
        scan_prefix(&entries, "t:", limit, offset).unwrap().into_iter().map(|e| e.0).collect()
    };
    assert_eq!(keys(10, 0), texts(&["t:1", "t:2", "t:3"]));
    assert_eq!(keys(1, 1), texts(&["t:2"]));
    assert_eq!(keys(10, 3), texts(&[]));
    assert_eq!(keys(0, 0), texts(&[]));
    assert_eq!(keys(usize::MAX, 2), texts(&["t:3"]));
    assert_eq!(scan_prefix(&entries, "t:2", 5, 0).unwrap()[0].1, Value::String("x".to_string()));
    let fault = scan_prefix(&entries, "", 10, 0).unwrap_err();
    let known = serde_json::from_str::<serde_json::Value>("{").unwrap_err().to_string();
    assert_eq!(fault.message(), format!("serialization failed: {}", known));
    assert_eq!(scan_prefix(&entries, "", 4, 0).unwrap().len(), 4);
}

#[test]
fn runs_are_written_under_both_keys() {
    let now = Timestamp::new(1_700_000_000, 0).unwrap();
    let record = RunRecord {
        metadata: RunMetadata {
            run_id: "atomic-test-run".to_string(),
            pipeline_name: "test".to_string(),
            status: RunStatus::Completed,
            start_time: now,
            end_time: now,
            duration_ms: 5,
            nodes_executed: 1,
            ancestor_run_id: None,
            error_message: None,
        },
        nodes: vec![],
        config_snapshot: "{}".to_string(),
        input_snapshot: Value::Null,
        output_snapshot: Value::String("ok".to_string()),
    };
    let mut db = Db::new();
    write(&mut db, plan_run(&record));
    assert_eq!(db.len(), 2);
    assert_eq!(db["atomic-test-run"], db["run:atomic-test-run"]);
    let back = run_of_json(std::str::from_utf8(&db["atomic-test-run"]).unwrap()).unwrap();
    assert_eq!(back.metadata.run_id, "atomic-test-run");

    write(&mut db, plan_run_with_key("run:again", &record));
    let entries: Vec<(String, Vec<u8>)> = db.into_iter().collect();
    let listed = list_runs(&entries).unwrap();
    assert_eq!(listed.len(), 1);
    assert_eq!(listed[0].run_id, "atomic-test-run");
    assert!(list_runs(&vec![("k".to_string(), b"1".to_vec())]).is_err());
    let known = serde_json::from_str::<serde_json::Value>("[").unwrap_err().to_string();
    let fault = list_runs(&vec![("k".to_string(), b"[".to_vec())]).unwrap_err();
    assert_eq!(fault.message(), format!("serialization failed: {}", known));
    assert!(list_runs(&vec![("run:k".to_string(), b"1".to_vec())]).unwrap().is_empty());
}
