use manifold::guest::{
    after_alloc, asset_reply, asset_request, bytes_from_input, call_free, compile_guest, host_log,
    is_fuel_error, map_wasm_execution_error, memory_bytes, metrics_line, number_output,
    parse_i32_input, plan_call, plan_frees, read_output, store_get, store_get_reply,
    store_get_request, store_get_without_store, store_set, store_set_without_store, timeout_line,
    timeout_message, validate_memory_bounds, warn_line, wasm_fuel_limit, wasm_timeout_ms,
    AssetAnswer, CallStep, Exports, FreeCall, GuestCall, GuestReply, GuestSession, LogReply,
};
use manifold::pdk::{read_step, set_outcome, ReadStep, FIRST_BUFFER_SIZE};
use manifold::store::{deserialize_run, InMemoryStore, Store, StoreError};
use manifold::value::{Float, Value};
use wasmtime::{Config, Engine, Instance, Module};

fn text(s: &str) -> Value {
    Value::String(s.to_string())
}

/// Runs a guest as the host does, without the host functions.
fn run_guest(code: &str, input: &Value) -> Result<Value, String> {
    let bytes = compile_guest(code)?;
    let mut config = Config::new();
    config.static_memory_maximum_size(0);
    config.dynamic_memory_guard_size(0);
    config.dynamic_memory_reserved_for_growth(0);
    let engine = Engine::new(&config).unwrap();
    let module = Module::new(&engine, &bytes).unwrap();
    let mut store = wasmtime::Store::new(&engine, ());
    let instance = Instance::new(&mut store, &module, &[]).unwrap();
    let number = instance.get_typed_func::<i32, i32>(&mut store, "run").ok();
    let buffer = instance.get_typed_func::<(i32, i32), (i32, i32)>(&mut store, "run").ok();
    let alloc = instance.get_typed_func::<i32, i32>(&mut store, "alloc").ok();
    let free_two = instance.get_typed_func::<(i32, i32), ()>(&mut store, "free").ok();
    let free_one = instance.get_typed_func::<i32, ()>(&mut store, "free").ok();
    let memory = instance.get_memory(&mut store, "memory");
    let exports = Exports {
        numeric_run: number.is_some(),
        buffer_run: buffer.is_some(),
        alloc: alloc.is_some(),
        free_two: free_two.is_some(),
        free_one: free_one.is_some(),
        memory: memory.is_some(),
    };
    let (mut session, mut step) = GuestSession::begin(input, exports);
    loop {
        let reply = match step {
            CallStep::RunNumber(n) => {
                GuestReply::Number(number.as_ref().unwrap().call(&mut store, n).unwrap())
            }
            CallStep::Alloc(len) => {
                let ptr = alloc.as_ref().unwrap().call(&mut store, len).unwrap();
                GuestReply::Address(ptr, memory.unwrap().data(&store).len())
            }
            CallStep::WriteAndRun { start, bytes, ptr, len } => {
                let data = memory.unwrap().data_mut(&mut store);
                data[start..start + bytes.len()].copy_from_slice(&bytes);
                let (ptr, len) = buffer.as_ref().unwrap().call(&mut store, (ptr, len)).unwrap();
                GuestReply::Output(ptr, len, memory.as_ref().unwrap().data(&store))
            }
            CallStep::FreeTwo(ptr, len) => {
                free_two.as_ref().unwrap().call(&mut store, (ptr, len)).unwrap();
                GuestReply::Freed
            }
            CallStep::FreeOne(ptr) => {
                free_one.as_ref().unwrap().call(&mut store, ptr).unwrap();
                GuestReply::Freed
            }
            CallStep::Finish(output) => return Ok(output),
            CallStep::Fail { message, .. } => return Err(message),
        };
        (session, step) = session.resume(reply);
    }
}

#[test]
fn wasm_engine_executes_run_function() {
    let wat = r#"(module
            (func $run (export "run") (param i32) (result i32)
                local.get 0
                i32.const 1
                i32.add)
        )"#;
    assert_eq!(run_guest(wat, &Value::Int(41)).unwrap(), Value::Int(42));
}

#[test]
fn wasm_engine_memory_roundtrip_string() {
    let wat = r#"(module
            (memory (export "memory") 1)
            (global $heap (mut i32) (i32.const 1024))
            (func (export "alloc") (param $n i32) (result i32)
                global.get $heap
                global.get $heap
                local.get $n
                i32.add
                global.set $heap)
            (func (export "run") (param $ptr i32) (param $len i32) (result i32 i32)
                local.get 0
                local.get 1)
        )"#;
    assert_eq!(run_guest(wat, &text("hello")).unwrap(), text("hello"));
    assert_eq!(
        run_guest(wat, &Value::Bytes(vec![0xff, 0xfe])).unwrap(),
        Value::Bytes(vec![0xff, 0xfe])
    );
    assert_eq!(run_guest(wat, &Value::Bytes(vec![])).unwrap(), Value::Bytes(vec![]));
}

#[test]
fn wasm_engine_memory_roundtrip_string_with_free() {
    let wat = r#"(module
            (memory (export "memory") 1)
            (global $heap (mut i32) (i32.const 1024))
            (func (export "alloc") (param $n i32) (result i32)
                global.get $heap
                global.get $heap
                local.get $n
                i32.add
                global.set $heap)
            (func (export "free") (param $ptr i32) (param $len i32)
                local.get 0
                drop
                local.get 1
                drop)
            (func (export "run") (param $ptr i32) (param $len i32) (result i32 i32)
                local.get 0
                local.get 1)
        )"#;
    assert_eq!(run_guest(wat, &text("hello")).unwrap(), text("hello"));
}

#[test]
fn wasm_engine_maps_fuel_exhaustion_error() {
    let mapped = map_wasm_execution_error("all fuel consumed".to_string());
    assert_eq!(mapped, "WASM Execution Timeout / Fuel Exhausted");
    assert_eq!(map_wasm_execution_error("unreachable".to_string()), "unreachable");
    assert!(is_fuel_error("wasm trap: out of fuel"));
}

#[test]
fn guests_that_cannot_be_called_are_told() {
    assert_eq!(compile_guest("(module").unwrap_err(), "failed to parse WAT code");
    assert_eq!(compile_guest("(module)").unwrap(), b"\0asm\x01\0\0\0".to_vec());
    assert_eq!(
        run_guest("(module)", &Value::Null).unwrap_err(),
        "wasm module does not export a supported run signature"
    );
    let no_memory = r#"(module
        (func (export "alloc") (param i32) (result i32) i32.const 0)
        (func (export "run") (param i32 i32) (result i32 i32) local.get 0 local.get 1))"#;
    assert_eq!(
        run_guest(no_memory, &text("x")).unwrap_err(),
        "wasm module missing exported memory for alloc/run interop"
    );
    assert_eq!(after_alloc(10, -1, 1).unwrap_err(), "wasm alloc returned negative pointer");
    assert!(after_alloc(10, 8, 4).is_err());
    assert_eq!(after_alloc(10, 8, 2).unwrap(), (8, 10));
}

const BUFFERS: Exports = Exports {
    numeric_run: false,
    buffer_run: true,
    alloc: true,
    free_two: true,
    free_one: true,
    memory: true,
};

#[test]
fn calls_go_step_by_step() {
    let memory = b"........out.....".to_vec();
    let (session, step) = GuestSession::begin(&text("in"), BUFFERS);
    assert!(matches!(step, CallStep::Alloc(2)));
    let (session, step) = session.resume(GuestReply::Address(4, 16));
    match step {
        CallStep::WriteAndRun { start, bytes, ptr, len } => {
            assert_eq!((start, ptr, len), (4, 4, 2));
            assert_eq!(bytes, b"in".to_vec());
        }
        _ => unreachable!(),
    }
    let (session, step) = session.resume(GuestReply::Output(8, 3, &memory));
    assert!(matches!(step, CallStep::FreeTwo(8, 3)));
    let (session, step) = session.resume(GuestReply::Freed);
    assert!(matches!(step, CallStep::FreeTwo(4, 2)));
    let (session, step) = session.resume(GuestReply::Freed);
    match step {
        CallStep::Finish(output) => assert_eq!(output, text("out")),
        _ => unreachable!(),
    }
    let (_, step) = session.resume(GuestReply::Freed);
    match step {
        CallStep::Fail { message, metered } => {
            assert_eq!(message, "guest replied out of turn");
            assert!(!metered);
        }
        _ => unreachable!(),
    }
}

fn failure(step: CallStep) -> (String, bool) {
    match step {
        CallStep::Fail { message, metered } => (message, metered),
        _ => unreachable!(),
    }
}

#[test]
fn calls_fail_where_the_guest_does() {
    let none = Exports { buffer_run: false, ..BUFFERS };
    assert_eq!(
        failure(GuestSession::begin(&text("x"), none).1),
        ("wasm module does not export a supported run signature".to_string(), true)
    );
    let numeric = Exports { numeric_run: true, ..BUFFERS };
    assert_eq!(
        failure(GuestSession::begin(&text("x"), numeric).1),
        ("wasm numeric run requires a string that parses as an integer".to_string(), false)
    );
    let (session, step) = GuestSession::begin(&Value::Int(1), numeric);
    assert!(matches!(step, CallStep::RunNumber(1)));
    assert_eq!(
        failure(session.resume(GuestReply::Failed("all fuel consumed".to_string())).1),
        ("WASM Execution Timeout / Fuel Exhausted".to_string(), false)
    );
    let (session, _) = GuestSession::begin(&text("in"), BUFFERS);
    assert_eq!(
        failure(session.resume(GuestReply::Address(-4, 16)).1).0,
        "wasm alloc returned negative pointer"
    );
    let memory = [0u8; 16];
    let one = Exports { free_two: false, ..BUFFERS };
    let (session, _) = GuestSession::begin(&text("in"), one);
    let (session, _) = session.resume(GuestReply::Address(4, 16));
    let (session, step) = session.resume(GuestReply::Output(4, 2, &memory));
    assert!(matches!(step, CallStep::FreeOne(4)));
    assert_eq!(
        failure(session.resume(GuestReply::Failed("trap".to_string())).1),
        ("failed to free shared wasm buffer".to_string(), false)
    );
    let skip = Exports { free_two: false, free_one: false, ..BUFFERS };
    let (session, _) = GuestSession::begin(&text("in"), skip);
    let (session, _) = session.resume(GuestReply::Address(4, 16));
    assert!(matches!(session.resume(GuestReply::Output(0, 0, &memory)).1, CallStep::Finish(_)));
    assert!(matches!(plan_call(&Value::Int(7), &numeric), Ok(GuestCall::Number(7))));
    assert_eq!(number_output(-3), Value::Int(-3));
    assert_eq!(call_free(&BUFFERS), FreeCall::Two);
}

/// Reads a value as a guest does, from a host with that store.
fn guest_get(store: &InMemoryStore, key: &str) -> (Option<Vec<u8>>, usize) {
    let mut size = FIRST_BUFFER_SIZE;
    let mut tries = 0;
    loop {
        tries += 1;
        let mut memory = key.as_bytes().to_vec();
        let start = memory.len();
        memory.resize(start + size, 0);
        let reply =
            store_get(Some(&memory), 0, start as i32, start as i32, size as i32, store);
        memory[reply.start..reply.start + reply.bytes.len()].copy_from_slice(&reply.bytes);
        match read_step(size, reply.code) {
            ReadStep::Ready(len) => return (Some(memory[start..start + len].to_vec()), tries),
            ReadStep::Retry(needed) => size = needed,
            _ => return (None, tries),
        }
    }
}

#[test]
fn guests_get_what_they_have_set() {
    for (len, tries) in [(1, 1), (4096, 1), (4097, 2), (20_000, 2)] {
        let mut store = InMemoryStore::new();
        let value: Vec<u8> = (0..len).map(|i| b'0' + (i % 10) as u8).collect();
        let mut memory = b"key".to_vec();
        memory.extend_from_slice(&value);
        let set = store_set(Some(&memory), 0, 3, 3, len, &mut store);
        assert!(set_outcome(set.code).is_ok());
        store.put_entry("other", Value::Null).unwrap();
        assert_eq!(guest_get(&store, "key"), (Some(value), tries));
    }
    assert_eq!(guest_get(&InMemoryStore::new(), "key"), (None, 1));
}

#[test]
fn failures_of_the_store_are_told() {
    let memory = b"key.............".to_vec();
    let q = store_get_request(Some(&memory), 0, 3, 8, 8).unwrap();
    let reply = store_get_reply(&q, Err(StoreError::Storage("disk".to_string())));
    assert_eq!(reply.code, -4);
    assert!(reply.bytes.is_empty());
    assert_eq!(
        reply.warning.as_deref(),
        Some("store_get: host storage error: storage failed: disk")
    );
    let known = serde_json::from_str::<serde_json::Value>("{\"a\"").unwrap_err().to_string();
    assert_eq!(
        deserialize_run(b"{\"a\"").unwrap_err().message(),
        format!("serialization failed: {}", known)
    );
}

#[test]
fn settings_fall_back_to_defaults() {
    assert_eq!(wasm_fuel_limit(None), 1_000_000);
    assert_eq!(wasm_fuel_limit(Some("12")), 12);
    assert_eq!(wasm_fuel_limit(Some("many")), 1_000_000);
    assert_eq!(wasm_timeout_ms(None), 5_000);
    assert_eq!(wasm_timeout_ms(Some("250")), 250);
}

#[test]
fn numbers_are_taken_from_inputs() {
    assert_eq!(parse_i32_input(&Value::Int(7)).unwrap(), 7);
    assert_eq!(parse_i32_input(&text("-8")).unwrap(), -8);
    assert!(parse_i32_input(&text("x")).is_err());
    assert!(parse_i32_input(&Value::Int(1 << 40)).is_err());
    assert!(parse_i32_input(&Value::Null).is_err());
    assert_eq!(bytes_from_input(&text("ab")), b"ab".to_vec());
    assert_eq!(bytes_from_input(&Value::Bytes(vec![1])), vec![1]);
    assert_eq!(
        bytes_from_input(&Value::Float(Float { text: "1.5".to_string() })),
        b"1.5".to_vec()
    );
}

#[test]
fn regions_lie_in_memory() {
    assert_eq!(validate_memory_bounds(10, 2, 3).unwrap(), (2, 5));
    assert!(validate_memory_bounds(10, -2, 3).is_err());
    assert!(validate_memory_bounds(10, 2, -3).is_err());
    assert!(validate_memory_bounds(10, 9, 2).is_err());
    assert!(read_output(&[1, 2], 0, 3).is_err());
    assert_eq!(read_output(b"abc", 1, 2).unwrap(), text("bc"));
}

#[test]
fn buffers_are_freed_once() {
    let same = plan_frees(8, 4, 8, 4);
    assert_eq!(same.len(), 1);
    assert_eq!((same[0].ptr, same[0].len), (8, 4));
    let two = plan_frees(8, 4, 16, 2);
    assert_eq!(two.len(), 2);
    let none = plan_frees(8, 4, 0, 0);
    assert_eq!(none.len(), 1);
}

#[test]
fn guests_use_the_store() {
    let mut store = InMemoryStore::new();
    let memory = b"keyvalue........".to_vec();
    let set = store_set(Some(&memory), 0, 3, 3, 5, &mut store);
    assert_eq!(set.code, 0);
    assert!(set.warning.is_none());
    assert_eq!(store.get_entry("key").unwrap(), Some(Value::Bytes(b"value".to_vec())));

    let got = store_get(Some(&memory), 0, 3, 8, 8, &store);
    assert_eq!(got.code, 5);
    assert_eq!(got.start, 8);
    assert_eq!(got.bytes, b"value".to_vec());

    let small = store_get(Some(&memory), 0, 3, 8, 2, &store);
    assert!(small.bytes.is_empty());
    assert_eq!(small.code, -15);
    let absent = store_get(Some(&memory), 3, 5, 8, 8, &store);
    assert!(absent.bytes.is_empty());
    assert_eq!(absent.code, -2);
    store.put_entry("value", Value::Int(1)).unwrap();
    let number = store_get(Some(&memory), 3, 5, 8, 8, &store);
    assert_eq!(number.code, -4);
    assert_eq!(
        number.warning.as_deref(),
        Some("store_get: stored value for 'value' was not binary")
    );

    assert_eq!(store_set(None, 0, 3, 3, 5, &mut store).code, -3);
    assert_eq!(store_set(Some(&memory), 0, 99, 3, 5, &mut store).code, -3);
    assert_eq!(store_set_without_store(Some(&memory), 0, 3, 3, 5).code, -1);
    assert_eq!(store_get_without_store(Some(&memory), 0, 3, 8, 8).code, -1);
    assert!(store_get_without_store(None, 0, 3, 8, 8).warning.is_some());
}

#[test]
fn guests_ask_for_assets() {
    let memory = b"/a.html.........".to_vec();
    let q = asset_request(Some(&memory), 0, 7, 8, 8).unwrap();
    assert_eq!(q.key, "/a.html");
    let found = asset_reply(&q, AssetAnswer::Bytes(b"page".to_vec()));
    assert_eq!(found.bytes, b"page".to_vec());
    assert_eq!(found.code, 4);
    assert!(asset_reply(&q, AssetAnswer::NoHost).warning.is_some());
    assert!(asset_reply(&q, AssetAnswer::Failed("down".to_string())).warning.is_some());
    assert_eq!(asset_reply(&q, AssetAnswer::Bytes(vec![7; 9])).bytes, vec![7; 8]);
    assert!(asset_request(Some(&memory), 0, 99, 8, 8).is_err());
    assert!(asset_request(None, 0, 7, 8, 8).is_err());
}

#[test]
fn lines_are_logged() {
    match host_log(Some(b"hi there"), 0, 2) {
        LogReply::Line(s) => assert_eq!(s, "[INFO][GuestModule] hi"),
        _ => unreachable!(),
    }
    match host_log(Some(b"a\xffb"), 0, 3) {
        LogReply::Line(s) => assert_eq!(s, "[INFO][GuestModule] a\u{fffd}b"),
        _ => unreachable!(),
    }
    assert!(matches!(host_log(Some(b"hi"), 0, 3), LogReply::Nothing));
    assert!(matches!(host_log(None, 0, 0), LogReply::Nothing));
    assert_eq!(warn_line("x"), "[WARN][GuestModule] x");
    assert_eq!(memory_bytes(2), 131_072);
    assert_eq!(
        metrics_line(3, 40, 65_536),
        "[METRICS][GuestModule] duration_ms=3 fuel_consumed=40 memory_allocated_bytes=65536"
    );
    assert_eq!(timeout_message(9), "Guest exceeded CPU fuel quota after 9ms");
    assert_eq!(timeout_line(9), "[ERROR][Runtime] Guest exceeded CPU fuel quota after 9ms");
}
