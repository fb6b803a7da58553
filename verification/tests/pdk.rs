use manifold::engine::{ExecutionEngine, NativeEngine, UiuaEngine};
use manifold::pdk::{
    errno_message, get, log_error, log_info, log_warn, panic_line, read_step, set_outcome, PdkError,
    ReadStep,
};
use manifold::value::Value;

#[test]
fn guest_messages_name_their_level() {
    assert_eq!(log_info("hello"), "[GUEST][INFO] hello");
    assert_eq!(log_warn("hello"), "[GUEST][WARN] hello");
    assert_eq!(log_error("hello"), "[GUEST][ERROR] hello");
    assert_eq!(panic_line(Some(("a.rs", 7)), Some("boom")), "[GUEST][ERROR] panic at a.rs:7: boom");
    assert_eq!(panic_line(None, None), "[GUEST][ERROR] panic at unknown location: unknown panic payload");
}

#[test]
fn replies_of_the_store_have_meanings() {
    assert!(set_outcome(0).is_ok());
    assert!(matches!(set_outcome(-1), Err(PdkError::StoreNotConfigured)));
    assert!(matches!(errno_message(-2), PdkError::StoreKeyNotFound));
    assert_eq!(errno_message(-3).message(), "store host error: invalid guest memory reference");
    assert_eq!(errno_message(-4).message(), "store host error: unexpected host error code -4");
    assert_eq!(errno_message(-25).message(), "store buffer too small; required 15 bytes");
    assert_eq!(errno_message(i32::MIN).message(), "store buffer too small; required 2147483638 bytes");
    assert_eq!(PdkError::StoreNotConfigured.message(), "store is not configured for this guest");
    assert_eq!(PdkError::StoreKeyNotFound.message(), "store key not found");
    assert_eq!(PdkError::Serialization("x".to_string()).message(), "serialization error: x");
    assert_eq!(PdkError::Deserialization("x".to_string()).message(), "deserialization error: x");
    assert_eq!(PdkError::LogHostError("x".to_string()).message(), "log host error: x");
}

#[test]
fn reads_are_retried_with_the_size_asked_for() {
    assert!(matches!(read_step(4096, -1), ReadStep::Missing));
    assert!(matches!(read_step(4096, 0), ReadStep::Failed(PdkError::StoreHostError(_))));
    assert!(matches!(read_step(4096, -5010), ReadStep::Retry(5000)));
    assert!(matches!(read_step(4096, 12), ReadStep::Ready(12)));
    assert!(matches!(read_step(4, 12), ReadStep::Failed(PdkError::StoreBufferTooSmall(12))));
    assert!(matches!(read_step(4096, -2), ReadStep::Failed(PdkError::StoreKeyNotFound)));
}

fn buffer_with(bytes: &[u8], size: usize) -> (i32, Vec<u8>) {
    let mut buffer = vec![0u8; size];
    if bytes.len() > size {
        return (-10 - bytes.len() as i32, buffer);
    }
    buffer[..bytes.len()].copy_from_slice(bytes);
    (bytes.len() as i32, buffer)
}

fn text_in(bytes: Vec<u8>) -> Result<String, String> {
    String::from_utf8(bytes).map_err(|_| "no text".to_string())
}

#[test]
fn what_was_set_is_got() {
    for length in [1, 4095, 4096, 4097, 100_000] {
        let value = "v".repeat(length);
        let held = std::cell::RefCell::new(Vec::new());
        let stored = manifold::pdk::set(Ok(value.clone().into_bytes()), |bytes| {
            *held.borrow_mut() = bytes;
            0
        });
        assert!(stored.is_ok());
        let tries = std::cell::RefCell::new(Vec::new());
        let found = get(
            |size| {
                tries.borrow_mut().push(size);
                buffer_with(&held.borrow(), size)
            },
            text_in,
        );
        assert_eq!(found.unwrap(), Some(value));
        if length > 4096 {
            assert_eq!(*tries.borrow(), vec![4096, length]);
        } else {
            assert_eq!(*tries.borrow(), vec![4096]);
        }
    }
}

#[test]
fn replies_to_a_read_are_told() {
    let reply = |code: i32| get(move |size| (code, vec![7u8; size]), text_in);
    assert!(matches!(reply(-1), Ok(None)));
    assert!(matches!(reply(-2), Err(PdkError::StoreKeyNotFound)));
    assert!(matches!(reply(0), Err(PdkError::StoreHostError(_))));
    assert!(matches!(reply(4097), Err(PdkError::StoreBufferTooSmall(4097))));
    assert_eq!(reply(3).unwrap(), Some("\u{7}\u{7}\u{7}".to_string()));
    let broken = get(|size| (1, vec![255u8; size]), text_in);
    assert!(matches!(broken, Err(PdkError::Deserialization(e)) if e == "no text"));
}

#[test]
fn a_host_may_ask_for_more_again() {
    let sizes = std::cell::RefCell::new(vec![5000usize, 6000]);
    let found = get(
        |size| {
            let mut asked = sizes.borrow_mut();
            if asked.is_empty() {
                buffer_with(b"end", size)
            } else {
                (-10 - asked.remove(0) as i32, vec![0u8; size])
            }
        },
        text_in,
    );
    assert_eq!(found.unwrap(), Some("end".to_string()));
}

#[test]
fn replies_to_a_write_are_told() {
    assert!(matches!(manifold::pdk::set(Err("bad".to_string()), |_| 0), Err(PdkError::Serialization(e)) if e == "bad"));
    assert!(matches!(manifold::pdk::set(Ok(vec![1]), |_| -1), Err(PdkError::StoreNotConfigured)));
    assert!(matches!(manifold::pdk::set(Ok(vec![1]), |bytes| if bytes == [1] { 0 } else { -3 }), Ok(())));
}

#[test]
fn engines_tell_what_they_were_given() {
    let out = NativeEngine::new().execute("code", Value::Int(1)).unwrap();
    let map = out.as_map().unwrap();
    assert_eq!(map.len(), 3);
    assert_eq!(map.get("engine"), Some(&Value::String("native".to_string())));
    assert_eq!(map.get("code"), Some(&Value::String("code".to_string())));
    assert_eq!(map.get("input"), Some(&Value::Int(1)));
    let out = UiuaEngine::default().execute("+", Value::Null).unwrap();
    assert_eq!(out.as_map().unwrap().get("engine"), Some(&Value::String("uiua".to_string())));
}
