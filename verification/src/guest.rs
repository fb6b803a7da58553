//! The host's side of a WebAssembly guest: its limits, the functions that it may call, and the
//! protocol by which it is handed its input and hands back its output.

use crate::json::{
    byte_trees, exact, json_of_value, json_parse, json_text, tree_val, val_tree, Parsed,
    MAX_JSON_DEPTH,
};
use crate::json::{json_write, value_to_json};
use crate::pdk::{got, lemma_get_after_set, PdkFault, FIRST_BUFFER_SIZE};
use crate::store::{lemma_entry_found, reads_back, scoped, store_message, stored};
use crate::store::{Contents, Store, StoreError};
use crate::strmap::{lookup, put};
use crate::text::{
    cat, cat3, cat5, contains_text, lossy_text, parse_i32, parse_u64, signed_text, size_text,
    unsigned_text, utf8_text,
};
use crate::text::{
    i32_value, lemma_digits_read, lemma_signed_numeral_read, lemma_unsigned_read, lossy_utf8,
    numeral, occurs, signed_numeral, signed_value, unsigned_digits, unsigned_value, utf8_fault,
};
use crate::value::{Val, Value};
use vstd::prelude::*;
use vstd::slice::{slice_subrange, slice_to_vec};
use vstd::utf8::{
    decode_utf8, decode_utf8_encode_utf8, encode_utf8, encode_utf8_decode_utf8,
    encode_utf8_valid_utf8, valid_utf8,
};

verus! {

/// The fuel that a guest may burn unless the environment says otherwise.
pub const DEFAULT_WASM_FUEL_LIMIT: u64 = 1_000_000;

/// The milliseconds that a guest may take unless the environment says otherwise.
pub const DEFAULT_WASM_TIMEOUT_MS: u64 = 5_000;

/// The number that a setting gives, or the default where it gives none.
pub open spec fn setting_value(setting: Option<Seq<char>>, default: u64) -> u64 {
    match setting {
        Some(s) => match unsigned_value(s, u64::MAX as nat + 1) {
            Some(n) => n as u64,
            None => default,
        },
        None => default,
    }
}

/// The text of a setting that may be missing.
pub open spec fn setting_text(setting: Option<&str>) -> Option<Seq<char>> {
    match setting {
        Some(s) => Some(s@),
        None => None,
    }
}

fn setting_or(setting: Option<&str>, default: u64) -> (r: u64)
    ensures
        r == setting_value(setting_text(setting), default),
{
    match setting {
        Some(s) => match parse_u64(s) {
            Some(n) => n,
            None => default,
        },
        None => default,
    }
}

/// The fuel that a guest may burn, by the setting in the environment.
pub fn wasm_fuel_limit(setting: Option<&str>) -> (r: u64)
    ensures
        r == setting_value(setting_text(setting), DEFAULT_WASM_FUEL_LIMIT),
{
    setting_or(setting, DEFAULT_WASM_FUEL_LIMIT)
}

/// The milliseconds that a guest may take, by the setting in the environment.
pub fn wasm_timeout_ms(setting: Option<&str>) -> (r: u64)
    ensures
        r == setting_value(setting_text(setting), DEFAULT_WASM_TIMEOUT_MS),
{
    setting_or(setting, DEFAULT_WASM_TIMEOUT_MS)
}

/// The number that a guest is called with, or why there is none.
pub open spec fn i32_input(v: Val) -> Result<i32, Seq<char>> {
    match v {
        Val::Int(i) => if i32::MIN <= i <= i32::MAX {
            Ok(i as i32)
        } else {
            Err("wasm numeric run requires a 32-bit integer input"@)
        },
        Val::Text(s) => match i32_value(s) {
            Some(n) => Ok(n as i32),
            None => Err("wasm numeric run requires a string that parses as an integer"@),
        },
        _ => Err("wasm numeric run requires an integer input, got "@ + json_text(val_tree(v))),
    }
}

/// The number that a guest is called with.
pub fn parse_i32_input(input: &Value) -> (r: Result<i32, String>)
    ensures
        match r {
            Ok(n) => i32_input(input@) == Result::<i32, Seq<char>>::Ok(n),
            Err(e) => i32_input(input@) == Result::<i32, Seq<char>>::Err(e@),
        },
{
    match input {
        Value::Int(i) => if -2147483648 <= *i && *i <= 2147483647 {
            Ok(*i as i32)
        } else {
            Err("wasm numeric run requires a 32-bit integer input".to_owned())
        },
        Value::String(s) => match parse_i32(s.as_str()) {
            Some(n) => Ok(n),
            None => Err("wasm numeric run requires a string that parses as an integer".to_owned()),
        },
        _ => Err(
            cat(
                "wasm numeric run requires an integer input, got ",
                json_of_value(input).as_str(),
            ),
        ),
    }
}

/// The bytes that a guest is handed.
pub open spec fn input_bytes(v: Val) -> Seq<u8> {
    match v {
        Val::Bytes(b) => b,
        Val::Text(s) => encode_utf8(s),
        Val::Int(i) => encode_utf8(signed_numeral(i as int)),
        _ => encode_utf8(json_text(val_tree(v))),
    }
}

/// The bytes that a guest is handed.
pub fn bytes_from_input(input: &Value) -> (r: Vec<u8>)
    ensures
        r@ == input_bytes(input@),
{
    match input {
        Value::Bytes(b) => {
            let c: Vec<u8> = b.clone();
            assert(c@ =~= b@);
            c
        },
        Value::String(s) => {
            let r = slice_to_vec(s.as_str().as_bytes());
            r
        },
        Value::Int(i) => slice_to_vec(signed_text(*i).as_str().as_bytes()),
        _ => json_write(&value_to_json(input)),
    }
}

/// Why a range of a guest's memory is refused.
pub open spec fn bounds_fault(ptr: i32, len: i32, size: nat) -> Option<Seq<char>> {
    if ptr < 0 {
        Some("wasm pointer must be a non-negative 32-bit integer"@)
    } else if len < 0 {
        Some("wasm buffer length must be a non-negative 32-bit integer"@)
    } else if ptr + len > size {
        Some(
            "wasm memory access out of bounds: ptr="@ + numeral(ptr as nat) + " len="@ + numeral(
                len as nat,
            ) + " memory_size="@ + numeral(size),
        )
    } else {
        None
    }
}

/// The start and the end of a range of a guest's memory of that size.
pub fn validate_memory_bounds(size: usize, ptr: i32, len: i32) -> (r: Result<
    (usize, usize),
    String,
>)
    ensures
        match r {
            Ok((start, end)) => bounds_fault(ptr, len, size as nat) is None && start == ptr && end
                == ptr + len && start <= end <= size,
            Err(e) => bounds_fault(ptr, len, size as nat) == Some(e@),
        },
{
    if ptr < 0 {
        return Err("wasm pointer must be a non-negative 32-bit integer".to_owned());
    }
    if len < 0 {
        return Err("wasm buffer length must be a non-negative 32-bit integer".to_owned());
    }
    let end: u64 = ptr as u64 + len as u64;
    if end > size as u64 {
        let mut e = cat5(
            "wasm memory access out of bounds: ptr=",
            signed_text(ptr as i64).as_str(),
            " len=",
            signed_text(len as i64).as_str(),
            " memory_size=",
        );
        e.append(size_text(size).as_str());
        return Err(e);
    }
    Ok((ptr as usize, end as usize))
}

/// Whether the message tells that a guest ran out of fuel.
pub open spec fn fuel_message(message: Seq<char>) -> bool {
    occurs(message, "all fuel consumed"@) || occurs(message, "out of fuel"@)
}

/// Whether the message tells that a guest ran out of fuel.
pub fn is_fuel_error(message: &str) -> (r: bool)
    ensures
        r == fuel_message(message@),
{
    contains_text(message, "all fuel consumed") || contains_text(message, "out of fuel")
}

/// What is said of a guest that failed: a plain word where it ran out of fuel.
pub open spec fn execution_message(message: Seq<char>) -> Seq<char> {
    if fuel_message(message) {
        "WASM Execution Timeout / Fuel Exhausted"@
    } else {
        message
    }
}

/// What is said of a guest that failed.
pub fn map_wasm_execution_error(message: String) -> (r: String)
    ensures
        r@ == execution_message(message@),
{
    if is_fuel_error(message.as_str()) {
        "WASM Execution Timeout / Fuel Exhausted".to_owned()
    } else {
        message
    }
}

/// The line by which the host warns of a guest.
pub fn warn_line(message: &str) -> (r: String)
    ensures
        r@ == "[WARN][GuestModule] "@ + message@,
{
    cat("[WARN][GuestModule] ", message)
}

/// The address that a signed number from a guest stands for: a negative one stands for an address
/// at the end of the 64-bit range.
pub open spec fn address(x: i32) -> int {
    if x >= 0 {
        x as int
    } else {
        x + 0x1_0000_0000_0000_0000
    }
}

fn wide_address(x: i32) -> (r: u64)
    ensures
        r == address(x),
{
    if x >= 0 {
        x as u64
    } else {
        u64::MAX - (-(x + 1)) as u64
    }
}

/// Why a region of a memory of that size is refused: its end is no address, or it lies outside.
pub open spec fn region_fault(
    what: Seq<char>,
    kind: Seq<char>,
    start: int,
    len: int,
    size: nat,
) -> Option<Seq<char>> {
    if start + len > u64::MAX {
        Some(what + " pointer overflow"@)
    } else if start + len > size {
        Some(
            what + kind + " out of bounds ("@ + numeral(start as nat) + ".."@ + numeral(
                (start + len) as nat,
            ) + " / "@ + numeral(size) + ")"@,
        )
    } else {
        None
    }
}

fn check_region(what: &str, kind: &str, start: u64, len: u64, size: usize) -> (r: Result<
    (usize, usize),
    String,
>)
    ensures
        match r {
            Ok((from, to)) => region_fault(what@, kind@, start as int, len as int, size as nat)
                is None && from == start && to == start + len && from <= to <= size,
            Err(e) => region_fault(what@, kind@, start as int, len as int, size as nat) == Some(e@),
        },
{
    if start > u64::MAX - len {
        return Err(cat(what, " pointer overflow"));
    }
    let end: u64 = start + len;
    if end > size as u64 {
        let mut e = cat5(
            what,
            kind,
            " out of bounds (",
            unsigned_text(start as u128).as_str(),
            "..",
        );
        e.append(unsigned_text(end as u128).as_str());
        e.append(" / ");
        e.append(size_text(size).as_str());
        e.append(")");
        return Err(e);
    }
    Ok((start as usize, end as usize))
}

/// The text in a region of memory, or why there is none.
pub open spec fn text_fault(what: Seq<char>, bytes: Seq<u8>) -> Option<Seq<char>> {
    if valid_utf8(bytes) {
        None
    } else {
        Some(what + utf8_fault(bytes))
    }
}

fn read_key(what: &str, bytes: &[u8]) -> (r: Result<String, String>)
    ensures
        match r {
            Ok(s) => text_fault(what@, bytes@) is None && s@ == decode_utf8(bytes@),
            Err(e) => text_fault(what@, bytes@) == Some(e@),
        },
{
    match utf8_text(bytes) {
        Ok(s) => Ok(s),
        Err(e) => Err(cat(what, e.as_str())),
    }
}

/// The bytes of a region.
pub open spec fn region(memory: Seq<u8>, start: int, len: int) -> Seq<u8> {
    memory.subrange(start, start + len)
}

/// What a guest asks to be stored.
#[derive(Debug)]
pub struct SetRequest {
    pub key: String,
    pub value: Vec<u8>,
}

/// Why a request to store a value is refused.
pub open spec fn set_fault(
    memory: Option<Seq<u8>>,
    key_ptr: i32,
    key_len: i32,
    value_ptr: i32,
    value_len: i32,
) -> Option<Seq<char>> {
    match memory {
        None => Some("store_set: guest memory export not available"@),
        Some(m) => match region_fault(
            "store_set: key"@,
            " region"@,
            address(key_ptr),
            address(key_len),
            m.len(),
        ) {
            Some(e) => Some(e),
            None => match region_fault(
                "store_set: value"@,
                " region"@,
                address(value_ptr),
                address(value_len),
                m.len(),
            ) {
                Some(e) => Some(e),
                None => text_fault(
                    "store_set: invalid UTF-8 key: "@,
                    region(m, address(key_ptr), address(key_len)),
                ),
            },
        },
    }
}

/// The bytes of a memory that may be missing.
pub open spec fn memory_view(memory: Option<&[u8]>) -> Option<Seq<u8>> {
    match memory {
        Some(m) => Some(m@),
        None => None,
    }
}

/// Reads what a guest asks to be stored.
pub fn store_set_request(
    memory: Option<&[u8]>,
    key_ptr: i32,
    key_len: i32,
    value_ptr: i32,
    value_len: i32,
) -> (r: Result<SetRequest, String>)
    ensures
        match r {
            Ok(q) => {
                &&& set_fault(memory_view(memory), key_ptr, key_len, value_ptr, value_len) is None
                &&& memory_view(memory) is Some
                &&& q.key@ == decode_utf8(
                    region(memory_view(memory)->0, address(key_ptr), address(key_len)),
                )
                &&& q.value@ == region(
                    memory_view(memory)->0,
                    address(value_ptr),
                    address(value_len),
                )
            },
            Err(e) => set_fault(memory_view(memory), key_ptr, key_len, value_ptr, value_len)
                == Some(e@),
        },
{
    let data = match memory {
        Some(m) => m,
        None => {
            return Err("store_set: guest memory export not available".to_owned());
        },
    };
    let key = match check_region(
        "store_set: key",
        " region",
        wide_address(key_ptr),
        wide_address(key_len),
        data.len(),
    ) {
        Ok(k) => k,
        Err(e) => {
            return Err(e);
        },
    };
    let value = match check_region(
        "store_set: value",
        " region",
        wide_address(value_ptr),
        wide_address(value_len),
        data.len(),
    ) {
        Ok(v) => v,
        Err(e) => {
            return Err(e);
        },
    };
    let key = match read_key(
        "store_set: invalid UTF-8 key: ",
        slice_subrange(data, key.0, key.1),
    ) {
        Ok(k) => k,
        Err(e) => {
            return Err(e);
        },
    };
    Ok(SetRequest { key, value: slice_to_vec(slice_subrange(data, value.0, value.1)) })
}

/// What a host function returns to the guest, and what the host warns of.
#[derive(Debug)]
pub struct HostReply {
    pub code: i32,
    pub warning: Option<String>,
}

/// The text of a warning that may be missing.
pub open spec fn warned(w: Option<String>) -> Option<Seq<char>> {
    match w {
        Some(s) => Some(s@),
        None => None,
    }
}

/// Serves a guest without a store that asks for a value to be stored.
pub fn store_set_without_store(
    memory: Option<&[u8]>,
    key_ptr: i32,
    key_len: i32,
    value_ptr: i32,
    value_len: i32,
) -> (r: HostReply)
    ensures
        match set_fault(memory_view(memory), key_ptr, key_len, value_ptr, value_len) {
            Some(e) => r.code == -3 && warned(r.warning) == Some(e),
            None => r.code == -1 && warned(r.warning) is None,
        },
{
    match store_set_request(memory, key_ptr, key_len, value_ptr, value_len) {
        Ok(_) => HostReply { code: -1, warning: None },
        Err(e) => HostReply { code: -3, warning: Some(e) },
    }
}

/// Serves a guest that asks for a value to be stored.
pub fn store_set<S: Store>(
    memory: Option<&[u8]>,
    key_ptr: i32,
    key_len: i32,
    value_ptr: i32,
    value_len: i32,
    store: &mut S,
) -> (r: HostReply)
    ensures
        final(store).scopes() == old(store).scopes(),
        final(store).infallible() == old(store).infallible(),
        match set_fault(memory_view(memory), key_ptr, key_len, value_ptr, value_len) {
            Some(e) => r.code == -3 && warned(r.warning) == Some(e) && *final(store) == *old(store),
            None => {
                let m = memory_view(memory)->0;
                let key = decode_utf8(region(m, address(key_ptr), address(key_len)));
                let value = Val::Bytes(region(m, address(value_ptr), address(value_len)));
                ||| {
                    &&& r.code == 0
                    &&& warned(r.warning) is None
                    &&& final(store).contents() == put(
                        old(store).contents(),
                        scoped(old(store).scopes(), key),
                        stored(val_tree(value)),
                    )
                    &&& reads_back(val_tree(value))
                }
                ||| {
                    &&& !old(store).infallible()
                    &&& r.code == -4
                    &&& exists|e: StoreError|
                        e is Storage && warned(r.warning) == Some(
                            "store_set: host storage error: "@ + #[trigger] store_message(e),
                        )
                }
            },
        },
{
    match store_set_request(memory, key_ptr, key_len, value_ptr, value_len) {
        Ok(q) => {
            let ghost value = Val::Bytes(q.value@);
            proof {
                lemma_bytes_exact(q.value@);
            }
            match store.put_entry(q.key.as_str(), Value::Bytes(q.value)) {
                Ok(_) => HostReply { code: 0, warning: None },
                Err(e) => {
                    let text = e.message();
                    assert(text@ == store_message(e));
                    HostReply {
                        code: -4,
                        warning: Some(cat("store_set: host storage error: ", text.as_str())),
                    }
                },
            }
        },
        Err(e) => HostReply { code: -3, warning: Some(e) },
    }
}

proof fn lemma_bytes_exact(b: Seq<u8>)
    ensures
        exact(val_tree(Val::Bytes(b)), MAX_JSON_DEPTH as nat),
{
    let t = byte_trees(b);
    assert forall|i: int| 0 <= i < t.len() implies exact(
        #[trigger] t[i],
        (MAX_JSON_DEPTH - 1) as nat,
    ) by {}
}

/// Why a request to read a value is refused.
pub open spec fn get_fault(
    memory: Option<Seq<u8>>,
    key_ptr: i32,
    key_len: i32,
    dest_ptr: i32,
    dest_max_len: i32,
) -> Option<Seq<char>> {
    match memory {
        None => Some("store_get: guest memory export not available"@),
        Some(m) => match region_fault(
            "store_get: key"@,
            " region"@,
            address(key_ptr),
            address(key_len),
            m.len(),
        ) {
            Some(e) => Some(e),
            None => match text_fault(
                "store_get: invalid UTF-8 key: "@,
                region(m, address(key_ptr), address(key_len)),
            ) {
                Some(e) => Some(e),
                None => region_fault(
                    "store_get: destination"@,
                    " region"@,
                    address(dest_ptr),
                    address(dest_max_len),
                    m.len(),
                ),
            },
        },
    }
}

/// What a guest asks to read, and where to.
#[derive(Debug)]
pub struct GetRequest {
    pub key: String,
    pub start: usize,
    pub room: usize,
}

/// Reads what a guest asks to read.
pub fn store_get_request(
    memory: Option<&[u8]>,
    key_ptr: i32,
    key_len: i32,
    dest_ptr: i32,
    dest_max_len: i32,
) -> (r: Result<GetRequest, String>)
    ensures
        match r {
            Ok(q) => {
                &&& get_fault(memory_view(memory), key_ptr, key_len, dest_ptr, dest_max_len) is None
                &&& memory_view(memory) is Some
                &&& q.key@ == decode_utf8(
                    region(memory_view(memory)->0, address(key_ptr), address(key_len)),
                )
                &&& q.start == address(dest_ptr)
                &&& q.room == address(dest_max_len)
                &&& q.start + q.room <= memory_view(memory)->0.len()
            },
            Err(e) => get_fault(memory_view(memory), key_ptr, key_len, dest_ptr, dest_max_len)
                == Some(e@),
        },
{
    let data = match memory {
        Some(m) => m,
        None => {
            return Err("store_get: guest memory export not available".to_owned());
        },
    };
    let key = match check_region(
        "store_get: key",
        " region",
        wide_address(key_ptr),
        wide_address(key_len),
        data.len(),
    ) {
        Ok(k) => k,
        Err(e) => {
            return Err(e);
        },
    };
    let key = match read_key(
        "store_get: invalid UTF-8 key: ",
        slice_subrange(data, key.0, key.1),
    ) {
        Ok(k) => k,
        Err(e) => {
            return Err(e);
        },
    };
    match check_region(
        "store_get: destination",
        " region",
        wide_address(dest_ptr),
        wide_address(dest_max_len),
        data.len(),
    ) {
        Ok((from, to)) => Ok(GetRequest { key, start: from, room: to - from }),
        Err(e) => Err(e),
    }
}

/// A number that is cut to 32 bits and read with a sign.
pub open spec fn cut_i32(x: int) -> int {
    let low = x % 0x1_0000_0000;
    if low >= 0x8000_0000 {
        low - 0x1_0000_0000
    } else {
        low
    }
}

/// The reply that asks for a buffer of that size.
pub open spec fn too_small_code(len: nat) -> int {
    cut_i32(-10 - cut_i32(len as int))
}

fn cut_len(len: usize) -> (r: i32)
    ensures
        r == cut_i32(len as int),
{
    let low: i64 = (len as u64 % 0x1_0000_0000) as i64;
    if low >= 0x8000_0000 {
        (low - 0x1_0000_0000) as i32
    } else {
        low as i32
    }
}

fn too_small(len: usize) -> (r: i32)
    ensures
        r == too_small_code(len as nat),
{
    let code: i64 = -10 - cut_len(len) as i64;
    if code > 2147483647 {
        (code - 0x1_0000_0000) as i32
    } else if code < -2147483648 {
        (code + 0x1_0000_0000) as i32
    } else {
        code as i32
    }
}

/// What a host function returns to the guest, what it writes into the guest's memory and where,
/// and what the host warns of.
#[derive(Debug)]
pub struct WriteReply {
    pub code: i32,
    pub start: usize,
    pub bytes: Vec<u8>,
    pub warning: Option<String>,
}

/// Whether the reply refuses the request, with that code and warning.
pub open spec fn refuses(r: WriteReply, code: int, warning: Option<Seq<char>>) -> bool {
    r.code == code && r.bytes@.len() == 0 && warned(r.warning) == warning
}

fn refuse(code: i32, warning: Option<String>) -> (r: WriteReply)
    ensures
        refuses(r, code as int, warned(warning)),
{
    WriteReply { code, start: 0, bytes: Vec::new(), warning }
}

/// Serves a guest without a store that asks to read a value.
pub fn store_get_without_store(
    memory: Option<&[u8]>,
    key_ptr: i32,
    key_len: i32,
    dest_ptr: i32,
    dest_max_len: i32,
) -> (r: WriteReply)
    ensures
        match get_fault(memory_view(memory), key_ptr, key_len, dest_ptr, dest_max_len) {
            Some(e) => refuses(r, -3, Some(e)),
            None => refuses(r, -1, None),
        },
{
    match store_get_request(memory, key_ptr, key_len, dest_ptr, dest_max_len) {
        Ok(_) => refuse(-1, None),
        Err(e) => refuse(-3, Some(e)),
    }
}

/// What a guest is told of what was found under a key.
pub open spec fn found_reply(
    found: Result<Option<Val>, Seq<char>>,
    key: Seq<char>,
    start: usize,
    room: usize,
    r: WriteReply,
) -> bool {
    match found {
        Ok(Some(Val::Bytes(b))) => if b.len() > room {
            refuses(r, too_small_code(b.len()), None)
        } else {
            r.code == cut_i32(b.len() as int) && r.start == start && r.bytes@ == b && warned(
                r.warning,
            ) is None
        },
        Ok(Some(_)) => refuses(
            r,
            -4,
            Some("store_get: stored value for '"@ + key + "' was not binary"@),
        ),
        Ok(None) => refuses(r, -2, None),
        Err(e) => refuses(r, -4, Some("store_get: host storage error: "@ + e)),
    }
}

/// What was found under a key, or what is said of the error.
pub open spec fn found_view(found: Result<Option<Value>, StoreError>) -> Result<
    Option<Val>,
    Seq<char>,
> {
    match found {
        Ok(Some(v)) => Ok(Some(v@)),
        Ok(None) => Ok(None),
        Err(e) => Err(store_message(e)),
    }
}

/// What the document under a key holds, or what is said of one that is not JSON.
pub open spec fn stored_view(document: Option<Seq<u8>>) -> Result<Option<Val>, Seq<char>> {
    match document {
        None => Ok(None),
        Some(b) => match json_parse(b) {
            Parsed::Document(t) => Ok(Some(tree_val(t))),
            Parsed::Fault(e) => Err("serialization failed: "@ + e),
        },
    }
}

/// Tells a guest what was found under a key.
pub fn store_get_reply(q: &GetRequest, found: Result<Option<Value>, StoreError>) -> (r: WriteReply)
    ensures
        found_reply(found_view(found), q.key@, q.start, q.room, r),
        r.bytes@.len() <= q.room,
{
    match found {
        Ok(Some(Value::Bytes(bytes))) => if bytes.len() > q.room {
            refuse(too_small(bytes.len()), None)
        } else {
            WriteReply { code: cut_len(bytes.len()), start: q.start, bytes, warning: None }
        },
        Ok(Some(_)) => refuse(
            -4,
            Some(
                cat3("store_get: stored value for '", q.key.as_str(), "' was not binary"),
            ),
        ),
        Ok(None) => refuse(-2, None),
        Err(e) => refuse(
            -4,
            Some(cat("store_get: host storage error: ", e.message().as_str())),
        ),
    }
}

/// Serves a guest that asks to read a value.
pub fn store_get<S: Store>(
    memory: Option<&[u8]>,
    key_ptr: i32,
    key_len: i32,
    dest_ptr: i32,
    dest_max_len: i32,
    store: &S,
) -> (r: WriteReply)
    ensures
        match get_fault(memory_view(memory), key_ptr, key_len, dest_ptr, dest_max_len) {
            Some(e) => refuses(r, -3, Some(e)),
            None => {
                let m = memory_view(memory)->0;
                let key = decode_utf8(region(m, address(key_ptr), address(key_len)));
                let found = lookup(store.contents(), scoped(store.scopes(), key));
                let start = address(dest_ptr) as usize;
                let room = address(dest_max_len) as usize;
                &&& r.bytes@.len() == 0 || r.start + r.bytes@.len() <= m.len()
                &&& found_reply(stored_view(found), key, start, room, r) || (!store.infallible()
                    && exists|e: StoreError|
                    e is Storage && refuses(
                        r,
                        -4,
                        Some("store_get: host storage error: "@ + #[trigger] store_message(e)),
                    ))
            },
        },
{
    match store_get_request(memory, key_ptr, key_len, dest_ptr, dest_max_len) {
        Ok(q) => {
            let found = store.get_entry(q.key.as_str());
            assert(found is Err ==> found_view(found) == Result::<Option<Val>, Seq<char>>::Err(
                store_message(found->Err_0),
            ));
            store_get_reply(&q, found)
        },
        Err(e) => refuse(-3, Some(e)),
    }
}

/// What a guest has stored under a key it reads back from there, if there is room for it: the store
/// holds the document that was written, and the reply that is due for that document has the bytes.
pub proof fn lemma_set_then_get(
    before: Contents,
    scopes: Seq<Seq<char>>,
    key: Seq<char>,
    bytes: Seq<u8>,
    start: usize,
    room: usize,
    r: WriteReply,
)
    requires
        reads_back(val_tree(Val::Bytes(bytes))),
    ensures
        ({
            let document = stored(val_tree(Val::Bytes(bytes)));
            let after = put(before, scoped(scopes, key), document);
            &&& lookup(after, scoped(scopes, key)) == Some(document)
            &&& json_parse(document) matches Parsed::Document(t) && (found_reply(
                Ok(Some(tree_val(t))),
                key,
                start,
                room,
                r,
            ) && bytes.len() <= room ==> r.bytes@ == bytes && r.start == start && r.code == cut_i32(
                bytes.len() as int,
            ))
        }),
{
    let v = Val::Bytes(bytes);
    lemma_entry_found(before, scoped(scopes, key), v, v, key);
}

/// Why a request for an asset is refused.
pub open spec fn asset_fault(
    memory: Option<Seq<u8>>,
    path_ptr: u32,
    path_len: u32,
    dest_ptr: u32,
    dest_max_len: u32,
) -> Option<Seq<char>> {
    match memory {
        None => Some("asset_request: guest memory export not available"@),
        Some(m) => match region_fault(
            "asset_request: path"@,
            " buffer"@,
            path_ptr as int,
            path_len as int,
            m.len(),
        ) {
            Some(e) => Some(e),
            None => match text_fault(
                "asset_request: invalid UTF-8 path: "@,
                region(m, path_ptr as int, path_len as int),
            ) {
                Some(e) => Some(e),
                None => region_fault(
                    "asset_request: destination"@,
                    " region"@,
                    dest_ptr as int,
                    dest_max_len as int,
                    m.len(),
                ),
            },
        },
    }
}

/// Reads which asset a guest asks for, and where it wants it.
pub fn asset_request(
    memory: Option<&[u8]>,
    path_ptr: u32,
    path_len: u32,
    dest_ptr: u32,
    dest_max_len: u32,
) -> (r: Result<GetRequest, String>)
    ensures
        match r {
            Ok(q) => {
                &&& asset_fault(memory_view(memory), path_ptr, path_len, dest_ptr, dest_max_len)
                    is None
                &&& memory_view(memory) is Some
                &&& q.key@ == decode_utf8(
                    region(memory_view(memory)->0, path_ptr as int, path_len as int),
                )
                &&& q.start == dest_ptr
                &&& q.room == dest_max_len
                &&& q.start + q.room <= memory_view(memory)->0.len()
            },
            Err(e) => asset_fault(memory_view(memory), path_ptr, path_len, dest_ptr, dest_max_len)
                == Some(e@),
        },
{
    let data = match memory {
        Some(m) => m,
        None => {
            return Err("asset_request: guest memory export not available".to_owned());
        },
    };
    let path = match check_region(
        "asset_request: path",
        " buffer",
        path_ptr as u64,
        path_len as u64,
        data.len(),
    ) {
        Ok(p) => p,
        Err(e) => {
            return Err(e);
        },
    };
    let key = match read_key(
        "asset_request: invalid UTF-8 path: ",
        slice_subrange(data, path.0, path.1),
    ) {
        Ok(k) => k,
        Err(e) => {
            return Err(e);
        },
    };
    match check_region(
        "asset_request: destination",
        " region",
        dest_ptr as u64,
        dest_max_len as u64,
        data.len(),
    ) {
        Ok((from, to)) => Ok(GetRequest { key, start: from, room: to - from }),
        Err(e) => Err(e),
    }
}

/// What the asset host answered.
#[derive(Debug)]
pub enum AssetAnswer {
    /// There is no asset host.
    NoHost,
    /// The asset could not be fetched.
    Failed(String),
    /// The bytes of the asset.
    Bytes(Vec<u8>),
}

/// What a guest is told of the asset that it asked for: how many bytes were written, and what the
/// host warns of. As much of the asset is written as there is room for.
pub fn asset_reply(q: &GetRequest, answer: AssetAnswer) -> (r: WriteReply)
    ensures
        r.start == q.start,
        r.bytes@.len() <= q.room,
        match answer {
            AssetAnswer::NoHost => r.bytes@.len() == 0 && warned(r.warning) == Some(
                "asset_request: no asset host configured"@,
            ),
            AssetAnswer::Failed(e) => r.bytes@.len() == 0 && warned(r.warning) == Some(
                "asset_request: failed to fetch asset '"@ + q.key@ + "': "@ + e@,
            ),
            AssetAnswer::Bytes(b) => warned(r.warning) is None && r.bytes@ == if b@.len() <= q.room {
                b@
            } else {
                b@.take(q.room as int)
            },
        },
        r.code == cut_i32(r.bytes@.len() as int),
{
    match answer {
        AssetAnswer::NoHost => WriteReply {
            code: 0,
            start: q.start,
            bytes: Vec::new(),
            warning: Some("asset_request: no asset host configured".to_owned()),
        },
        AssetAnswer::Failed(e) => {
            let mut w = cat3("asset_request: failed to fetch asset '", q.key.as_str(), "': ");
            w.append(e.as_str());
            WriteReply { code: 0, start: q.start, bytes: Vec::new(), warning: Some(w) }
        },
        AssetAnswer::Bytes(b) => {
            let bytes = if b.len() <= q.room {
                b
            } else {
                let part = slice_to_vec(slice_subrange(b.as_slice(), 0, q.room));
                assert(b@.subrange(0, q.room as int) =~= b@.take(q.room as int));
                part
            };
            WriteReply { code: cut_len(bytes.len()), start: q.start, bytes, warning: None }
        },
    }
}

/// What the host logs of a guest's message.
#[derive(Debug)]
pub enum LogReply {
    /// The line for the log.
    Line(String),
    /// The message lies outside of the memory, or there is no memory.
    Nothing,
    /// The end of the message is no address.
    Overflow,
}

/// Reads the message that a guest logs.
pub fn host_log(memory: Option<&[u8]>, ptr: i32, len: i32) -> (r: LogReply)
    ensures
        match memory_view(memory) {
            None => r is Nothing,
            Some(m) => if address(ptr) + address(len) > u64::MAX {
                r is Overflow
            } else if address(ptr) + address(len) > m.len() {
                r is Nothing
            } else {
                r matches LogReply::Line(s) && s@ == "[INFO][GuestModule] "@ + lossy_utf8(
                    region(m, address(ptr), address(len)),
                )
            },
        },
{
    let data = match memory {
        Some(m) => m,
        None => {
            return LogReply::Nothing;
        },
    };
    let start: u64 = wide_address(ptr);
    let count: u64 = wide_address(len);
    if start > u64::MAX - count {
        return LogReply::Overflow;
    }
    let end: u64 = start + count;
    if end > data.len() as u64 {
        return LogReply::Nothing;
    }
    let text = lossy_text(slice_subrange(data, start as usize, end as usize));
    LogReply::Line(cat("[INFO][GuestModule] ", text.as_str()))
}

/// What a guest module exports that matters to a call of it.
#[derive(Debug, Clone, Copy)]
pub struct Exports {
    /// A `run` from a number to a number.
    pub numeric_run: bool,
    /// A `run` from a buffer to a buffer.
    pub buffer_run: bool,
    /// An `alloc`.
    pub alloc: bool,
    /// A `free` of a buffer by its address and its length.
    pub free_two: bool,
    /// A `free` of a buffer by its address.
    pub free_one: bool,
    /// A memory.
    pub memory: bool,
}

/// How a guest is called.
#[derive(Debug)]
pub enum GuestCall {
    /// Its `run` is called with a number.
    Number(i32),
    /// A buffer for these bytes is allocated first.
    Buffer(Vec<u8>),
}

/// How a guest is called, or why it cannot be.
pub open spec fn call_fault(input: Val, e: Exports) -> Option<Seq<char>> {
    if e.numeric_run {
        match i32_input(input) {
            Ok(_) => None,
            Err(m) => Some(m),
        }
    } else if e.alloc && e.buffer_run {
        if input_bytes(input).len() > i32::MAX {
            Some("wasm input payload is too large"@)
        } else if !e.memory {
            Some("wasm module missing exported memory for alloc/run interop"@)
        } else {
            None
        }
    } else {
        Some("wasm module does not export a supported run signature"@)
    }
}

/// Decides how a guest is called.
pub fn plan_call(input: &Value, exports: &Exports) -> (r: Result<GuestCall, String>)
    ensures
        match r {
            Ok(GuestCall::Number(n)) => call_fault(input@, *exports) is None && exports.numeric_run
                && i32_input(input@) == Result::<i32, Seq<char>>::Ok(n),
            Ok(GuestCall::Buffer(b)) => call_fault(input@, *exports) is None
                && !exports.numeric_run && b@ == input_bytes(input@) && b@.len() <= i32::MAX,
            Err(e) => call_fault(input@, *exports) == Some(e@),
        },
{
    if exports.numeric_run {
        return match parse_i32_input(input) {
            Ok(n) => Ok(GuestCall::Number(n)),
            Err(e) => Err(e),
        };
    }
    if exports.alloc && exports.buffer_run {
        let bytes = bytes_from_input(input);
        if bytes.len() > 2147483647 {
            return Err("wasm input payload is too large".to_owned());
        }
        if !exports.memory {
            return Err("wasm module missing exported memory for alloc/run interop".to_owned());
        }
        return Ok(GuestCall::Buffer(bytes));
    }
    Err("wasm module does not export a supported run signature".to_owned())
}

/// Why the buffer that a guest allocated cannot be written.
pub open spec fn alloc_fault(ptr: i32, len: i32, size: nat) -> Option<Seq<char>> {
    if ptr < 0 {
        Some("wasm alloc returned negative pointer"@)
    } else {
        bounds_fault(ptr, len, size)
    }
}

/// Where the input is written, in a memory of that size, once the guest has allocated a buffer.
pub fn after_alloc(size: usize, ptr: i32, len: i32) -> (r: Result<(usize, usize), String>)
    ensures
        match r {
            Ok((start, end)) => alloc_fault(ptr, len, size as nat) is None && start == ptr && end
                == ptr + len && start <= end <= size,
            Err(e) => alloc_fault(ptr, len, size as nat) == Some(e@),
        },
{
    if ptr < 0 {
        return Err("wasm alloc returned negative pointer".to_owned());
    }
    validate_memory_bounds(size, ptr, len)
}

/// The value that a guest's output stands for: a text where the bytes are one, else the bytes.
pub open spec fn output_val(memory: Seq<u8>, ptr: i32, len: i32) -> Val {
    if len == 0 {
        Val::Bytes(Seq::empty())
    } else if valid_utf8(region(memory, ptr as int, len as int)) {
        Val::Text(decode_utf8(region(memory, ptr as int, len as int)))
    } else {
        Val::Bytes(region(memory, ptr as int, len as int))
    }
}

/// Why a guest's output cannot be read.
pub open spec fn output_fault(memory: Seq<u8>, ptr: i32, len: i32) -> Option<Seq<char>> {
    if len == 0 {
        None
    } else {
        bounds_fault(ptr, len, memory.len())
    }
}

/// Reads a guest's output.
pub fn read_output(memory: &[u8], ptr: i32, len: i32) -> (r: Result<Value, String>)
    ensures
        match r {
            Ok(v) => output_fault(memory@, ptr, len) is None && v@ == output_val(memory@, ptr, len),
            Err(e) => output_fault(memory@, ptr, len) == Some(e@),
        },
{
    if len == 0 {
        let empty: Vec<u8> = Vec::new();
        assert(empty@ =~= Seq::<u8>::empty());
        return Ok(Value::Bytes(empty));
    }
    match validate_memory_bounds(memory.len(), ptr, len) {
        Ok((start, end)) => {
            let bytes = slice_subrange(memory, start, end);
            match utf8_text(bytes) {
                Ok(s) => Ok(Value::String(s)),
                Err(_) => Ok(Value::Bytes(slice_to_vec(bytes))),
            }
        },
        Err(e) => Err(e),
    }
}

/// The value that a number which a guest returned stands for.
pub fn number_output(n: i32) -> (r: Value)
    ensures
        r@ == Val::Int(n as i64),
{
    Value::Int(n as i64)
}

/// A buffer of a guest that is to be freed, and what is said if that fails.
#[derive(Debug)]
pub struct FreeStep {
    pub ptr: i32,
    pub len: i32,
    pub failure: String,
}

/// What a [`FreeStep`] says.
pub struct FreeSpec {
    pub ptr: i32,
    pub len: i32,
    pub failure: Seq<char>,
}

impl FreeStep {
    pub open spec fn view(&self) -> FreeSpec {
        FreeSpec { ptr: self.ptr, len: self.len, failure: self.failure@ }
    }
}

/// The buffers to free after a call: the output buffer and the input buffer, once if they are one
/// and the same. An empty output has no buffer.
pub open spec fn frees(ptr: i32, len: i32, out_ptr: i32, out_len: i32) -> Seq<FreeSpec> {
    let input = FreeSpec { ptr, len, failure: "failed to free input buffer in wasm module"@ };
    if out_len == 0 {
        seq![input]
    } else if out_ptr == ptr && out_len == len {
        seq![FreeSpec { ptr, len, failure: "failed to free shared wasm buffer"@ }]
    } else {
        seq![
            FreeSpec {
                ptr: out_ptr,
                len: out_len,
                failure: "failed to free output buffer in wasm module"@,
            },
            input,
        ]
    }
}

/// What each step says.
pub open spec fn free_specs(v: Seq<FreeStep>) -> Seq<FreeSpec> {
    Seq::new(v.len(), |i: int| v[i].view())
}

/// The buffers to free after a call.
pub fn plan_frees(ptr: i32, len: i32, out_ptr: i32, out_len: i32) -> (r: Vec<FreeStep>)
    ensures
        free_specs(r@) == frees(ptr, len, out_ptr, out_len),
{
    let mut steps: Vec<FreeStep> = Vec::new();
    if out_len != 0 && out_ptr == ptr && out_len == len {
        steps.push(
            FreeStep { ptr, len, failure: "failed to free shared wasm buffer".to_owned() },
        );
    } else {
        if out_len != 0 {
            steps.push(
                FreeStep {
                    ptr: out_ptr,
                    len: out_len,
                    failure: "failed to free output buffer in wasm module".to_owned(),
                },
            );
        }
        steps.push(
            FreeStep {
                ptr,
                len,
                failure: "failed to free input buffer in wasm module".to_owned(),
            },
        );
    }
    assert(free_specs(steps@) =~= frees(ptr, len, out_ptr, out_len));
    steps
}

/// Whether a step frees that buffer.
pub open spec fn frees_buffer(s: FreeSpec, ptr: i32, len: i32) -> bool {
    s.ptr == ptr && s.len == len
}

/// The buffers of a call are freed, and none is freed twice under the same address and length.
pub proof fn lemma_buffers_freed(ptr: i32, len: i32, out_ptr: i32, out_len: i32)
    ensures
        exists|i: int|
            0 <= i < frees(ptr, len, out_ptr, out_len).len() && frees_buffer(
                #[trigger] frees(ptr, len, out_ptr, out_len)[i],
                ptr,
                len,
            ),
        out_len != 0 ==> exists|i: int|
            0 <= i < frees(ptr, len, out_ptr, out_len).len() && frees_buffer(
                #[trigger] frees(ptr, len, out_ptr, out_len)[i],
                out_ptr,
                out_len,
            ),
        forall|i: int, j: int|
            0 <= i < j < frees(ptr, len, out_ptr, out_len).len() ==> {
                let a = #[trigger] frees(ptr, len, out_ptr, out_len)[i];
                let b = #[trigger] frees(ptr, len, out_ptr, out_len)[j];
                a.ptr != b.ptr || a.len != b.len
            },
{
    let f = frees(ptr, len, out_ptr, out_len);
    assert(frees_buffer(f[f.len() - 1], ptr, len));
    if out_len != 0 {
        assert(frees_buffer(f[0], out_ptr, out_len));
    }
}

/// Which of a guest's functions frees a buffer.
#[derive(Debug, Clone, Copy, PartialEq, Eq, Structural)]
pub enum FreeCall {
    /// The one that takes the address and the length.
    Two,
    /// The one that takes the address.
    One,
    /// None: the guest cannot free.
    Skip,
}

/// Which of a guest's functions frees a buffer.
pub fn call_free(exports: &Exports) -> (r: FreeCall)
    ensures
        r == if exports.free_two {
            FreeCall::Two
        } else if exports.free_one {
            FreeCall::One
        } else {
            FreeCall::Skip
        },
{
    if exports.free_two {
        FreeCall::Two
    } else if exports.free_one {
        FreeCall::One
    } else {
        FreeCall::Skip
    }
}

/// Where a call of a guest stands.
#[derive(Debug)]
enum CallState {
    /// Its `run` was called with a number.
    Counting,
    /// Its `alloc` was called for a buffer that holds these bytes.
    Allocating(Vec<u8>),
    /// Its `run` was called with the buffer at that address and of that length.
    Running(i32, i32),
    /// It has returned that output; these buffers are to be freed, the first of them now.
    Freeing(Value, Vec<FreeStep>),
    /// It is over.
    Over,
}

/// Where a call of a guest stands: its `run` was called with a number, its `alloc` for bytes, or its
/// `run` with a buffer; or it has returned an output and buffers are to be freed, the first of them
/// now; or it is over.
pub enum StateSpec {
    Counting,
    Allocating(Seq<u8>),
    Running(i32, i32),
    Freeing(Val, Seq<FreeSpec>),
    Over,
}

impl CallState {
    spec fn view(&self) -> StateSpec {
        match self {
            CallState::Counting => StateSpec::Counting,
            CallState::Allocating(b) => StateSpec::Allocating(b@),
            CallState::Running(ptr, len) => StateSpec::Running(*ptr, *len),
            CallState::Freeing(v, steps) => StateSpec::Freeing(v@, free_specs(steps@)),
            CallState::Over => StateSpec::Over,
        }
    }
}

/// What the host does next in a call of a guest.
#[derive(Debug)]
pub enum CallStep {
    /// Call `run` with that number.
    RunNumber(i32),
    /// Call `alloc` with that length.
    Alloc(i32),
    /// Write the bytes into the memory from `start` on, then call `run` with the address and the
    /// length.
    WriteAndRun { start: usize, bytes: Vec<u8>, ptr: i32, len: i32 },
    /// Call the `free` that takes the address and the length.
    FreeTwo(i32, i32),
    /// Call the `free` that takes the address.
    FreeOne(i32),
    /// Hand back that output.
    Finish(Value),
    /// Hand back that error. What the call took is told only where `metered` says so.
    Fail { message: String, metered: bool },
}

/// What a [`CallStep`] says.
pub enum StepSpec {
    RunNumber(i32),
    Alloc(i32),
    WriteAndRun { start: int, bytes: Seq<u8>, ptr: i32, len: i32 },
    FreeTwo(i32, i32),
    FreeOne(i32),
    Finish(Val),
    Fail { message: Seq<char>, metered: bool },
}

impl CallStep {
    pub open spec fn view(&self) -> StepSpec {
        match self {
            CallStep::RunNumber(n) => StepSpec::RunNumber(*n),
            CallStep::Alloc(len) => StepSpec::Alloc(*len),
            CallStep::WriteAndRun { start, bytes, ptr, len } => StepSpec::WriteAndRun {
                start: *start as int,
                bytes: bytes@,
                ptr: *ptr,
                len: *len,
            },
            CallStep::FreeTwo(ptr, len) => StepSpec::FreeTwo(*ptr, *len),
            CallStep::FreeOne(ptr) => StepSpec::FreeOne(*ptr),
            CallStep::Finish(v) => StepSpec::Finish(v@),
            CallStep::Fail { message, metered } => StepSpec::Fail {
                message: message@,
                metered: *metered,
            },
        }
    }
}

/// What came of a step.
#[derive(Debug)]
pub enum GuestReply<'a> {
    /// `run` returned a number.
    Number(i32),
    /// `alloc` returned an address, in a memory of that size.
    Address(i32, usize),
    /// `run` returned the address and the length of its output, in that memory.
    Output(i32, i32, &'a [u8]),
    /// `free` returned.
    Freed,
    /// The guest failed, with that message.
    Failed(String),
}

/// What a [`GuestReply`] says.
pub enum ReplySpec {
    Number(i32),
    Address(i32, nat),
    Output(i32, i32, Seq<u8>),
    Freed,
    Failed(Seq<char>),
}

impl<'a> GuestReply<'a> {
    pub open spec fn view(&self) -> ReplySpec {
        match self {
            GuestReply::Number(n) => ReplySpec::Number(*n),
            GuestReply::Address(ptr, size) => ReplySpec::Address(*ptr, *size as nat),
            GuestReply::Output(ptr, len, memory) => ReplySpec::Output(*ptr, *len, memory@),
            GuestReply::Freed => ReplySpec::Freed,
            GuestReply::Failed(e) => ReplySpec::Failed(e@),
        }
    }
}

/// The end of a call by an error.
pub open spec fn failing(message: Seq<char>, metered: bool) -> (StateSpec, StepSpec) {
    (StateSpec::Over, StepSpec::Fail { message, metered })
}

/// What frees a buffer of a guest that exports a `free`.
pub open spec fn free_call(s: FreeSpec, e: Exports) -> StepSpec {
    if e.free_two {
        StepSpec::FreeTwo(s.ptr, s.len)
    } else {
        StepSpec::FreeOne(s.ptr)
    }
}

/// How a call goes on that has its output, with these buffers to free. A guest without a `free` is
/// done at once.
pub open spec fn freeing(output: Val, steps: Seq<FreeSpec>, e: Exports) -> (StateSpec, StepSpec) {
    if steps.len() == 0 || !e.free_two && !e.free_one {
        (StateSpec::Over, StepSpec::Finish(output))
    } else {
        (StateSpec::Freeing(output, steps), free_call(steps[0], e))
    }
}

/// How a call of a guest begins.
pub open spec fn first_step(input: Val, e: Exports) -> (StateSpec, StepSpec) {
    match call_fault(input, e) {
        Some(m) => failing(m, !e.numeric_run && !(e.alloc && e.buffer_run)),
        None => if e.numeric_run {
            (StateSpec::Counting, StepSpec::RunNumber(i32_input(input)->Ok_0))
        } else {
            (
                StateSpec::Allocating(input_bytes(input)),
                StepSpec::Alloc(input_bytes(input).len() as i32),
            )
        },
    }
}

/// How a call of a guest goes on: the state and the reply to the last step give the next. The
/// buffer that `run` is called with is the one that the input was written into, and the output is
/// read before anything is freed. A reply that does not answer the last step ends the call.
pub open spec fn next_step(state: StateSpec, e: Exports, reply: ReplySpec) -> (
    StateSpec,
    StepSpec,
) {
    match (state, reply) {
        (StateSpec::Counting, ReplySpec::Number(n)) => (
            StateSpec::Over,
            StepSpec::Finish(Val::Int(n as i64)),
        ),
        (StateSpec::Allocating(bytes), ReplySpec::Address(ptr, size)) => {
            let len = bytes.len() as i32;
            match alloc_fault(ptr, len, size) {
                Some(m) => failing(m, false),
                None => (
                    StateSpec::Running(ptr, len),
                    StepSpec::WriteAndRun { start: ptr as int, bytes, ptr, len },
                ),
            }
        },
        (StateSpec::Running(ptr, len), ReplySpec::Output(out_ptr, out_len, memory)) => {
            match output_fault(memory, out_ptr, out_len) {
                Some(m) => failing(m, false),
                None => freeing(
                    output_val(memory, out_ptr, out_len),
                    frees(ptr, len, out_ptr, out_len),
                    e,
                ),
            }
        },
        (StateSpec::Freeing(output, steps), ReplySpec::Freed) => freeing(
            output,
            steps.skip(1),
            e,
        ),
        (StateSpec::Freeing(_, steps), ReplySpec::Failed(_)) => failing(steps[0].failure, false),
        (StateSpec::Counting, ReplySpec::Failed(m)) => failing(execution_message(m), false),
        (StateSpec::Allocating(_), ReplySpec::Failed(m)) => failing(execution_message(m), false),
        (StateSpec::Running(_, _), ReplySpec::Failed(m)) => failing(execution_message(m), false),
        _ => failing("guest replied out of turn"@, false),
    }
}

/// A call of a guest that is under way.
#[derive(Debug)]
pub struct GuestSession {
    exports: Exports,
    state: CallState,
}

impl GuestSession {
    /// What the guest exports.
    pub closed spec fn exports(&self) -> Exports {
        self.exports
    }

    /// Where the call stands.
    pub closed spec fn state(&self) -> StateSpec {
        self.state@
    }

    #[verifier::type_invariant]
    closed spec fn fits(&self) -> bool {
        match self.state {
            CallState::Allocating(b) => b@.len() <= i32::MAX,
            CallState::Freeing(_, steps) => steps@.len() > 0,
            _ => true,
        }
    }

    fn fail(exports: Exports, message: String, metered: bool) -> (r: (GuestSession, CallStep))
        ensures
            r.0.exports() == exports,
            (r.0.state(), r.1@) == failing(message@, metered),
    {
        (GuestSession { exports, state: CallState::Over }, CallStep::Fail { message, metered })
    }

    fn finish(exports: Exports, output: Value) -> (r: (GuestSession, CallStep))
        ensures
            r.0.exports() == exports,
            (r.0.state(), r.1@) == (StateSpec::Over, StepSpec::Finish(output@)),
    {
        (GuestSession { exports, state: CallState::Over }, CallStep::Finish(output))
    }

    fn free(exports: Exports, output: Value, steps: Vec<FreeStep>) -> (r: (GuestSession, CallStep))
        ensures
            r.0.exports() == exports,
            (r.0.state(), r.1@) == freeing(output@, free_specs(steps@), exports),
    {
        if steps.len() == 0 {
            return GuestSession::finish(exports, output);
        }
        let step = match call_free(&exports) {
            FreeCall::Two => CallStep::FreeTwo(steps[0].ptr, steps[0].len),
            FreeCall::One => CallStep::FreeOne(steps[0].ptr),
            FreeCall::Skip => {
                return GuestSession::finish(exports, output);
            },
        };
        (GuestSession { exports, state: CallState::Freeing(output, steps) }, step)
    }

    /// Begins a call of a guest.
    pub fn begin(input: &Value, exports: Exports) -> (r: (GuestSession, CallStep))
        ensures
            r.0.exports() == exports,
            (r.0.state(), r.1@) == first_step(input@, exports),
    {
        match plan_call(input, &exports) {
            Ok(GuestCall::Number(n)) => (
                GuestSession { exports, state: CallState::Counting },
                CallStep::RunNumber(n),
            ),
            Ok(GuestCall::Buffer(bytes)) => {
                let len: i32 = bytes.len() as i32;
                (
                    GuestSession { exports, state: CallState::Allocating(bytes) },
                    CallStep::Alloc(len),
                )
            },
            Err(e) => GuestSession::fail(
                exports,
                e,
                !exports.numeric_run && !(exports.alloc && exports.buffer_run),
            ),
        }
    }

    /// Goes on with a call of a guest, by what came of the last step.
    pub fn resume(self, reply: GuestReply<'_>) -> (r: (GuestSession, CallStep))
        ensures
            r.0.exports() == self.exports(),
            (r.0.state(), r.1@) == next_step(self.state(), self.exports(), reply@),
    {
        proof {
            use_type_invariant(&self);
        }
        let exports = self.exports;
        match (self.state, reply) {
            (CallState::Counting, GuestReply::Number(n)) => GuestSession::finish(
                exports,
                number_output(n),
            ),
            (CallState::Allocating(bytes), GuestReply::Address(ptr, size)) => {
                let len: i32 = bytes.len() as i32;
                match after_alloc(size, ptr, len) {
                    Ok((start, _)) => (
                        GuestSession { exports, state: CallState::Running(ptr, len) },
                        CallStep::WriteAndRun { start, bytes, ptr, len },
                    ),
                    Err(e) => GuestSession::fail(exports, e, false),
                }
            },
            (CallState::Running(ptr, len), GuestReply::Output(out_ptr, out_len, memory)) => {
                match read_output(memory, out_ptr, out_len) {
                    Ok(output) => GuestSession::free(
                        exports,
                        output,
                        plan_frees(ptr, len, out_ptr, out_len),
                    ),
                    Err(e) => GuestSession::fail(exports, e, false),
                }
            },
            (CallState::Freeing(output, steps), GuestReply::Freed) => {
                let mut rest = steps;
                let freed = rest.remove(0);
                assert(free_specs(rest@) =~= free_specs(steps@).skip(1));
                GuestSession::free(exports, output, rest)
            },
            (CallState::Freeing(_, steps), GuestReply::Failed(_)) => {
                let mut steps = steps;
                let step = steps.remove(0);
                GuestSession::fail(exports, step.failure, false)
            },
            (CallState::Counting, GuestReply::Failed(m)) => GuestSession::fail(
                exports,
                map_wasm_execution_error(m),
                false,
            ),
            (CallState::Allocating(_), GuestReply::Failed(m)) => GuestSession::fail(
                exports,
                map_wasm_execution_error(m),
                false,
            ),
            (CallState::Running(_, _), GuestReply::Failed(m)) => GuestSession::fail(
                exports,
                map_wasm_execution_error(m),
                false,
            ),
            _ => GuestSession::fail(exports, "guest replied out of turn".to_owned(), false),
        }
    }
}

/// Where a call of a guest stands after these replies, and what the host does next.
pub open spec fn after_replies(input: Val, e: Exports, replies: Seq<ReplySpec>) -> (
    StateSpec,
    StepSpec,
)
    decreases replies.len(),
{
    if replies.len() == 0 {
        first_step(input, e)
    } else {
        next_step(after_replies(input, e, replies.drop_last()).0, e, replies.last())
    }
}

/// What holds of a call after any replies, by where it stands: a call that runs was called with the
/// buffer that it allocated for its input, and one that frees has read its output from the memory
/// as it was when its `run` returned.
pub open spec fn call_sound(
    input: Val,
    e: Exports,
    replies: Seq<ReplySpec>,
    state: StateSpec,
) -> bool {
    match state {
        StateSpec::Counting => replies.len() == 0 && e.numeric_run && call_fault(input, e) is None,
        StateSpec::Allocating(b) => replies.len() == 0 && !e.numeric_run && call_fault(input, e)
            is None && b == input_bytes(input),
        StateSpec::Running(ptr, len) => replies.len() == 1 && allocated(input, e, replies, ptr, len),
        StateSpec::Freeing(v, steps) => replies.len() >= 2 && exists|ptr: i32, len: i32|
            {
                &&& #[trigger] allocated(input, e, replies, ptr, len)
                &&& returned(replies, v)
                &&& freed(replies, ptr, len, steps)
            },
        StateSpec::Over => true,
    }
}

/// Whether the first reply is a buffer for the input, at that address and of that length.
pub open spec fn allocated(
    input: Val,
    e: Exports,
    replies: Seq<ReplySpec>,
    ptr: i32,
    len: i32,
) -> bool {
    &&& !e.numeric_run
    &&& call_fault(input, e) is None
    &&& len == input_bytes(input).len()
    &&& replies.len() > 0
    &&& replies[0] matches ReplySpec::Address(p, size) && p == ptr && alloc_fault(ptr, len, size)
        is None
}

/// Whether the second reply is the output that the value was read from.
pub open spec fn returned(replies: Seq<ReplySpec>, v: Val) -> bool {
    &&& replies.len() > 1
    &&& replies[1] matches ReplySpec::Output(out_ptr, out_len, memory) && output_fault(
        memory,
        out_ptr,
        out_len,
    ) is None && v == output_val(memory, out_ptr, out_len)
}

/// Whether the buffers of the call were freed from the first on, so that these are left.
pub open spec fn freed(
    replies: Seq<ReplySpec>,
    ptr: i32,
    len: i32,
    steps: Seq<FreeSpec>,
) -> bool {
    &&& replies.len() > 1
    &&& replies[1] matches ReplySpec::Output(out_ptr, out_len, _) && replies.len() - 2 <= frees(
        ptr,
        len,
        out_ptr,
        out_len,
    ).len() && steps == frees(ptr, len, out_ptr, out_len).skip(replies.len() - 2)
}

/// At every point of a call, `run` was called with the buffer that was allocated for the input, and
/// what is handed back or kept while buffers are freed was read from the memory as it was when
/// `run` returned. A call that hands back an output hands back that of its `run`.
pub proof fn lemma_call_sound(input: Val, e: Exports, replies: Seq<ReplySpec>)
    ensures
        call_sound(input, e, replies, after_replies(input, e, replies).0),
        after_replies(input, e, replies).1 matches StepSpec::Finish(v) ==> if e.numeric_run {
            replies.len() == 1 && (replies[0] matches ReplySpec::Number(n) && v == Val::Int(
                n as i64,
            ))
        } else {
            returned(replies, v) && exists|ptr: i32, len: i32| #[trigger]
                allocated(input, e, replies, ptr, len)
        },
    decreases replies.len(),
{
    if replies.len() > 0 {
        let front = replies.drop_last();
        lemma_call_sound(input, e, front);
        let state = after_replies(input, e, front).0;
        match (state, replies.last()) {
            (StateSpec::Allocating(b), ReplySpec::Address(ptr, size)) => {
                let len = b.len() as i32;
                if alloc_fault(ptr, len, size) is None {
                    assert(allocated(input, e, replies, ptr, len));
                }
            },
            (StateSpec::Running(ptr, len), ReplySpec::Output(out_ptr, out_len, memory)) => {
                assert(front[0] == replies[0]);
                assert(allocated(input, e, replies, ptr, len));
                let f = frees(ptr, len, out_ptr, out_len);
                assert(f.skip(0) =~= f);
            },
            (StateSpec::Freeing(v, steps), ReplySpec::Freed) => {
                let (ptr, len) = choose|ptr: i32, len: i32|
                    {
                        &&& #[trigger] allocated(input, e, front, ptr, len)
                        &&& returned(front, v)
                        &&& freed(front, ptr, len, steps)
                    };
                assert(front[0] == replies[0] && front[1] == replies[1]);
                assert(allocated(input, e, replies, ptr, len));
                let f = frees(ptr, len, replies[1]->Output_0, replies[1]->Output_1);
                assert(steps == f.skip(front.len() - 2));
                if steps.len() > 0 {
                    assert(steps.skip(1) =~= f.skip(replies.len() - 2));
                }
            },
            _ => {},
        }
    }
}

/// The bytes that are written into a guest's memory are those of its input, they lie in the buffer
/// that it allocated for them, and `run` is called with that buffer.
pub proof fn lemma_run_gets_input(input: Val, e: Exports, replies: Seq<ReplySpec>)
    requires
        after_replies(input, e, replies).1 is WriteAndRun,
    ensures
        after_replies(input, e, replies).1 matches StepSpec::WriteAndRun { start, bytes, ptr, len }
            && {
            &&& bytes == input_bytes(input)
            &&& start == ptr
            &&& len == bytes.len()
            &&& replies.len() == 1
            &&& replies[0] matches ReplySpec::Address(p, size) && p == ptr && start + len <= size
        },
{
    lemma_call_sound(input, e, replies.drop_last());
}

/// A buffer is freed only once the output was read, and the buffers of a call are freed one by one,
/// each of them once, in the order in which they are listed.
pub proof fn lemma_read_before_free(input: Val, e: Exports, replies: Seq<ReplySpec>)
    requires
        after_replies(input, e, replies).1 is FreeTwo || after_replies(input, e, replies).1
            is FreeOne,
    ensures
        after_replies(input, e, replies).0 matches StateSpec::Freeing(v, steps) && {
            &&& returned(replies, v)
            &&& steps.len() > 0
            &&& after_replies(input, e, replies).1 == free_call(steps[0], e)
            &&& exists|ptr: i32, len: i32| #[trigger]
                allocated(input, e, replies, ptr, len) && freed(replies, ptr, len, steps)
        },
{
    lemma_call_sound(input, e, replies);
}

/// The binary form of a WebAssembly module in text form, if it is one.
pub uninterp spec fn wat_parse(text: Seq<char>) -> Option<Seq<u8>>;

/// `wat::parse_str`.
#[verifier::external_body]
fn wat_bytes(text: &str) -> (r: Option<Vec<u8>>)
    ensures
        match r {
            Some(b) => wat_parse(text@) == Some(b@),
            None => wat_parse(text@) is None,
        },
{
    wat::parse_str(text).ok()
}

/// The binary form of a guest's code.
pub fn compile_guest(code: &str) -> (r: Result<Vec<u8>, String>)
    ensures
        match r {
            Ok(b) => wat_parse(code@) == Some(b@),
            Err(e) => wat_parse(code@) is None && e@ == "failed to parse WAT code"@,
        },
{
    match wat_bytes(code) {
        Some(b) => Ok(b),
        None => Err("failed to parse WAT code".to_owned()),
    }
}

/// The bytes of a memory of that many pages.
pub fn memory_bytes(pages: u64) -> (r: u128)
    ensures
        r == pages * 65536,
{
    pages as u128 * 65536
}

/// The line that tells what a call of a guest took.
pub fn metrics_line(duration_ms: u128, fuel_consumed: u64, memory_allocated: u128) -> (r: String)
    ensures
        r@ == "[METRICS][GuestModule] duration_ms="@ + numeral(duration_ms as nat)
            + " fuel_consumed="@ + numeral(fuel_consumed as nat) + " memory_allocated_bytes="@
            + numeral(memory_allocated as nat),
{
    let mut r = cat5(
        "[METRICS][GuestModule] duration_ms=",
        unsigned_text(duration_ms).as_str(),
        " fuel_consumed=",
        unsigned_text(fuel_consumed as u128).as_str(),
        " memory_allocated_bytes=",
    );
    r.append(unsigned_text(memory_allocated).as_str());
    r
}

/// What is said of a guest that took too long.
pub fn timeout_message(timeout_ms: u64) -> (r: String)
    ensures
        r@ == "Guest exceeded CPU fuel quota after "@ + numeral(timeout_ms as nat) + "ms"@,
{
    cat3(
        "Guest exceeded CPU fuel quota after ",
        unsigned_text(timeout_ms as u128).as_str(),
        "ms",
    )
}

/// The line that tells of a guest that took too long.
pub fn timeout_line(timeout_ms: u64) -> (r: String)
    ensures
        r@ == "[ERROR][Runtime] "@ + ("Guest exceeded CPU fuel quota after "@ + numeral(
            timeout_ms as nat,
        ) + "ms"@),
{
    cat("[ERROR][Runtime] ", timeout_message(timeout_ms).as_str())
}

/// Whether a host serves reads of a key as [`store_get`] does from those contents: its reply has the
/// code that is due, and the bytes that are due stand at the beginning of the buffer.
pub open spec fn serves(
    host: spec_fn(usize) -> (i32, Seq<u8>),
    c: Contents,
    scopes: Seq<Seq<char>>,
    key: Seq<char>,
) -> bool {
    forall|size: usize|
        exists|r: WriteReply|
            {
                &&& #[trigger] found_reply(
                    stored_view(lookup(c, scoped(scopes, key))),
                    key,
                    r.start,
                    size,
                    r,
                )
                &&& (#[trigger] host(size)).0 == r.code
                &&& r.bytes@.len() <= host(size).1.len()
                &&& host(size).1.take(r.bytes@.len() as int) == r.bytes@
            }
}

/// A guest gets what it has set: once [`store_set`] has stored the bytes of a value under a key, and
/// as long as that key is not written again, a guest whose reads [`store_get`] serves gets the value
/// back, in at most two tries, however long its bytes are.
pub proof fn lemma_guest_gets_what_it_set<T>(
    v: T,
    encode: spec_fn(T) -> Seq<u8>,
    decode: spec_fn(Seq<u8>) -> Result<T, Seq<char>>,
    c: Contents,
    scopes: Seq<Seq<char>>,
    key: Seq<char>,
    host: spec_fn(usize) -> (i32, Seq<u8>),
)
    requires
        decode(encode(v)) == Result::<T, Seq<char>>::Ok(v),
        0 < encode(v).len() <= i32::MAX - 10,
        reads_back(val_tree(Val::Bytes(encode(v)))),
        lookup(c, scoped(scopes, key)) == Some(stored(val_tree(Val::Bytes(encode(v))))),
        serves(host, c, scopes, key),
    ensures
        got(host, decode, FIRST_BUFFER_SIZE, 1) == Some(
            Result::<Option<T>, PdkFault>::Ok(Some(v)),
        ),
{
    let bytes = encode(v);
    let b = Val::Bytes(bytes);
    lemma_entry_found(c, scoped(scopes, key), b, b, key);
    assert(stored_view(lookup(c, scoped(scopes, key))) == Result::<Option<Val>, Seq<char>>::Ok(
        Some(b),
    ));
    assert forall|size: usize|
        if bytes.len() > size {
            (#[trigger] host(size)).0 == -10 - bytes.len()
        } else {
            host(size).0 == bytes.len() && bytes.len() <= host(size).1.len() && host(size).1.take(
                bytes.len() as int,
            ) == bytes
        } by {
        let r = choose|r: WriteReply|
            {
                &&& #[trigger] found_reply(
                    stored_view(lookup(c, scoped(scopes, key))),
                    key,
                    r.start,
                    size,
                    r,
                )
                &&& (#[trigger] host(size)).0 == r.code
                &&& r.bytes@.len() <= host(size).1.len()
                &&& host(size).1.take(r.bytes@.len() as int) == r.bytes@
            };
        assert(found_reply(Ok(Some(b)), key, r.start, size, r));
    }
    lemma_get_after_set(v, encode, decode, host);
}

/// A guest can read its input from the bytes that it is handed: of an integer they are a decimal
/// numeral of it, of a text its characters, of bytes those bytes, and of any other value its JSON
/// text.
pub proof fn lemma_input_read(v: Val)
    ensures
        v matches Val::Int(i) ==> valid_utf8(input_bytes(v)) && input_bytes(v).len() > 0 && signed_value(
            decode_utf8(input_bytes(v)),
        ) == Some(i as int),
        v matches Val::Text(s) ==> valid_utf8(input_bytes(v)) && decode_utf8(input_bytes(v)) == s,
        v matches Val::Bytes(b) ==> input_bytes(v) == b,
        !(v is Int) && !(v is Text) && !(v is Bytes) ==> valid_utf8(input_bytes(v)) && decode_utf8(
            input_bytes(v),
        ) == json_text(val_tree(v)),
{
    match v {
        Val::Int(i) => {
            let s = signed_numeral(i as int);
            lemma_signed_numeral_read(i as int);
            encode_utf8_valid_utf8(s);
            encode_utf8_decode_utf8(s);
            if encode_utf8(s).len() == 0 {
                assert(decode_utf8(encode_utf8(s)).len() == 0);
            }
        },
        Val::Text(s) => {
            encode_utf8_valid_utf8(s);
            encode_utf8_decode_utf8(s);
        },
        Val::Bytes(_) => {},
        _ => {
            encode_utf8_valid_utf8(json_text(val_tree(v)));
            encode_utf8_decode_utf8(json_text(val_tree(v)));
        },
    }
}

/// Different integers are handed over as different bytes.
pub proof fn lemma_integers_apart(i: i64, j: i64)
    requires
        i != j,
    ensures
        input_bytes(Val::Int(i)) != input_bytes(Val::Int(j)),
{
    lemma_input_read(Val::Int(i));
    lemma_input_read(Val::Int(j));
}

/// What a guest returns is what its output holds: the text of the bytes if they are one, else the
/// bytes.
pub proof fn lemma_output_read(memory: Seq<u8>, ptr: i32, len: i32)
    requires
        output_fault(memory, ptr, len) is None,
    ensures
        len == 0 ==> output_val(memory, ptr, len) == Val::Bytes(Seq::empty()),
        len != 0 ==> 0 <= ptr && 0 < len && ptr + len <= memory.len() && match output_val(
            memory,
            ptr,
            len,
        ) {
            Val::Text(s) => encode_utf8(s) == memory.subrange(ptr as int, ptr + len),
            Val::Bytes(b) => b == memory.subrange(ptr as int, ptr + len) && !valid_utf8(b),
            _ => false,
        },
{
    if len != 0 {
        let b = region(memory, ptr as int, len as int);
        if valid_utf8(b) {
            decode_utf8_encode_utf8(b);
        }
    }
}

/// A guest that returns the buffer it was handed gives back its input: a text as that text, an integer
/// as a numeral of it, and bytes that are no text as those bytes.
pub proof fn lemma_echo(v: Val, memory: Seq<u8>, ptr: i32, len: i32)
    requires
        0 <= ptr,
        0 < len == input_bytes(v).len(),
        ptr + len <= memory.len(),
        memory.subrange(ptr as int, ptr + len) == input_bytes(v),
    ensures
        output_fault(memory, ptr, len) is None,
        v is Text ==> output_val(memory, ptr, len) == v,
        v matches Val::Int(i) ==> (output_val(memory, ptr, len) matches Val::Text(s) && signed_value(s)
            == Some(i as int)),
        v matches Val::Bytes(b) ==> (!valid_utf8(b) ==> output_val(memory, ptr, len) == v),
{
    lemma_input_read(v);
}

/// A range of memory is accepted if and only if it lies inside of it.
pub proof fn lemma_bounds_kept(ptr: i32, len: i32, size: nat)
    ensures
        bounds_fault(ptr, len, size) is None <==> 0 <= ptr && 0 <= len && ptr + len <= size,
        alloc_fault(ptr, len, size) is None <==> 0 <= ptr && 0 <= len && ptr + len <= size,
        ptr < 0 ==> bounds_fault(ptr, len, size) == Some(
            "wasm pointer must be a non-negative 32-bit integer"@,
        ) && alloc_fault(ptr, len, size) == Some("wasm alloc returned negative pointer"@),
        ptr >= 0 && len < 0 ==> bounds_fault(ptr, len, size) == Some(
            "wasm buffer length must be a non-negative 32-bit integer"@,
        ),
        ptr >= 0 && len >= 0 && ptr + len > size ==> bounds_fault(ptr, len, size) == Some(
            "wasm memory access out of bounds: ptr="@ + numeral(ptr as nat) + " len="@ + numeral(
                len as nat,
            ) + " memory_size="@ + numeral(size),
        ),
{
}

/// A region is accepted if and only if its end is an address and lies inside of the memory.
pub proof fn lemma_region_kept(what: Seq<char>, kind: Seq<char>, start: nat, len: nat, size: nat)
    ensures
        region_fault(what, kind, start as int, len as int, size) is None <==> start + len <= size
            && start + len <= u64::MAX,
        region_fault(what, kind, start as int, len as int, size) matches Some(e) ==> e.len() >= what.len()
            && e.take(what.len() as int) == what,
        start + len <= u64::MAX && start + len > size ==> region_fault(
            what,
            kind,
            start as int,
            len as int,
            size,
        ) == Some(
            what + kind + " out of bounds ("@ + numeral(start) + ".."@ + numeral(start + len) + " / "@
                + numeral(size) + ")"@,
        ),
{
    match region_fault(what, kind, start as int, len as int, size) {
        Some(e) => {
            assert(e.take(what.len() as int) =~= what);
        },
        None => {},
    }
}

/// A number that a guest passes stands for an address of 64 bits with the same low bits, and its sign
/// in all the others.
pub proof fn lemma_address(x: i32)
    ensures
        0 <= address(x) <= u64::MAX,
        (address(x) - x) % 0x1_0000_0000_0000_0000 == 0,
        x >= 0 ==> address(x) == x,
        x < 0 ==> address(x) > u64::MAX - 0x8000_0000,
{
}

/// What is left of a number in 32 bits has the same low bits, so a small number is left as it is. The
/// reply for a buffer that is too small tells the size that is needed.
pub proof fn lemma_cut(x: int, len: nat)
    ensures
        i32::MIN <= cut_i32(x) <= i32::MAX,
        (x - cut_i32(x)) % 0x1_0000_0000 == 0,
        i32::MIN <= x <= i32::MAX ==> cut_i32(x) == x,
        len <= i32::MAX - 10 ==> too_small_code(len) == -10 - len,
{
}

/// A guest that takes a number is called with the integer that its input is, or that its input is a
/// numeral of; no other input will do.
pub proof fn lemma_number_read(v: Val)
    ensures
        v matches Val::Int(i) ==> (i32_input(v) is Ok <==> -0x8000_0000 <= i <= 0x7fff_ffff) && (
        i32_input(v) matches Ok(n) ==> n == i),
        v matches Val::Text(s) ==> match i32_input(v) {
            Ok(n) => i32_value(s) == Some(n as int),
            Err(_) => i32_value(s) is None,
        },
        forall|i: i32|
            i32_input(Val::Text(#[trigger] signed_numeral(i as int))) == Result::<i32, Seq<char>>::Ok(
                i,
            ),
        !(v is Int) && !(v is Text) ==> i32_input(v) == Result::<i32, Seq<char>>::Err(
            "wasm numeric run requires an integer input, got "@ + json_text(val_tree(v)),
        ),
{
    assert forall|i: i32| i32_input(Val::Text(#[trigger] signed_numeral(i as int))) == Result::<
        i32,
        Seq<char>,
    >::Ok(i) by {
        lemma_signed_numeral_read(i as int);
    }
}

/// A setting that is the numeral of a number of 64 bits gives that number. Without a setting a guest
/// may burn a million units of fuel and take five seconds, and so it may with one that is no number.
pub proof fn lemma_settings(n: u64, setting: Option<Seq<char>>, default: u64)
    ensures
        setting_value(Some(numeral(n as nat)), default) == n,
        setting_value(None, default) == default,
        setting matches Some(s) ==> ((exists|i: int|
            0 <= i < s.len() && !('0' <= #[trigger] s[i] <= '9') && s[i] != '+') ==> setting_value(
            setting,
            default,
        ) == default),
        setting_value(None, DEFAULT_WASM_FUEL_LIMIT) == 1_000_000,
        setting_value(None, DEFAULT_WASM_TIMEOUT_MS) == 5_000,
{
    lemma_unsigned_read(n as nat, u64::MAX as nat + 1);
    if let Some(s) = setting {
        let digits = unsigned_digits(s);
        lemma_digits_read(digits);
        if exists|i: int| 0 <= i < s.len() && !('0' <= #[trigger] s[i] <= '9') && s[i] != '+' {
            let i = choose|i: int| 0 <= i < s.len() && !('0' <= #[trigger] s[i] <= '9') && s[i] != '+';
            if s[0] == '+' {
                assert(digits[i - 1] == s[i]);
            } else {
                assert(digits[i] == s[i]);
            }
        }
    }
}

/// A guest that ran out of fuel is said to have; of any other failure the message is passed on.
pub proof fn lemma_fuel_told(message: Seq<char>)
    ensures
        execution_message(message) == if occurs(message, "all fuel consumed"@) || occurs(
            message,
            "out of fuel"@,
        ) {
            "WASM Execution Timeout / Fuel Exhausted"@
        } else {
            message
        },
{
}

/// How a guest is first called: with a number if it takes one, else by asking it for a buffer as long
/// as its input; one that takes neither is not called.
pub proof fn lemma_first_call(input: Val, e: Exports)
    ensures
        e.numeric_run ==> match i32_input(input) {
            Ok(n) => first_step(input, e).1 == StepSpec::RunNumber(n),
            Err(m) => first_step(input, e).1 matches StepSpec::Fail { message, .. } && message == m,
        },
        !e.numeric_run && e.alloc && e.buffer_run && e.memory && input_bytes(input).len() <= i32::MAX
            ==> first_step(input, e).1 == StepSpec::Alloc(input_bytes(input).len() as i32),
        !e.numeric_run && e.alloc && e.buffer_run && input_bytes(input).len() > i32::MAX ==> (first_step(
            input,
            e,
        ).1 matches StepSpec::Fail { message, .. } && message == "wasm input payload is too large"@),
        !e.numeric_run && e.alloc && e.buffer_run && !e.memory && input_bytes(input).len() <= i32::MAX
            ==> (first_step(input, e).1 matches StepSpec::Fail { message, .. } && message
            == "wasm module missing exported memory for alloc/run interop"@),
        !e.numeric_run && !(e.alloc && e.buffer_run) ==> (first_step(
            input,
            e,
        ).1 matches StepSpec::Fail { message, .. } && message
            == "wasm module does not export a supported run signature"@),
{
}

/// What is handed back of a call is what the guest returned: the number, or what its output holds.
pub proof fn lemma_call_returns(input: Val, e: Exports, replies: Seq<ReplySpec>)
    requires
        after_replies(input, e, replies).1 is Finish,
    ensures
        after_replies(input, e, replies).1 matches StepSpec::Finish(v) && {
            ||| e.numeric_run && replies.len() == 1 && (replies[0] matches ReplySpec::Number(n) && v
                == Val::Int(n as i64))
            ||| !e.numeric_run && replies.len() >= 2 && (replies[0] is Address) && (
            replies[1] matches ReplySpec::Output(ptr, len, memory) && output_fault(memory, ptr, len)
                is None && v == output_val(memory, ptr, len))
        },
{
    let before = replies.drop_last();
    lemma_call_sound(input, e, before);
    let state = after_replies(input, e, before).0;
    match state {
        StateSpec::Counting => {
            assert(replies[0] == replies.last());
        },
        StateSpec::Running(ptr, len) => {
            assert(before[0] == replies[0]);
            assert(replies[1] == replies.last());
        },
        StateSpec::Freeing(v, steps) => {
            assert(before[0] == replies[0] && before[1] == replies[1]);
        },
        _ => {},
    }
}

/// What a guest asks to be stored is read if and only if its memory is there, both regions lie inside
/// of it, and the key is a text.
pub proof fn lemma_set_requests(
    memory: Option<Seq<u8>>,
    key_ptr: i32,
    key_len: i32,
    value_ptr: i32,
    value_len: i32,
)
    requires
        memory matches Some(m) ==> m.len() <= i64::MAX,
    ensures
        set_fault(memory, key_ptr, key_len, value_ptr, value_len) is None <==> (
        memory matches Some(m) && 0 <= key_ptr && 0 <= key_len && 0 <= value_ptr && 0 <= value_len
            && key_ptr + key_len <= m.len() && value_ptr + value_len <= m.len() && valid_utf8(
            m.subrange(key_ptr as int, key_ptr + key_len),
        )),
        memory is None ==> set_fault(memory, key_ptr, key_len, value_ptr, value_len) == Some(
            "store_set: guest memory export not available"@,
        ),
{
}

/// What a guest asks to be read is read if and only if its memory is there, both regions lie inside of
/// it, and the key is a text.
pub proof fn lemma_get_requests(
    memory: Option<Seq<u8>>,
    key_ptr: i32,
    key_len: i32,
    dest_ptr: i32,
    dest_max_len: i32,
)
    requires
        memory matches Some(m) ==> m.len() <= i64::MAX,
    ensures
        get_fault(memory, key_ptr, key_len, dest_ptr, dest_max_len) is None <==> (
        memory matches Some(m) && 0 <= key_ptr && 0 <= key_len && 0 <= dest_ptr && 0 <= dest_max_len
            && key_ptr + key_len <= m.len() && dest_ptr + dest_max_len <= m.len() && valid_utf8(
            m.subrange(key_ptr as int, key_ptr + key_len),
        )),
        memory is None ==> get_fault(memory, key_ptr, key_len, dest_ptr, dest_max_len) == Some(
            "store_get: guest memory export not available"@,
        ),
{
}

/// An asset is asked for if and only if the guest's memory is there, the path and the destination lie
/// inside of it, and the path is a text.
pub proof fn lemma_asset_requests(
    memory: Option<Seq<u8>>,
    path_ptr: u32,
    path_len: u32,
    dest_ptr: u32,
    dest_max_len: u32,
)
    ensures
        asset_fault(memory, path_ptr, path_len, dest_ptr, dest_max_len) is None <==> (
        memory matches Some(m) && path_ptr + path_len <= m.len() && dest_ptr + dest_max_len <= m.len()
            && valid_utf8(m.subrange(path_ptr as int, path_ptr + path_len))),
        memory is None ==> asset_fault(memory, path_ptr, path_len, dest_ptr, dest_max_len) == Some(
            "asset_request: guest memory export not available"@,
        ),
{
}

/// What a guest is told of what it reads: the bytes and how many they are if there is room for them, the
/// size that is needed if there is not, and that there is no value or none of bytes.
pub proof fn lemma_read_replies(
    found: Result<Option<Val>, Seq<char>>,
    key: Seq<char>,
    start: usize,
    room: usize,
    r: WriteReply,
)
    requires
        found_reply(found, key, start, room, r),
    ensures
        found matches Ok(Some(Val::Bytes(b))) ==> (b.len() <= i32::MAX - 10 ==> if b.len() <= room {
            r.code == b.len() && r.bytes@ == b && r.start == start
        } else {
            r.code == -10 - b.len() && r.bytes@.len() == 0
        }),
        found matches Ok(None) ==> r.code == -2 && r.bytes@.len() == 0 && r.warning is None,
        found matches Ok(Some(v)) ==> (!(v is Bytes) ==> r.code == -4 && r.bytes@.len() == 0 && warned(
            r.warning,
        ) == Some("store_get: stored value for '"@ + key + "' was not binary"@)),
        found matches Err(e) ==> r.code == -4 && r.bytes@.len() == 0 && warned(r.warning) == Some(
            "store_get: host storage error: "@ + e,
        ),
{
}

/// A call that ends before the guest runs counts as metered if and only if the guest has nothing that
/// could be run.
pub proof fn lemma_metering(input: Val, e: Exports)
    ensures
        first_step(input, e).1 matches StepSpec::Fail { metered, .. } ==> (metered <==> !e.numeric_run && (
        !e.alloc || !e.buffer_run)),
{
}

/// A setting that is too large for its place counts as no setting.
pub proof fn lemma_large_setting(n: nat, default: u64)
    requires
        n > u64::MAX,
    ensures
        setting_value(Some(numeral(n)), default) == default,
{
    crate::text::lemma_unsigned_read(n, u64::MAX as nat + 1);
}

/// A reply that no step asked for ends the call.
pub proof fn lemma_out_of_turn(e: Exports, reply: ReplySpec, bytes: Seq<u8>, ptr: i32, len: i32)
    ensures
        next_step(StateSpec::Over, e, reply).1 == (StepSpec::Fail {
            message: "guest replied out of turn"@,
            metered: false,
        }),
        !(reply is Number) && !(reply is Failed) ==> (next_step(
            StateSpec::Counting,
            e,
            reply,
        ).1 matches StepSpec::Fail { message, .. } && message == "guest replied out of turn"@),
        !(reply is Address) && !(reply is Failed) ==> (next_step(
            StateSpec::Allocating(bytes),
            e,
            reply,
        ).1 matches StepSpec::Fail { message, .. } && message == "guest replied out of turn"@),
        !(reply is Output) && !(reply is Failed) ==> (next_step(
            StateSpec::Running(ptr, len),
            e,
            reply,
        ).1 matches StepSpec::Fail { message, .. } && message == "guest replied out of turn"@),
{
}

/// When the guest has put out something, what it was lent is freed, the output first, each buffer
/// once, and then the call returns the output. A guest that cannot free is not asked to.
pub proof fn lemma_call_frees(
    e: Exports,
    ptr: i32,
    len: i32,
    out_ptr: i32,
    out_len: i32,
    memory: Seq<u8>,
)
    requires
        output_fault(memory, out_ptr, out_len) is None,
    ensures
        ({
            let v = output_val(memory, out_ptr, out_len);
            let (s1, c1) = next_step(StateSpec::Running(ptr, len), e, ReplySpec::Output(out_ptr, out_len, memory));
            let (s2, c2) = next_step(s1, e, ReplySpec::Freed);
            let (s3, c3) = next_step(s2, e, ReplySpec::Freed);
            &&& !e.free_two && !e.free_one ==> c1 == StepSpec::Finish(v)
            &&& e.free_two && (out_len == 0 || out_ptr == ptr && out_len == len) ==> c1
                == StepSpec::FreeTwo(ptr, len) && c2 == StepSpec::Finish(v)
            &&& e.free_two && out_len != 0 && (out_ptr != ptr || out_len != len) ==> c1
                == StepSpec::FreeTwo(out_ptr, out_len) && c2 == StepSpec::FreeTwo(ptr, len) && c3
                == StepSpec::Finish(v)
            &&& !e.free_two && e.free_one && (out_len == 0 || out_ptr == ptr && out_len == len) ==> c1
                == StepSpec::FreeOne(ptr) && c2 == StepSpec::Finish(v)
            &&& !e.free_two && e.free_one && out_len != 0 && (out_ptr != ptr || out_len != len) ==> c1
                == StepSpec::FreeOne(out_ptr) && c2 == StepSpec::FreeOne(ptr) && c3 == StepSpec::Finish(v)
        }),
{
    let steps = frees(ptr, len, out_ptr, out_len);
    if steps.len() == 2 {
        assert(steps.skip(1)[0] == steps[1]);
        assert(steps.skip(1).skip(1).len() == 0);
    } else {
        assert(steps.skip(1).len() == 0);
    }
}

/// A buffer that cannot be freed ends the call, and the message says which buffer it was.
pub proof fn lemma_unfreed_named(
    e: Exports,
    ptr: i32,
    len: i32,
    out_ptr: i32,
    out_len: i32,
    memory: Seq<u8>,
    m: Seq<char>,
)
    requires
        output_fault(memory, out_ptr, out_len) is None,
        e.free_two || e.free_one,
    ensures
        ({
            let s1 = next_step(
                StateSpec::Running(ptr, len),
                e,
                ReplySpec::Output(out_ptr, out_len, memory),
            ).0;
            let failed = next_step(s1, e, ReplySpec::Failed(m)).1;
            let later = next_step(next_step(s1, e, ReplySpec::Freed).0, e, ReplySpec::Failed(m)).1;
            &&& out_len == 0 ==> (failed matches StepSpec::Fail { message, .. } && message
                == "failed to free input buffer in wasm module"@)
            &&& out_len != 0 && out_ptr == ptr && out_len == len ==> (
            failed matches StepSpec::Fail { message, .. } && message == "failed to free shared wasm buffer"@)
            &&& out_len != 0 && (out_ptr != ptr || out_len != len) ==> (
            failed matches StepSpec::Fail { message, .. } && message
                == "failed to free output buffer in wasm module"@) && (
            later matches StepSpec::Fail { message, .. } && message
                == "failed to free input buffer in wasm module"@)
        }),
{
    let steps = frees(ptr, len, out_ptr, out_len);
    if steps.len() == 2 {
        assert(steps.skip(1)[0] == steps[1]);
    }
}

/// A region that ends behind every address is named as one that overflows. What a guest asks of the
/// store with a key outside of its memory is refused by the name of the request and of the region.
pub proof fn lemma_regions_named(
    m: Seq<u8>,
    what: Seq<char>,
    kind: Seq<char>,
    start: nat,
    len: nat,
    size: nat,
    k: i32,
    l: i32,
    p: i32,
    q: i32,
)
    ensures
        start + len > u64::MAX ==> region_fault(what, kind, start as int, len as int, size) == Some(
            what + " pointer overflow"@,
        ),
        k >= 0 && l >= 0 && m.len() < k + l ==> set_fault(Some(m), k, l, p, q) == Some(
            "store_set: key"@ + " region"@ + " out of bounds ("@ + numeral(k as nat) + ".."@ + numeral(
                (k + l) as nat,
            ) + " / "@ + numeral(m.len()) + ")"@,
        ) && get_fault(Some(m), k, l, p, q) == Some(
            "store_get: key"@ + " region"@ + " out of bounds ("@ + numeral(k as nat) + ".."@ + numeral(
                (k + l) as nat,
            ) + " / "@ + numeral(m.len()) + ")"@,
        ),
        k >= 0 && l >= 0 && p >= 0 && q >= 0 && k + l <= m.len() && m.len() < p + q ==> set_fault(
            Some(m),
            k,
            l,
            p,
            q,
        ) == Some(
            "store_set: value"@ + " region"@ + " out of bounds ("@ + numeral(p as nat) + ".."@ + numeral(
                (p + q) as nat,
            ) + " / "@ + numeral(m.len()) + ")"@,
        ),
        k >= 0 && l >= 0 && p >= 0 && q >= 0 && k + l <= m.len() && m.len() < p + q && valid_utf8(
            m.subrange(k as int, k + l),
        ) ==> get_fault(Some(m), k, l, p, q) == Some(
            "store_get: destination"@ + " region"@ + " out of bounds ("@ + numeral(p as nat) + ".."@
                + numeral((p + q) as nat) + " / "@ + numeral(m.len()) + ")"@,
        ),
{
    lemma_region_kept(what, kind, start, len, size);
}

} // verus!
