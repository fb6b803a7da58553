//! The guest's side of the host interface: what it logs, and what the host's replies mean.

use crate::text::{cat, cat3, signed_text, size_text};
use crate::text::{numeral, signed_numeral};
use vstd::prelude::*;
use vstd::slice::{slice_subrange, slice_to_vec};

verus! {

/// What can go wrong in a guest that calls its host.
#[derive(Debug)]
pub enum PdkError {
    /// Serialization failed while preparing data for host storage.
    Serialization(String),
    /// Deserialization failed while reading data from the host store.
    Deserialization(String),
    /// The host store is not configured for this guest.
    StoreNotConfigured,
    /// The requested key is not present in the store.
    StoreKeyNotFound,
    /// The host store reported an I/O or host-side error.
    StoreHostError(String),
    /// The host store value was larger than the provided buffer.
    StoreBufferTooSmall(usize),
    /// Logging could not be delivered to the host.
    LogHostError(String),
}

/// What a [`PdkError`] says.
pub enum PdkFault {
    Serialization(Seq<char>),
    Deserialization(Seq<char>),
    StoreNotConfigured,
    StoreKeyNotFound,
    StoreHostError(Seq<char>),
    StoreBufferTooSmall(usize),
    LogHostError(Seq<char>),
}

/// The message for a fault.
pub open spec fn pdk_message(f: PdkFault) -> Seq<char> {
    match f {
        PdkFault::Serialization(e) => "serialization error: "@ + e,
        PdkFault::Deserialization(e) => "deserialization error: "@ + e,
        PdkFault::StoreNotConfigured => "store is not configured for this guest"@,
        PdkFault::StoreKeyNotFound => "store key not found"@,
        PdkFault::StoreHostError(e) => "store host error: "@ + e,
        PdkFault::StoreBufferTooSmall(n) => "store buffer too small; required "@ + numeral(n as nat)
            + " bytes"@,
        PdkFault::LogHostError(e) => "log host error: "@ + e,
    }
}

impl PdkError {
    pub open spec fn view(&self) -> PdkFault {
        match self {
            PdkError::Serialization(e) => PdkFault::Serialization(e@),
            PdkError::Deserialization(e) => PdkFault::Deserialization(e@),
            PdkError::StoreNotConfigured => PdkFault::StoreNotConfigured,
            PdkError::StoreKeyNotFound => PdkFault::StoreKeyNotFound,
            PdkError::StoreHostError(e) => PdkFault::StoreHostError(e@),
            PdkError::StoreBufferTooSmall(n) => PdkFault::StoreBufferTooSmall(*n),
            PdkError::LogHostError(e) => PdkFault::LogHostError(e@),
        }
    }

    /// The message for the user.
    pub fn message(&self) -> (r: String)
        ensures
            r@ == pdk_message(self@),
    {
        match self {
            PdkError::Serialization(e) => cat("serialization error: ", e.as_str()),
            PdkError::Deserialization(e) => cat("deserialization error: ", e.as_str()),
            PdkError::StoreNotConfigured => "store is not configured for this guest".to_owned(),
            PdkError::StoreKeyNotFound => "store key not found".to_owned(),
            PdkError::StoreHostError(e) => cat("store host error: ", e.as_str()),
            PdkError::StoreBufferTooSmall(n) => cat3(
                "store buffer too small; required ",
                size_text(*n).as_str(),
                " bytes",
            ),
            PdkError::LogHostError(e) => cat("log host error: ", e.as_str()),
        }
    }
}

/// The line that a guest logs.
pub open spec fn log_line(level: Seq<char>, message: Seq<char>) -> Seq<char> {
    "[GUEST]["@ + level + "] "@ + message
}

fn host_log_message(level: &str, message: &str) -> (r: String)
    ensures
        r@ == log_line(level@, message@),
{
    let mut r = cat3("[GUEST][", level, "] ");
    r.append(message);
    r
}

/// The line for the host's log that tells an `INFO` message from the guest.
pub fn log_info(message: &str) -> (r: String)
    ensures
        r@ == log_line("INFO"@, message@),
{
    host_log_message("INFO", message)
}

/// The line for the host's log that tells a `WARN` message from the guest.
pub fn log_warn(message: &str) -> (r: String)
    ensures
        r@ == log_line("WARN"@, message@),
{
    host_log_message("WARN", message)
}

/// The line for the host's log that tells an `ERROR` message from the guest.
pub fn log_error(message: &str) -> (r: String)
    ensures
        r@ == log_line("ERROR"@, message@),
{
    host_log_message("ERROR", message)
}

/// The line for the host's log that tells of a panic in the guest: where it happened, as a file
/// and a line, and with what message, as far as these are known.
pub fn panic_line(place: Option<(&str, u32)>, payload: Option<&str>) -> (r: String)
    ensures
        r@ == log_line(
            "ERROR"@,
            "panic at "@ + match place {
                Some(p) => p.0@ + ":"@ + numeral(p.1 as nat),
                None => "unknown location"@,
            } + ": "@ + match payload {
                Some(s) => s@,
                None => "unknown panic payload"@,
            },
        ),
{
    let place = match place {
        Some((file, line)) => cat3(file, ":", size_text(line as usize).as_str()),
        None => "unknown location".to_owned(),
    };
    let payload = match payload {
        Some(s) => s.to_owned(),
        None => "unknown panic payload".to_owned(),
    };
    let mut message = cat3("panic at ", place.as_str(), ": ");
    message.append(payload.as_str());
    log_error(message.as_str())
}

/// What a negative reply of the host's store means.
pub open spec fn errno_fault(code: i32) -> PdkFault {
    if code == -1 {
        PdkFault::StoreNotConfigured
    } else if code == -2 {
        PdkFault::StoreKeyNotFound
    } else if code == -3 {
        PdkFault::StoreHostError("invalid guest memory reference"@)
    } else if code <= -10 {
        PdkFault::StoreBufferTooSmall((-code - 10) as usize)
    } else {
        PdkFault::StoreHostError("unexpected host error code "@ + signed_numeral(code as int))
    }
}

/// The error that a reply of the host's store stands for.
pub fn errno_message(code: i32) -> (r: PdkError)
    ensures
        r@ == errno_fault(code),
{
    if code == -1 {
        PdkError::StoreNotConfigured
    } else if code == -2 {
        PdkError::StoreKeyNotFound
    } else if code == -3 {
        PdkError::StoreHostError("invalid guest memory reference".to_owned())
    } else if code <= -10 {
        PdkError::StoreBufferTooSmall(required_size(code))
    } else {
        PdkError::StoreHostError(
            cat("unexpected host error code ", signed_text(code as i64).as_str()),
        )
    }
}

/// The size that a reply asks for.
fn required_size(code: i32) -> (r: usize)
    requires
        code <= -10,
    ensures
        r == -code - 10,
{
    (-(code + 10)) as usize
}

/// What a reply to storing a value means.
pub fn set_outcome(code: i32) -> (r: Result<(), PdkError>)
    ensures
        r is Ok <==> code == 0,
        r matches Err(e) ==> e@ == errno_fault(code),
{
    if code == 0 {
        Ok(())
    } else {
        Err(errno_message(code))
    }
}

/// Stores a value: its bytes, if it could be written, are handed to the host, which replies with a
/// code.
pub fn set<H: Fn(Vec<u8>) -> i32>(written: Result<Vec<u8>, String>, host: H) -> (r: Result<
    (),
    PdkError,
>)
    requires
        forall|bytes: Vec<u8>| host.requires((bytes,)),
    ensures
        match written {
            Ok(bytes) => exists|code: i32| #[trigger]
                host.ensures((bytes,), code) && (r is Ok <==> code == 0) && (r matches Err(e) ==> e@
                    == errno_fault(code)),
            Err(e) => r matches Err(x) && x@ == PdkFault::Serialization(e@),
        },
{
    match written {
        Ok(bytes) => {
            let code: i32 = host(bytes);
            set_outcome(code)
        },
        Err(e) => Err(PdkError::Serialization(e)),
    }
}

/// What a guest does on a reply to reading a value.
#[derive(Debug)]
pub enum ReadStep {
    /// There is no value.
    Missing,
    /// Ask again, with a buffer of that size.
    Retry(usize),
    /// The first bytes of the buffer, that many, hold the value.
    Ready(usize),
    /// The value cannot be read.
    Failed(PdkError),
}

/// What a [`ReadStep`] says.
pub enum ReadMove {
    Missing,
    Retry(usize),
    Ready(usize),
    Failed(PdkFault),
}

impl ReadStep {
    pub open spec fn view(&self) -> ReadMove {
        match self {
            ReadStep::Missing => ReadMove::Missing,
            ReadStep::Retry(n) => ReadMove::Retry(*n),
            ReadStep::Ready(n) => ReadMove::Ready(*n),
            ReadStep::Failed(e) => ReadMove::Failed(e@),
        }
    }
}

/// The size of the buffer that a guest first offers.
pub const FIRST_BUFFER_SIZE: usize = 4096;

/// What a guest does on a reply to reading a value into a buffer of that size.
pub open spec fn read_move(buffer_len: usize, code: i32) -> ReadMove {
    if code == -1 {
        ReadMove::Missing
    } else if code == 0 {
        ReadMove::Failed(
            PdkFault::StoreHostError("store_get returned zero length for a non-empty request"@),
        )
    } else if code <= -10 {
        ReadMove::Retry((-code - 10) as usize)
    } else if code < 0 {
        ReadMove::Failed(errno_fault(code))
    } else if code > buffer_len {
        ReadMove::Failed(PdkFault::StoreBufferTooSmall(code as usize))
    } else {
        ReadMove::Ready(code as usize)
    }
}

/// What to do on a reply to reading a value into a buffer of that size.
pub fn read_step(buffer_len: usize, code: i32) -> (r: ReadStep)
    ensures
        r@ == read_move(buffer_len, code),
{
    if code == -1 {
        ReadStep::Missing
    } else if code == 0 {
        ReadStep::Failed(
            PdkError::StoreHostError(
                "store_get returned zero length for a non-empty request".to_owned(),
            ),
        )
    } else if code <= -10 {
        ReadStep::Retry(required_size(code))
    } else if code < 0 {
        ReadStep::Failed(errno_message(code))
    } else if code as usize > buffer_len {
        ReadStep::Failed(PdkError::StoreBufferTooSmall(code as usize))
    } else {
        ReadStep::Ready(code as usize)
    }
}

/// Whether that comes of reading the value from its bytes.
pub open spec fn decoded<T, D: Fn(Vec<u8>) -> Result<T, String>>(
    decode: D,
    bytes: Seq<u8>,
    r: Result<Option<T>, PdkError>,
) -> bool {
    exists|b: Vec<u8>, d: Result<T, String>|
        b@ == bytes && #[trigger] decode.ensures((b,), d) && match d {
            Ok(v) => r == Result::<Option<T>, PdkError>::Ok(Some(v)),
            Err(e) => r matches Err(x) && x@ == PdkFault::Deserialization(e@),
        }
}

/// Whether that comes of the host's last reply, which came with these bytes in a buffer of that
/// size.
pub open spec fn settled<T, D: Fn(Vec<u8>) -> Result<T, String>>(
    decode: D,
    size: usize,
    code: i32,
    buffer: Seq<u8>,
    r: Result<Option<T>, PdkError>,
) -> bool {
    match read_move(size, code) {
        ReadMove::Missing => r == Result::<Option<T>, PdkError>::Ok(None),
        ReadMove::Failed(f) => r matches Err(e) && e@ == f,
        ReadMove::Ready(n) => decoded(decode, buffer.take(n as int), r),
        ReadMove::Retry(_) => false,
    }
}

/// Whether a guest offers the host a buffer of that size: it is the first one, or the host asked for
/// it.
pub open spec fn offered<H: Fn(usize) -> (i32, Vec<u8>)>(host: H, size: usize) -> bool {
    size == FIRST_BUFFER_SIZE || exists|before: usize, reply: (i32, Vec<u8>)| #[trigger]
        host.ensures((before,), reply) && read_move(before, reply.0) == ReadMove::Retry(size)
}

/// Whether the reply, to a buffer of that size, is that of a host which holds these bytes: it replies
/// with their number and they are in the buffer, or it asks for a buffer that is large enough for
/// them.
pub open spec fn replies_with(bytes: Seq<u8>, size: usize, code: i32, buffer: Seq<u8>) -> bool {
    if bytes.len() > size {
        code == -10 - bytes.len()
    } else {
        code == bytes.len() && bytes.len() <= buffer.len() && buffer.take(bytes.len() as int)
            == bytes
    }
}

/// Reads a value. The host is offered a buffer of a size, and replies with a code and the buffer;
/// a host that asks for another buffer must ask for a larger one. The value that was set is what is
/// got: from a host that holds the bytes of a value, however long they are, that value is read.
pub fn get<T, H: Fn(usize) -> (i32, Vec<u8>), D: Fn(Vec<u8>) -> Result<T, String>>(
    host: H,
    decode: D,
) -> (r: Result<Option<T>, PdkError>)
    requires
        forall|size: usize| host.requires((size,)),
        forall|bytes: Vec<u8>| decode.requires((bytes,)),
        forall|size: usize, reply: (i32, Vec<u8>)| #[trigger]
            host.ensures((size,), reply) ==> reply.1@.len() >= size && (read_move(
                size,
                reply.0,
            ) matches ReadMove::Retry(n) ==> n > size),
    ensures
        exists|size: usize, reply: (i32, Vec<u8>)| #[trigger]
            host.ensures((size,), reply) && offered(host, size) && settled(
                decode,
                size,
                reply.0,
                reply.1@,
                r,
            ),
        forall|bytes: Seq<u8>|
            0 < bytes.len() <= i32::MAX - 10 && (forall|size: usize, reply: (i32, Vec<u8>)|
                #[trigger]
                host.ensures((size,), reply) ==> replies_with(bytes, size, reply.0, reply.1@))
                ==> #[trigger] decoded(decode, bytes, r),
{
    let mut size: usize = FIRST_BUFFER_SIZE;
    loop
        invariant
            forall|size: usize| host.requires((size,)),
            forall|bytes: Vec<u8>| decode.requires((bytes,)),
            forall|size: usize, reply: (i32, Vec<u8>)| #[trigger]
                host.ensures((size,), reply) ==> reply.1@.len() >= size && (read_move(
                    size,
                    reply.0,
                ) matches ReadMove::Retry(n) ==> n > size),
            offered(host, size),
        decreases usize::MAX - size,
    {
        let reply = host(size);
        let ghost told = reply;
        let (code, buffer) = reply;
        let step = read_step(size, code);
        assert(step@ == read_move(size, told.0));
        match step {
            ReadStep::Missing => {
                return Ok(None);
            },
            ReadStep::Failed(e) => {
                return Err(e);
            },
            ReadStep::Retry(n) => {
                size = n;
            },
            ReadStep::Ready(n) => {
                let bytes = slice_to_vec(slice_subrange(buffer.as_slice(), 0, n));
                assert(bytes@ =~= told.1@.take(n as int));
                let ghost b = bytes;
                let result = decode(bytes);
                assert(decode.ensures((b,), result));
                return match result {
                    Ok(v) => Ok(Some(v)),
                    Err(e) => Err(PdkError::Deserialization(e)),
                };
            },
        }
    }
}

/// What a guest gets that reads a value, if it needs no more than that many more tries: the host's
/// reply and the bytes in the buffer, for each size of the buffer, are what `host` says, and `decode`
/// is how the value is read from its bytes.
pub open spec fn got<T>(
    host: spec_fn(usize) -> (i32, Seq<u8>),
    decode: spec_fn(Seq<u8>) -> Result<T, Seq<char>>,
    size: usize,
    tries: nat,
) -> Option<Result<Option<T>, PdkFault>>
    decreases tries,
{
    match read_move(size, host(size).0) {
        ReadMove::Missing => Some(Ok(None)),
        ReadMove::Failed(f) => Some(Err(f)),
        ReadMove::Ready(n) => Some(
            match decode(host(size).1.take(n as int)) {
                Ok(v) => Ok(Some(v)),
                Err(e) => Err(PdkFault::Deserialization(e)),
            },
        ),
        ReadMove::Retry(n) => if tries == 0 {
            None
        } else {
            got(host, decode, n, (tries - 1) as nat)
        },
    }
}

/// Whether the host holds these bytes: it replies with their number and they are in the buffer, or
/// it asks for a buffer that is large enough for them.
pub open spec fn holds_bytes(host: spec_fn(usize) -> (i32, Seq<u8>), bytes: Seq<u8>) -> bool {
    forall|size: usize|
        if bytes.len() > size {
            (#[trigger] host(size)).0 == -10 - bytes.len()
        } else {
            host(size).0 == bytes.len() && bytes.len() <= host(size).1.len() && host(size).1.take(
                bytes.len() as int,
            ) == bytes
        }
}

/// What a guest has set it gets: from a host that holds the bytes of a value it reads that value,
/// however long they are, in at most two tries.
pub proof fn lemma_get_after_set<T>(
    v: T,
    encode: spec_fn(T) -> Seq<u8>,
    decode: spec_fn(Seq<u8>) -> Result<T, Seq<char>>,
    host: spec_fn(usize) -> (i32, Seq<u8>),
)
    requires
        decode(encode(v)) == Result::<T, Seq<char>>::Ok(v),
        0 < encode(v).len() <= i32::MAX - 10,
        holds_bytes(host, encode(v)),
    ensures
        got(host, decode, FIRST_BUFFER_SIZE, 1) == Some(
            Result::<Option<T>, PdkFault>::Ok(Some(v)),
        ),
{
    let n = encode(v).len() as usize;
    assert(host(n).0 == n);
    assert(read_move(n, host(n).0) == ReadMove::Ready(n));
    assert(got(host, decode, n, 0) == Some(Result::<Option<T>, PdkFault>::Ok(Some(v))));
    if n > FIRST_BUFFER_SIZE {
        assert(host(FIRST_BUFFER_SIZE).0 == -10 - n);
        assert(read_move(FIRST_BUFFER_SIZE, host(FIRST_BUFFER_SIZE).0) == ReadMove::Retry(n));
    } else {
        assert(host(FIRST_BUFFER_SIZE).0 == n);
    }
}

/// What the replies of the host's store mean: below minus nine a buffer is too small, by ten less than
/// the negative of the reply it is told how large it must be; three others are known, and the rest are
/// given as they are.
pub proof fn lemma_replies_known(code: i32)
    ensures
        errno_fault(code) is StoreNotConfigured <==> code == -1,
        errno_fault(code) is StoreKeyNotFound <==> code == -2,
        errno_fault(code) is StoreBufferTooSmall <==> code <= -10,
        errno_fault(code) matches PdkFault::StoreBufferTooSmall(n) ==> code == -10 - n,
        code == -3 ==> errno_fault(code) == PdkFault::StoreHostError(
            "invalid guest memory reference"@,
        ),
        code != -1 && code != -2 && code != -3 && code > -10 ==> errno_fault(code)
            == PdkFault::StoreHostError("unexpected host error code "@ + signed_numeral(code as int)),
{
}

/// What a guest does on a reply: it takes as many bytes as the reply says if the buffer can hold them,
/// it asks again with the size that the reply asks for, it takes minus one to mean that there is no
/// value, and any other reply to be an error.
pub proof fn lemma_replies_followed(size: usize, code: i32)
    ensures
        read_move(size, code) is Missing <==> code == -1,
        read_move(size, code) is Retry <==> code <= -10,
        read_move(size, code) matches ReadMove::Retry(n) ==> code == -10 - n,
        read_move(size, code) is Ready <==> 0 < code <= size,
        read_move(size, code) matches ReadMove::Ready(n) ==> n == code,
        code > size ==> (read_move(size, code) matches ReadMove::Failed(
            PdkFault::StoreBufferTooSmall(n),
        ) && n == code),
        -10 < code < -1 ==> read_move(size, code) == ReadMove::Failed(errno_fault(code)),
        FIRST_BUFFER_SIZE == 4096,
{
}

/// A line that a guest logs has its level in brackets behind `[GUEST]`, and ends with the message.
pub proof fn lemma_lines_logged(level: Seq<char>, message: Seq<char>)
    ensures
        log_line(level, message).take(8) == seq!['[', 'G', 'U', 'E', 'S', 'T', ']', '['],
        log_line(level, message).skip(8) == level + seq![']', ' '] + message,
{
    reveal_strlit("[GUEST][");
    reveal_strlit("] ");
    assert(log_line(level, message).take(8) =~= seq!['[', 'G', 'U', 'E', 'S', 'T', ']', '[']);
    assert(log_line(level, message).skip(8) =~= level + seq![']', ' '] + message);
}

/// The message for a fault says what kind it is, and gives what is known of it.
pub proof fn lemma_pdk_faults_told(e: Seq<char>, n: usize)
    ensures
        pdk_message(PdkFault::Serialization(e)) == "serialization error: "@ + e,
        pdk_message(PdkFault::Deserialization(e)) == "deserialization error: "@ + e,
        pdk_message(PdkFault::StoreNotConfigured) == "store is not configured for this guest"@,
        pdk_message(PdkFault::StoreKeyNotFound) == "store key not found"@,
        pdk_message(PdkFault::StoreHostError(e)) == "store host error: "@ + e,
        pdk_message(PdkFault::StoreBufferTooSmall(n)) == "store buffer too small; required "@ + numeral(
            n as nat,
        ) + " bytes"@,
        pdk_message(PdkFault::LogHostError(e)) == "log host error: "@ + e,
{
}

/// A store that hands out an entry in full, or says how much room it needs, is understood: the entry is
/// taken as it is where the room is enough, and asked for again with the room that it needs where it is
/// not.
pub proof fn lemma_reply_understood(bytes: Seq<u8>, size: usize, code: i32, buffer: Seq<u8>)
    requires
        0 < bytes.len() < i32::MAX - 10,
        replies_with(bytes, size, code, buffer),
    ensures
        bytes.len() > size ==> (read_move(size, code) matches ReadMove::Retry(n) && n == bytes.len()),
        bytes.len() <= size ==> (read_move(size, code) matches ReadMove::Ready(n) && n == bytes.len()
            && n <= buffer.len() && buffer.take(n as int) == bytes),
{
}

/// Such a reply is always possible.
pub proof fn lemma_reply_possible(bytes: Seq<u8>, size: usize, rest: Seq<u8>)
    requires
        bytes.len() < i32::MAX - 10,
    ensures
        bytes.len() > size ==> replies_with(bytes, size, (-10 - bytes.len()) as i32, rest),
        bytes.len() <= size ==> replies_with(bytes, size, bytes.len() as i32, bytes + rest),
{
    assert((bytes + rest).take(bytes.len() as int) =~= bytes);
}

} // verus!
