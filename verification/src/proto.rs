//! The wire protocol: a request is a frame of a four-byte big-endian length,
//! which counts itself, and a body; a response is plain text that ends with
//! the connection.

use vstd::prelude::*;
use crate::error::KVSError;

verus! {

/// The command of a request.
#[derive(Debug, Clone, Copy, PartialEq, Eq, Structural)]
pub enum Command {
    Get,
    /// Bind a key to a value; written `Set` on the wire.
    Put,
    Remove,
}

/// One request. `value` is empty for `Get` and `Remove`.
#[derive(Debug)]
pub struct Record {
    pub cmd: Command,
    pub key: String,
    pub value: String,
}

/// A request as a mathematical value.
pub struct RequestView {
    pub cmd: Command,
    pub key: Seq<char>,
    pub value: Seq<char>,
}

impl View for Record {
    type V = RequestView;

    open spec fn view(&self) -> RequestView {
        RequestView { cmd: self.cmd, key: self.key@, value: self.value@ }
    }
}

/// The four bytes of a length, the most significant first.
pub open spec fn be_bytes(n: u32) -> Seq<u8> {
    seq![
        (n / 0x100_0000) as u8,
        ((n / 0x1_0000) % 0x100) as u8,
        ((n / 0x100) % 0x100) as u8,
        (n % 0x100) as u8,
    ]
}

/// The length that four bytes stand for, the most significant first.
pub open spec fn be_value(b: Seq<u8>) -> u32 {
    (b[0] * 0x100_0000 + b[1] * 0x1_0000 + b[2] * 0x100 + b[3]) as u32
}

/// Writing a length and reading it back gives the length.
pub proof fn lemma_be_round_trip(n: u32)
    ensures
        be_bytes(n).len() == 4,
        be_value(be_bytes(n)) == n,
{
}

/// The frame of a body: the length of the frame, which counts its own four
/// bytes, then the body.
pub open spec fn frame_bytes(body: Seq<u8>) -> Seq<u8> {
    be_bytes((body.len() + 4) as u32) + body
}

/// The body of a frame, if the bytes are a frame: four bytes of length, and
/// as many bytes of body as the length says beyond its own four.
pub open spec fn frame_body(bytes: Seq<u8>) -> Option<Seq<u8>> {
    if bytes.len() >= 4 && be_value(bytes.take(4)) == bytes.len() {
        Some(bytes.skip(4))
    } else {
        None
    }
}

/// The body of the frame of a body is the body.
pub proof fn lemma_frame_round_trip(body: Seq<u8>)
    requires
        body.len() + 4 <= u32::MAX,
    ensures
        frame_body(frame_bytes(body)) == Some(body),
{
    let n = (body.len() + 4) as u32;
    lemma_be_round_trip(n);
    let bytes = frame_bytes(body);
    assert(bytes.take(4) =~= be_bytes(n));
    assert(bytes.skip(4) =~= body);
}

/// The four bytes of a length, the most significant first.
pub fn length_prefix(n: u32) -> (b: Vec<u8>)
    ensures
        b@ == be_bytes(n),
{
    let mut b: Vec<u8> = Vec::new();
    b.push((n / 0x100_0000) as u8);
    b.push(((n / 0x1_0000) % 0x100) as u8);
    b.push(((n / 0x100) % 0x100) as u8);
    b.push((n % 0x100) as u8);
    assert(b@ =~= be_bytes(n));
    b
}

/// The length that the first four bytes of a request stand for.
pub fn read_length(prefix: &[u8]) -> (n: u32)
    requires
        prefix@.len() == 4,
    ensures
        n == be_value(prefix@),
{
    let b0: u32 = prefix[0] as u32;
    let b1: u32 = prefix[1] as u32;
    let b2: u32 = prefix[2] as u32;
    let b3: u32 = prefix[3] as u32;
    b0 * 0x100_0000 + b1 * 0x1_0000 + b2 * 0x100 + b3
}

/// How many bytes of body follow a length prefix. Fails with `Corrupt`
/// exactly when the length is less than the four bytes of the prefix.
pub fn body_length(length: u32) -> (r: Result<u32, KVSError>)
    ensures
        length >= 4 ==> r == Ok::<u32, KVSError>((length - 4) as u32),
        length < 4 ==> r == Err::<u32, KVSError>(KVSError::Corrupt),
{
    if length < 4 {
        Err(KVSError::Corrupt)
    } else {
        Ok(length - 4)
    }
}

/// The frame of a body. Fails with `Corrupt` exactly when the body is too
/// long for the length of its frame to be written.
pub fn encode_frame(body: &[u8]) -> (r: Result<Vec<u8>, KVSError>)
    ensures
        body@.len() + 4 <= u32::MAX ==> r is Ok && r.unwrap()@ == frame_bytes(body@),
        body@.len() + 4 > u32::MAX ==> r == Err::<Vec<u8>, KVSError>(KVSError::Corrupt),
{
    if body.len() > 0xffff_fffb {
        return Err(KVSError::Corrupt);
    }
    let mut out = length_prefix((body.len() + 4) as u32);
    out.extend_from_slice(body);
    Ok(out)
}

/// The body of a frame. Fails with `Corrupt` exactly when the bytes are
/// not one whole frame.
pub fn decode_frame(bytes: &[u8]) -> (r: Result<Vec<u8>, KVSError>)
    ensures
        match r {
            Ok(body) => frame_body(bytes@) == Some(body@),
            Err(e) => e == KVSError::Corrupt && frame_body(bytes@) is None,
        },
{
    if bytes.len() < 4 {
        return Err(KVSError::Corrupt);
    }
    let prefix = vstd::slice::slice_subrange(bytes, 0, 4);
    assert(prefix@ =~= bytes@.take(4));
    let length = read_length(prefix);
    if length as u64 != bytes.len() as u64 {
        return Err(KVSError::Corrupt);
    }
    let rest = vstd::slice::slice_subrange(bytes, 4, bytes.len());
    let mut body: Vec<u8> = Vec::new();
    body.extend_from_slice(rest);
    assert(body@ =~= bytes@.skip(4));
    Ok(body)
}

// ---------------------------------------------------------------------------
// Responses
// ---------------------------------------------------------------------------

/// The response to a `set` that succeeded.
pub open spec fn text_set_done() -> Seq<char> {
    "Successful set operation"@
}

/// The response to a `remove` that succeeded.
pub open spec fn text_remove_done() -> Seq<char> {
    "Successful remove operation"@
}

/// The response to a `get` of a key that is absent.
pub open spec fn text_no_key() -> Seq<char> {
    "ERROR: NO such key in storage"@
}

/// What the response to an operation that failed begins with.
pub open spec fn text_error_head() -> Seq<char> {
    "ERROR: "@
}

/// The response to an operation that failed.
pub open spec fn error_text(e: KVSError) -> Seq<char> {
    text_error_head() + e.message_text()
}

/// The response to a `set`.
pub open spec fn set_response_text(outcome: Result<(), KVSError>) -> Seq<char> {
    match outcome {
        Ok(_) => text_set_done(),
        Err(e) => error_text(e),
    }
}

/// The response to a `remove`.
pub open spec fn remove_response_text(outcome: Result<(), KVSError>) -> Seq<char> {
    match outcome {
        Ok(_) => text_remove_done(),
        Err(e) => error_text(e),
    }
}

/// The response to a `get`: the value as it is, or the notice that the key
/// is absent.
pub open spec fn get_response_text(outcome: Result<Option<Seq<char>>, KVSError>) -> Seq<char> {
    match outcome {
        Ok(Some(value)) => value,
        Ok(None) => text_no_key(),
        Err(e) => error_text(e),
    }
}

/// The response to an operation that failed.
pub fn error_response(e: KVSError) -> (text: String)
    ensures
        text@ == error_text(e),
{
    let head = "ERROR: ".to_string();
    let message = e.message();
    head.concat(message.as_str())
}

/// The response to a `set`.
pub fn set_response(outcome: Result<(), KVSError>) -> (text: String)
    ensures
        text@ == set_response_text(outcome),
{
    match outcome {
        Ok(_) => "Successful set operation".to_string(),
        Err(e) => error_response(e),
    }
}

/// The response to a `remove`.
pub fn remove_response(outcome: Result<(), KVSError>) -> (text: String)
    ensures
        text@ == remove_response_text(outcome),
{
    match outcome {
        Ok(_) => "Successful remove operation".to_string(),
        Err(e) => error_response(e),
    }
}

/// The response to a `get`.
pub fn get_response(outcome: Result<Option<String>, KVSError>) -> (text: String)
    ensures
        text@ == get_response_text(
            match outcome {
                Ok(Some(value)) => Ok(Some(value@)),
                Ok(None) => Ok(None),
                Err(e) => Err(e),
            },
        ),
{
    match outcome {
        Ok(Some(value)) => value,
        Ok(None) => "ERROR: NO such key in storage".to_string(),
        Err(e) => error_response(e),
    }
}

/// Whether a response reports a failure: it begins with `ERROR`.
pub open spec fn reports_failure(response: Seq<u8>) -> bool {
    response.len() >= 5 && response[0] == 0x45 && response[1] == 0x52 && response[2] == 0x52
        && response[3] == 0x4f && response[4] == 0x52
}

/// Whether a response reports a failure: it begins with `ERROR`.
pub fn is_error_response(response: &[u8]) -> (r: bool)
    ensures
        r == reports_failure(response@),
{
    response.len() >= 5 && response[0] == 0x45 && response[1] == 0x52 && response[2] == 0x52
        && response[3] == 0x4f && response[4] == 0x52
}

/// The exit code of the client for a command and the response to it: zero
/// for a response that reports no failure, and for `get` always; one for a
/// `set` or a `remove` that failed.
pub open spec fn exit_code(cmd: Command, response: Seq<u8>) -> i32 {
    if cmd == Command::Get || !reports_failure(response) {
        0
    } else {
        1
    }
}

/// The exit code of the client for a command and the response to it.
pub fn client_exit_code(cmd: Command, response: &[u8]) -> (code: i32)
    ensures
        code == exit_code(cmd, response@),
{
    match cmd {
        Command::Get => 0,
        _ => if is_error_response(response) {
            1
        } else {
            0
        },
    }
}

/// Whether the client prints `Key not found` for a command and the
/// response to it: for a `get` or a `remove` whose response reports a
/// failure.
pub fn client_reports_missing(cmd: Command, response: &[u8]) -> (r: bool)
    ensures
        r == (cmd != Command::Put && reports_failure(response@)),
{
    match cmd {
        Command::Put => false,
        _ => is_error_response(response),
    }
}

} // verus!
