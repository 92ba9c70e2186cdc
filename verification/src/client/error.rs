//! What a call can fail with.

use crate::buf;
use crate::text;
use crate::wire::{DecodeError, Status, MAX_FRAME, MAX_ITEMS};
use bytes::Bytes;
use std::io::ErrorKind;
use vstd::prelude::*;
use vstd::utf8;

verus! {

/// The kind of an I/O error, `std::io::ErrorKind`.
#[verifier::external_type_specification]
#[verifier::external_body]
pub struct ExErrorKind(ErrorKind);

/// What a call can fail with.
#[derive(Debug)]
pub enum Error {
    Io { kind: ErrorKind, message: String },
    Closed,
    /// The server refused the request.
    Status { status: Status, message: String },
    InvalidStatus(u8),
    Decode(DecodeError),
    ResponseTooLarge(usize),
    Serialize(String),
    Deserialize(String),
    Count { expected: usize, got: usize },
    TooManyItems(usize),
    Pem { path: String, message: String },
    Tls(String),
}

/// The name of a status in a message.
pub open spec fn status_name(status: Status) -> Seq<char> {
    match status {
        Status::Success => "Ok"@,
        Status::BadRequest => "BadRequest"@,
        Status::UnknownOp => "UnknownOp"@,
        Status::TooLarge => "TooLarge"@,
        Status::Unauthorized => "Unauthorized"@,
        Status::NotFound => "NotFound"@,
    }
}

fn name(status: Status) -> (s: &'static str)
    ensures
        s@ == status_name(status),
{
    match status {
        Status::Success => "Ok",
        Status::BadRequest => "BadRequest",
        Status::UnknownOp => "UnknownOp",
        Status::TooLarge => "TooLarge",
        Status::Unauthorized => "Unauthorized",
        Status::NotFound => "NotFound",
    }
}

impl Error {
    /// The message for the error.
    pub open spec fn text(self) -> Seq<char> {
        match self {
            Error::Io { message, .. } => "io: "@ + message@,
            Error::Closed => "connection closed"@,
            Error::Status { status, message } => "server returned "@ + status_name(status) + ": "@
                + message@,
            Error::InvalidStatus(b) => "invalid status byte "@ + text::decimal(b as nat),
            Error::Decode(e) => "decode: "@ + e.text(),
            Error::ResponseTooLarge(n) => "response of "@ + text::decimal(n as nat)
                + " bytes exceeds the client limit of "@ + text::decimal(MAX_FRAME as nat),
            Error::Serialize(message) => "serialize: "@ + message@,
            Error::Deserialize(message) => "deserialize: "@ + message@,
            Error::Count { expected, got } => "server answered "@ + text::decimal(got as nat)
                + " items for a batch of "@ + text::decimal(expected as nat),
            Error::TooManyItems(n) => text::decimal(n as nat)
                + " items in one batch exceeds the limit of "@ + text::decimal(MAX_ITEMS as nat),
            Error::Pem { path, message } => "reading "@ + path@ + ": "@ + message@,
            Error::Tls(message) => "tls: "@ + message@,
        }
    }

    /// The message for the error.
    pub fn to_string(&self) -> (s: String)
        ensures
            s@ == self.text(),
    {
        let mut s = String::new();
        match self {
            Error::Io { message, .. } => {
                s.append("io: ");
                s.append(message.as_str());
            },
            Error::Closed => s.append("connection closed"),
            Error::Status { status, message } => {
                s.append("server returned ");
                s.append(name(*status));
                s.append(": ");
                s.append(message.as_str());
            },
            Error::InvalidStatus(b) => {
                s.append("invalid status byte ");
                text::push_decimal(&mut s, *b as u64);
            },
            Error::Decode(e) => {
                s.append("decode: ");
                s.append(e.to_string().as_str());
            },
            Error::ResponseTooLarge(n) => {
                s.append("response of ");
                text::push_decimal(&mut s, *n as u64);
                s.append(" bytes exceeds the client limit of ");
                text::push_decimal(&mut s, MAX_FRAME as u64);
            },
            Error::Serialize(message) => {
                s.append("serialize: ");
                s.append(message.as_str());
            },
            Error::Deserialize(message) => {
                s.append("deserialize: ");
                s.append(message.as_str());
            },
            Error::Count { expected, got } => {
                s.append("server answered ");
                text::push_decimal(&mut s, *got as u64);
                s.append(" items for a batch of ");
                text::push_decimal(&mut s, *expected as u64);
            },
            Error::TooManyItems(n) => {
                text::push_decimal(&mut s, *n as u64);
                s.append(" items in one batch exceeds the limit of ");
                text::push_decimal(&mut s, MAX_ITEMS as u64);
            },
            Error::Pem { path, message } => {
                s.append("reading ");
                s.append(path.as_str());
                s.append(": ");
                s.append(message.as_str());
            },
            Error::Tls(message) => {
                s.append("tls: ");
                s.append(message.as_str());
            },
        }
        assert(s@ =~= self.text());
        s
    }
}

/// What `String::from_utf8_lossy` makes of `bytes`.
pub uninterp spec fn lossy_text(bytes: Seq<u8>) -> Seq<char>;

/// `String::from_utf8_lossy`: the bytes as text, with a replacement character
/// for what is not UTF-8. Which bytes one replacement character stands for is
/// not stated; UTF-8 comes out as it is.
#[verifier::external_body]
fn from_utf8_lossy(bytes: &[u8]) -> (s: String)
    ensures
        s@ == lossy_text(bytes@),
        utf8::valid_utf8(bytes@) ==> s@ == utf8::decode_utf8(bytes@),
{
    String::from_utf8_lossy(bytes).into_owned()
}

/// Whether `e` is what a response that refuses a request means.
pub open spec fn refusal(e: Error, status: Status, body: Seq<u8>) -> bool {
    e matches Error::Status { status: s, message } && s == status && message@ == lossy_text(body)
}

/// The error a status other than the ones an op answers with means.
pub fn refused(status: Status, body: &Bytes) -> (e: Error)
    ensures
        refusal(e, status, buf::bytes_seq(*body)),
        utf8::valid_utf8(buf::bytes_seq(*body)) ==> (e matches Error::Status { message, .. }
            && message@ == utf8::decode_utf8(buf::bytes_seq(*body))),
{
    Error::Status { status, message: from_utf8_lossy(buf::bytes_slice(body)) }
}

/// Whether `r` is what a response with this status byte and body means: `Ok`
/// and `NotFound` are answers, any other status is the error it means.
pub open spec fn answers(
    r: Result<(Status, Bytes), Error>,
    tag: u8,
    body: Seq<u8>,
) -> bool {
    match r {
        Ok((status, b)) => status.byte() == tag && is_answer(status) && buf::bytes_seq(b) == body,
        Err(Error::Status { status, message }) => status.byte() == tag && !is_answer(status)
            && message@ == lossy_text(body),
        Err(Error::InvalidStatus(b)) => b == tag && forall|s: Status| #[trigger] s.byte() != tag,
        _ => false,
    }
}

/// Whether a status is an answer rather than a refusal.
pub open spec fn is_answer(status: Status) -> bool {
    status is Success || status is NotFound
}

/// What a response means to the caller waiting for it.
pub fn answer(tag: u8, body: Bytes) -> (r: Result<(Status, Bytes), Error>)
    ensures
        answers(r, tag, buf::bytes_seq(body)),
{
    match Status::from_u8(tag) {
        Some(Status::Success) => Ok((Status::Success, body)),
        Some(Status::NotFound) => Ok((Status::NotFound, body)),
        Some(status) => Err(refused(status, &body)),
        None => Err(Error::InvalidStatus(tag)),
    }
}

/// A response is an answer exactly with the status for success or for nothing
/// found, and hands its body on; the others of the protocol are the error they
/// stand for, and any other byte is none of the protocol.
pub proof fn only_two_statuses_are_answers(
    r: Result<(Status, Bytes), Error>,
    tag: u8,
    body: Seq<u8>,
)
    requires
        answers(r, tag, body),
    ensures
        r is Ok <==> tag == 0 || tag == 5,
        r matches Ok((status, b)) ==> status.byte() == tag && buf::bytes_seq(b) == body,
        r matches Err(e) ==> (e is Status <==> 1 <= tag <= 4) && (e is InvalidStatus <==> tag > 5),
{
    assert(Status::Success.byte() == 0 && Status::BadRequest.byte() == 1);
    assert(Status::UnknownOp.byte() == 2 && Status::TooLarge.byte() == 3);
    assert(Status::Unauthorized.byte() == 4 && Status::NotFound.byte() == 5);
}

} // verus!
