//! What the HTTP front end answers: the headers of a file, the status of a
//! ranged answer, and the status and message of every failure.

use crate::db::{File, Timestamp};
use crate::text::{decimal, decimal_string};
use chrono::DateTime;
use sha2::{Digest, Sha256};
use std::ops::Range;
use vstd::prelude::*;
use vstd::string::StringExecFns;
use vstd::utf8::encode_utf8;

verus! {

/// Why a request could not be served.
#[derive(Clone, Copy, Debug, PartialEq, Eq, Structural)]
pub enum Error {
    /// The store failed.
    Store,
    /// No file has the requested key.
    FileNotExists,
}

/// The status of a failed request: 404 for a missing file, 500 for a
/// failure of the store.
pub fn error_status(err: &Error) -> (status: u16)
    ensures
        status == match *err {
            Error::Store => 500u16,
            Error::FileNotExists => 404u16,
        },
{
    match err {
        Error::Store => 500,
        Error::FileNotExists => 404,
    }
}

/// Why the front end turned a request away before it reached the store.
#[derive(Debug, Clone)]
pub enum Rejection {
    /// No route matches the request.
    NotFound,
    /// The named header could not be read.
    InvalidHeader(String),
    /// The named header is missing.
    MissingHeader(String),
    /// The request has no `content-length`.
    LengthRequired,
    /// The query string could not be read.
    InvalidQuery,
    /// The method is not allowed on the route.
    MethodNotAllowed,
    /// The body is larger than the limit.
    PayloadTooLarge,
    /// The content type is not supported.
    UnsupportedMediaType,
    /// Any other rejection, with its description.
    Unknown(String),
}

/// The status and the message of an error answer.
#[derive(Debug, Clone)]
pub struct ErrorReply {
    pub status: u16,
    pub message: String,
}

/// The status that a rejection is answered with.
pub open spec fn rejection_status(rejection: Rejection) -> u16 {
    match rejection {
        Rejection::NotFound => 404,
        Rejection::InvalidHeader(_) => 400,
        Rejection::MissingHeader(_) => 400,
        Rejection::LengthRequired => 400,
        Rejection::InvalidQuery => 400,
        Rejection::MethodNotAllowed => 400,
        Rejection::PayloadTooLarge => 413,
        Rejection::UnsupportedMediaType => 415,
        Rejection::Unknown(_) => 500,
    }
}

/// The message that a rejection is answered with.
pub open spec fn rejection_message(rejection: Rejection) -> Seq<char> {
    match rejection {
        Rejection::NotFound => "not found"@,
        Rejection::InvalidHeader(name) => "invalid "@ + name@ + " header"@,
        Rejection::MissingHeader(name) => "missing "@ + name@ + " header"@,
        Rejection::LengthRequired => "missing content-length header"@,
        Rejection::InvalidQuery => "invalid query string"@,
        Rejection::MethodNotAllowed => "method not allowed"@,
        Rejection::PayloadTooLarge => "request body too large"@,
        Rejection::UnsupportedMediaType => "unsupported content-type"@,
        Rejection::Unknown(what) => "unknown error: "@ + what@,
    }
}

/// The answer to a rejected request.
pub fn recover(rejection: &Rejection) -> (reply: ErrorReply)
    ensures
        reply.status == rejection_status(*rejection),
        reply.message@ == rejection_message(*rejection),
{
    match rejection {
        Rejection::NotFound => ErrorReply { status: 404, message: String::from_str("not found") },
        Rejection::InvalidHeader(name) => {
            let mut message = String::from_str("invalid ");
            message.append(name.as_str());
            message.append(" header");
            ErrorReply { status: 400, message }
        },
        Rejection::MissingHeader(name) => {
            let mut message = String::from_str("missing ");
            message.append(name.as_str());
            message.append(" header");
            ErrorReply { status: 400, message }
        },
        Rejection::LengthRequired => ErrorReply {
            status: 400,
            message: String::from_str("missing content-length header"),
        },
        Rejection::InvalidQuery => ErrorReply {
            status: 400,
            message: String::from_str("invalid query string"),
        },
        Rejection::MethodNotAllowed => ErrorReply {
            status: 400,
            message: String::from_str("method not allowed"),
        },
        Rejection::PayloadTooLarge => ErrorReply {
            status: 413,
            message: String::from_str("request body too large"),
        },
        Rejection::UnsupportedMediaType => ErrorReply {
            status: 415,
            message: String::from_str("unsupported content-type"),
        },
        Rejection::Unknown(what) => {
            let mut message = String::from_str("unknown error: ");
            message.append(what.as_str());
            ErrorReply { status: 500, message }
        },
    }
}

/// The SHA-256 digest of a byte string.
pub uninterp spec fn sha256_digest(data: Seq<u8>) -> Seq<u8>;

/// `Sha256::digest`: the digest of `data`, 32 bytes long.
#[verifier::external_body]
fn sha256(data: &[u8]) -> (digest: Vec<u8>)
    ensures
        digest@ == sha256_digest(data@),
        digest@.len() == 32,
{
    Sha256::digest(data).to_vec()
}

/// A byte string in base64 with the URL-safe alphabet and without padding.
pub uninterp spec fn base64_url_text(data: Seq<u8>) -> Seq<char>;

/// `base64::encode_config` with `URL_SAFE_NO_PAD`. The outside function
/// panics where the length of the text does not fit in memory, which a
/// quarter of the address space of input cannot cause.
#[verifier::external_body]
fn base64_url(data: &[u8]) -> (text: String)
    requires
        data@.len() <= 0x3FFF_FFFF,
    ensures
        text@ == base64_url_text(data@),
{
    base64::encode_config(data, base64::URL_SAFE_NO_PAD)
}

/// The entity tag of a file: the digest of its remote ID in base64.
pub fn get_file_etag(file: &File) -> (tag: String)
    ensures
        tag@ == base64_url_text(sha256_digest(encode_utf8(file.id@))),
{
    let digest = sha256(file.id.as_str().as_bytes());
    base64_url(digest.as_slice())
}

/// The first second that an RFC 2822 date can name, in seconds since the
/// Unix epoch: the start of the year 0. The last is the end of the year 9999.
pub const FIRST_DATE: i64 = -62_167_219_200;

/// The last second that an RFC 2822 date can name.
pub const LAST_DATE: i64 = 253_402_300_799;

/// The RFC 2822 date of a time in UTC, given as seconds since the Unix
/// epoch.
pub uninterp spec fn rfc2822_text(secs: int) -> Seq<char>;

/// `DateTime::from_timestamp` and `DateTime::to_rfc2822`: the date of a time
/// in UTC. The outside function panics on a year of more than four digits
/// or before the year 0.
#[verifier::external_body]
fn rfc2822(secs: i64) -> (text: Option<String>)
    requires
        FIRST_DATE <= secs <= LAST_DATE,
    ensures
        text is Some,
        text is Some ==> text->Some_0@ == rfc2822_text(secs as int),
{
    DateTime::from_timestamp(secs, 0).map(|time| time.to_rfc2822())
}

/// Whether a time can be named as an RFC 2822 date.
pub fn is_dated(time: &Timestamp) -> (dated: bool)
    ensures
        dated == (FIRST_DATE <= time.secs <= LAST_DATE),
{
    FIRST_DATE <= time.secs && time.secs <= LAST_DATE
}

/// How long a file may be cached.
pub open spec fn cache_control() -> Seq<char> {
    "public,max-age=31536000,immutable"@
}

/// The headers of a file, in the order in which they are sent, for an
/// answer of `length` bytes.
pub open spec fn file_headers(file: File, length: u64) -> Seq<(Seq<char>, Seq<char>)> {
    seq![
        ("content-type"@, file.content_type@),
        ("content-length"@, decimal(length as nat)),
        ("cache-control"@, cache_control()),
        ("last-modified"@, rfc2822_text(file.created_time.secs as int)),
        ("etag"@, "\""@ + base64_url_text(sha256_digest(encode_utf8(file.id@))) + "\""@),
        ("accept-ranges"@, "bytes"@),
    ]
}

/// The names and values of a run of headers.
pub open spec fn header_views(headers: Seq<(String, String)>) -> Seq<(Seq<char>, Seq<char>)> {
    Seq::new(headers.len(), |i: int| (headers[i].0@, headers[i].1@))
}

/// The headers that describe a file in an answer of `length` bytes.
pub fn add_file_headers(file: &File, length: u64) -> (headers: Vec<(String, String)>)
    requires
        FIRST_DATE <= file.created_time.secs <= LAST_DATE,
    ensures
        header_views(headers@) == file_headers(*file, length),
{
    let date = match rfc2822(file.created_time.secs) {
        Some(date) => date,
        None => String::new(),
    };
    let mut tag = String::from_str("\"");
    tag.append(get_file_etag(file).as_str());
    tag.append("\"");
    let mut headers: Vec<(String, String)> = Vec::new();
    headers.push((String::from_str("content-type"), file.content_type.clone()));
    headers.push((String::from_str("content-length"), decimal_string(length)));
    headers.push(
        (String::from_str("cache-control"), String::from_str("public,max-age=31536000,immutable")),
    );
    headers.push((String::from_str("last-modified"), date));
    headers.push((String::from_str("etag"), tag));
    headers.push((String::from_str("accept-ranges"), String::from_str("bytes")));
    assert(header_views(headers@) =~= file_headers(*file, length));
    headers
}

/// The status of an answer that holds `range` of a file of `size` bytes:
/// 200 for the whole file, 206 for a part.
pub fn reply_status(range: &Range<u64>, size: u64) -> (status: u16)
    requires
        range.start <= range.end,
    ensures
        status == if range.end - range.start == size {
            200u16
        } else {
            206u16
        },
{
    if range.end - range.start == size {
        200
    } else {
        206
    }
}

/// The `Content-Range` header of a partial answer.
pub fn content_range_value(range: &Range<u64>, size: u64) -> (value: String)
    ensures
        value@ == "bytes "@ + decimal(range.start as nat) + "-"@ + decimal(
            if range.end == 0 {
                0
            } else {
                (range.end - 1) as nat
            },
        ) + "/"@ + decimal(size as nat),
{
    let mut value = String::from_str("bytes ");
    value.append(decimal_string(range.start).as_str());
    value.append("-");
    value.append(decimal_string(range.end.saturating_sub(1)).as_str());
    value.append("/");
    value.append(decimal_string(size).as_str());
    value
}

/// The content type of an upload: the declared one, or
/// `application/octet-stream` where none was declared.
pub fn upload_content_type(declared: Option<&str>) -> (content_type: String)
    ensures
        content_type@ == match declared {
            Some(t) => t@,
            None => "application/octet-stream"@,
        },
{
    match declared {
        Some(t) => String::from_str(t),
        None => String::from_str("application/octet-stream"),
    }
}

/// The upload limit in bytes for a limit given in MiB.
pub fn max_upload_size(mib: u64) -> (bytes: u64)
    requires
        mib * 1_048_576 <= u64::MAX,
    ensures
        bytes == mib * 1_048_576,
{
    mib * 1024 * 1024
}

} // verus!
