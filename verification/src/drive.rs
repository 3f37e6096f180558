//! What the remote drive client says on the wire and how it reads the
//! answers: file and folder handles, the multipart upload body, the range of
//! a download request and of its response.

use crate::header::{
    bound_of, decimal_u64, digits_value, first_dash, has_dash, is_digits, is_first_dash, parse_u64,
    range_header, unit_prefix, Bound, RangeCustom,
};
use crate::text::{all_digits, decimal, decimal_string, digits_number, lemma_decimal_reads_back};
use headers::{ContentRange, Header, HeaderValue};
use rand::distributions::Alphanumeric;
use rand::Rng;
use std::ops::Range;
use vstd::prelude::*;
use vstd::string::StringExecFns;
use vstd::utf8::{encode_utf8, is_ascii_chars, is_ascii_chars_encode_utf8};

verus! {

/// Why the drive client refused an answer of the remote.
#[derive(Clone, Copy, Debug, PartialEq, Eq, Structural)]
pub enum Error {
    /// The requested range `[start, end)` is not covered by the response.
    FileRangeResponseInvalid(u64, u64),
}

/// A remote folder: a shared drive.
#[derive(Debug, Clone)]
pub struct FolderHandle {
    pub id: String,
}

impl FolderHandle {
    /// The handle of the folder with the given remote ID.
    pub fn new(id: String) -> (handle: Self)
        ensures
            handle.id == id,
    {
        Self { id }
    }
}

/// A remote file.
#[derive(Debug, Clone)]
pub struct FileHandle {
    pub id: String,
}

impl FileHandle {
    /// The handle of the file with the given remote ID.
    pub fn new(id: String) -> (handle: Self)
        ensures
            handle.id == id,
    {
        Self { id }
    }
}

/// Whether a character is an ASCII letter or digit.
pub open spec fn is_alphanumeric(c: char) -> bool {
    ('A' <= c && c <= 'Z') || ('a' <= c && c <= 'z') || ('0' <= c && c <= '9')
}

/// `Rng::sample_iter` over `Alphanumeric` on the thread's generator: `len`
/// characters, each an ASCII letter or digit; which ones is left to chance.
#[verifier::external_body]
pub(crate) fn random_alphanumeric(len: usize) -> (token: String)
    ensures
        token@.len() == len,
        forall|i: int| 0 <= i < len ==> is_alphanumeric(#[trigger] token@[i]),
{
    rand::thread_rng().sample_iter(&Alphanumeric).take(len).map(char::from).collect()
}

/// Whether `boundary` has the form of a multipart boundary: fifty letters
/// or digits.
pub open spec fn is_boundary(boundary: Seq<char>) -> bool {
    &&& boundary.len() == 50
    &&& forall|i: int| 0 <= i < 50 ==> is_alphanumeric(#[trigger] boundary[i])
}

/// A fresh multipart boundary: a random token of fifty letters or digits.
pub fn multipart_boundary() -> (boundary: String)
    ensures
        is_boundary(boundary@),
{
    random_alphanumeric(50)
}

/// What precedes the media in a multipart upload body: the JSON metadata as
/// the first part, and the header of the media part.
pub open spec fn multipart_prefix(boundary: Seq<char>, meta: Seq<char>) -> Seq<char> {
    "--"@ + boundary + "\r\n"@ + "content-type: application/json; charset=utf-8\r\n"@ + "\r\n"@ + meta
        + "\r\n--"@ + boundary + "\r\n"@ + "content-type: application/octet-stream\r\n"@ + "\r\n"@
}

/// What follows the media in a multipart upload body: the closing boundary.
pub open spec fn multipart_suffix(boundary: Seq<char>) -> Seq<char> {
    "\r\n--"@ + boundary + "--"@
}

/// The frame of a multipart upload body and the length of the whole body.
#[derive(Debug, Clone)]
pub struct MultipartBody {
    /// What is sent before the media.
    pub prefix: String,
    /// What is sent after the media.
    pub suffix: String,
    /// The length in bytes of prefix, media and suffix together.
    pub length: u64,
}

/// Frames a multipart upload of `size` media bytes with the JSON metadata
/// `meta`. `None` where the length of the body does not fit in 64 bits.
pub fn multipart_body(boundary: &str, meta: &str, size: u64) -> (body: Option<MultipartBody>)
    ensures
        body is Some <==> encode_utf8(multipart_prefix(boundary@, meta@)).len() + size + encode_utf8(
            multipart_suffix(boundary@),
        ).len() <= u64::MAX,
        body is Some ==> ({
            let b = body->Some_0;
            &&& b.prefix@ == multipart_prefix(boundary@, meta@)
            &&& b.suffix@ == multipart_suffix(boundary@)
            &&& b.length == encode_utf8(b.prefix@).len() + size + encode_utf8(b.suffix@).len()
        }),
{
    let mut prefix = String::from_str("--");
    prefix.append(boundary);
    prefix.append("\r\n");
    prefix.append("content-type: application/json; charset=utf-8\r\n");
    prefix.append("\r\n");
    prefix.append(meta);
    prefix.append("\r\n--");
    prefix.append(boundary);
    prefix.append("\r\n");
    prefix.append("content-type: application/octet-stream\r\n");
    prefix.append("\r\n");
    let mut suffix = String::from_str("\r\n--");
    suffix.append(boundary);
    suffix.append("--");
    proof {
        assert(prefix@ =~= multipart_prefix(boundary@, meta@));
        assert(suffix@ =~= multipart_suffix(boundary@));
    }
    let before = prefix.as_str().as_bytes().len();
    let after = suffix.as_str().as_bytes().len();
    let framed = match (before as u64).checked_add(after as u64) {
        Some(framed) => framed,
        None => {
            return None;
        },
    };
    let length = match framed.checked_add(size) {
        Some(length) => length,
        None => {
            return None;
        },
    };
    Some(MultipartBody { prefix, suffix, length })
}

/// The content type of a multipart upload with the given boundary.
pub fn multipart_content_type(boundary: &str) -> (value: String)
    ensures
        value@ == "multipart/related; boundary="@ + boundary@,
{
    let mut value = String::from_str("multipart/related; boundary=");
    value.append(boundary);
    value
}

/// The address of a file's resource at the remote.
pub fn file_url(file: &FileHandle) -> (url: String)
    ensures
        url@ == "https://www.googleapis.com/drive/v3/files/"@ + file.id@,
{
    let mut url = String::from_str("https://www.googleapis.com/drive/v3/files/");
    url.append(file.id.as_str());
    url
}

/// The last byte of a half-open range, as a `Range` header names it.
pub open spec fn last_byte(range: Range<u64>) -> nat {
    if range.end == 0 {
        0
    } else {
        (range.end - 1) as nat
    }
}

/// The text of the `Range` header that asks for the bytes `[start, end)`:
/// both ends are named inclusively.
pub open spec fn range_header_text(range: Range<u64>) -> Seq<char> {
    "bytes="@ + decimal(range.start as nat) + "-"@ + decimal(last_byte(range))
}

/// The `Range` header that asks for the bytes `[start, end)`.
pub fn range_header_value(range: &Range<u64>) -> (value: String)
    ensures
        value@ == range_header_text(*range),
{
    let mut value = String::from_str("bytes=");
    value.append(decimal_string(range.start).as_str());
    value.append("-");
    value.append(decimal_string(range.end.saturating_sub(1)).as_str());
    value
}

/// Digits read as bytes spell the number that they spell as characters.
proof fn lemma_digit_bytes(text: Seq<char>, bytes: Seq<u8>)
    requires
        all_digits(text),
        bytes.len() == text.len(),
        forall|i: int| 0 <= i < text.len() ==> bytes[i] == text[i] as u8,
    ensures
        is_digits(bytes),
        digits_value(bytes) == digits_number(text),
    decreases text.len(),
{
    assert forall|i: int| 0 <= i < bytes.len() implies 48 <= #[trigger] bytes[i] <= 57 by {
        assert('0' <= text[i] <= '9');
    }
    if text.len() > 0 {
        let front = text.drop_last();
        let front_bytes = bytes.drop_last();
        assert forall|i: int| 0 <= i < front.len() implies '0' <= #[trigger] front[i] <= '9' by {
            assert(front[i] == text[i]);
        }
        lemma_digit_bytes(front, front_bytes);
        assert('0' <= text.last() <= '9');
        assert(bytes.last() == text.last() as u8);
    }
}

/// The header that the drive client writes for a range is read, by the
/// parser of `Range` headers, as that range with both ends inclusive.
pub proof fn lemma_range_header_reads_back(range: Range<u64>)
    ensures
        range_header(encode_utf8(range_header_text(range))) == Some(
            RangeCustom {
                start: Bound::Included(range.start),
                end: Bound::Included(last_byte(range) as u64),
            },
        ),
{
    reveal_strlit("bytes=");
    reveal_strlit("-");
    let first = decimal(range.start as nat);
    let last = decimal(last_byte(range));
    let text = range_header_text(range);
    lemma_decimal_reads_back(range.start as nat);
    lemma_decimal_reads_back(last_byte(range));
    let n = first.len() as int;
    let m = last.len() as int;
    assert(text.len() == 6 + n + 1 + m);
    assert forall|i: int| 0 <= i < text.len() implies '\0' <= #[trigger] text[i] <= '\u{7f}' by {
        if 6 <= i < 6 + n {
            assert(text[i] == first[i - 6]);
        } else if 6 + n < i {
            assert(text[i] == last[i - 7 - n]);
        }
    }
    assert(is_ascii_chars(text));
    is_ascii_chars_encode_utf8(text);
    let bytes = encode_utf8(text);
    assert forall|i: int| 0 <= i < text.len() implies bytes[i] == text[i] as u8 by {}
    assert(bytes.subrange(0, 6) =~= unit_prefix()) by {
        assert(text[0] == 'b' && text[1] == 'y' && text[2] == 't' && text[3] == 'e' && text[4] == 's'
            && text[5] == '=');
    }
    let rest = bytes.skip(6);
    assert forall|j: int| 0 <= j < n implies rest[j] != 45 by {
        assert(text[j + 6] == first[j]);
        assert('0' <= first[j] <= '9');
    }
    assert(rest[n] == 45) by {
        assert(text[6 + n] == '-');
    }
    assert(is_first_dash(rest, n));
    let at = first_dash(rest);
    assert(is_first_dash(rest, at));
    assert(at == n);
    let first_bytes = rest.subrange(0, n);
    let last_bytes = rest.subrange(n + 1, rest.len() as int);
    assert forall|i: int| 0 <= i < n implies first_bytes[i] == first[i] as u8 by {
        assert(text[i + 6] == first[i]);
    }
    assert forall|i: int| 0 <= i < m implies last_bytes[i] == last[i] as u8 by {
        assert(text[i + 7 + n] == last[i]);
    }
    lemma_digit_bytes(first, first_bytes);
    lemma_digit_bytes(last, last_bytes);
    assert(first_bytes[0] != 43 && last_bytes[0] != 43) by {
        assert('0' <= first[0] <= '9');
        assert('0' <= last[0] <= '9');
    }
    assert(decimal_u64(first_bytes) == Some(range.start));
    assert(decimal_u64(last_bytes) == Some(last_byte(range) as u64));
    assert(bound_of(first_bytes) == Some(Bound::Included(range.start)));
    assert(bound_of(last_bytes) == Some(Bound::Included(last_byte(range) as u64)));
    assert(has_dash(rest));
}

/// The first and last byte that a `Content-Range` header of the given text
/// names, as the `headers` crate decodes it.
pub uninterp spec fn content_range(value: Seq<char>) -> Option<(u64, u64)>;

/// `ContentRange::decode` and `ContentRange::bytes_range` on one header
/// value: the inclusive byte range that the header names, if it names one.
/// The first byte never lies after the last.
#[verifier::external_body]
fn content_range_bytes(value: &str) -> (r: Option<(u64, u64)>)
    ensures
        r == content_range(value@),
        r is Some ==> r->Some_0.0 <= r->Some_0.1,
{
    let header = HeaderValue::from_str(value).ok()?;
    ContentRange::decode(&mut std::iter::once(&header)).ok()?.bytes_range()
}

/// The bytes that a response holds, half-open: what `Content-Range` names
/// in a partial response, the whole of `Content-Length` in a full one, and
/// the requested range where the header is missing.
pub open spec fn response_range(
    requested: Range<u64>,
    partial: bool,
    named: Option<(u64, u64)>,
    length: Option<u64>,
) -> Range<u64> {
    if partial {
        match named {
            Some((first, last)) => first..(if last == u64::MAX {
                u64::MAX
            } else {
                (last + 1) as u64
            }),
            None => requested,
        }
    } else {
        match length {
            Some(len) => 0..len,
            None => requested,
        }
    }
}

/// Whether a response range covers the requested range.
pub open spec fn covers(response: Range<u64>, requested: Range<u64>) -> bool {
    response.start <= requested.start && requested.end <= response.end
}

/// Settles which bytes a response holds and checks that they cover the
/// request. `named` is the inclusive range of `Content-Range`, `length` the
/// value of `Content-Length`, each if present.
pub fn resolve_response_range(
    requested: &Range<u64>,
    partial: bool,
    named: Option<(u64, u64)>,
    length: Option<u64>,
) -> (r: Result<Range<u64>, Error>)
    ensures
        r is Ok <==> covers(response_range(*requested, partial, named, length), *requested),
        r is Ok ==> r->Ok_0 == response_range(*requested, partial, named, length),
        r is Err ==> r->Err_0 == Error::FileRangeResponseInvalid(requested.start, requested.end),
{
    let response = if partial {
        match named {
            Some((first, last)) => first..last.saturating_add(1),
            None => requested.start..requested.end,
        }
    } else {
        match length {
            Some(len) => 0..len,
            None => requested.start..requested.end,
        }
    };
    if response.start > requested.start || response.end < requested.end {
        Err(Error::FileRangeResponseInvalid(requested.start, requested.end))
    } else {
        Ok(response)
    }
}

/// The length that the `Content-Length` headers of a response name: every
/// value must spell the same number. `None` where there is no value, where
/// one does not spell a number, or where two differ.
pub open spec fn content_length(values: Seq<Seq<u8>>) -> Option<u64> {
    if values.len() > 0 && decimal_u64(values[0]) is Some && forall|i: int|
        0 <= i < values.len() ==> decimal_u64(#[trigger] values[i]) == decimal_u64(values[0]) {
        decimal_u64(values[0])
    } else {
        None
    }
}

/// The bytes of each value of a run of header values.
pub open spec fn value_bytes(values: Seq<Vec<u8>>) -> Seq<Seq<u8>> {
    Seq::new(values.len(), |i: int| values[i]@)
}

/// Reads the `Content-Length` of a response from the values of all its
/// `Content-Length` headers, each as received.
pub fn read_content_length(values: &Vec<Vec<u8>>) -> (r: Option<u64>)
    ensures
        r == content_length(value_bytes(values@)),
{
    let ghost texts = value_bytes(values@);
    if values.len() == 0 {
        return None;
    }
    let first = match parse_u64(values[0].as_slice()) {
        Some(first) => first,
        None => {
            proof {
                assert(texts[0] == values@[0]@);
            }
            return None;
        },
    };
    let mut i: usize = 1;
    while i < values.len()
        invariant
            1 <= i <= values@.len(),
            texts == value_bytes(values@),
            decimal_u64(texts[0]) == Some(first),
            forall|j: int| 0 <= j < i ==> decimal_u64(#[trigger] texts[j]) == Some(first),
        decreases values@.len() - i,
    {
        match parse_u64(values[i].as_slice()) {
            Some(next) => {
                if next != first {
                    proof {
                        assert(decimal_u64(texts[i as int]) != decimal_u64(texts[0]));
                    }
                    return None;
                }
            },
            None => {
                proof {
                    assert(decimal_u64(texts[i as int]) != decimal_u64(texts[0]));
                }
                return None;
            },
        }
        i += 1;
    }
    Some(first)
}

/// Reads the range of a response from its status and headers and checks
/// that it covers the request. `partial` says whether the status is 206;
/// `content_range_value` is the first `Content-Range` header, if present,
/// and `content_length_values` are all `Content-Length` headers, each as
/// received.
pub fn read_response_range(
    requested: &Range<u64>,
    partial: bool,
    content_range_value: Option<&str>,
    content_length_values: &Vec<Vec<u8>>,
) -> (r: Result<Range<u64>, Error>)
    ensures
        ({
            let named = match content_range_value {
                Some(v) => content_range(v@),
                None => None,
            };
            let length = content_length(value_bytes(content_length_values@));
            &&& r is Ok <==> covers(response_range(*requested, partial, named, length), *requested)
            &&& r is Ok ==> r->Ok_0 == response_range(*requested, partial, named, length)
            &&& r is Err ==> r->Err_0 == Error::FileRangeResponseInvalid(
                requested.start,
                requested.end,
            )
        }),
{
    let named = match content_range_value {
        Some(v) => content_range_bytes(v),
        None => None,
    };
    let length = read_content_length(content_length_values);
    resolve_response_range(requested, partial, named, length)
}

} // verus!
