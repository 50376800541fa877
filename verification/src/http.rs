//! HTTP/1.1 response headers and request-line helpers.
use vstd::prelude::*;

use crate::codec::{
    decimal, decimal_bytes, guessed_mime, mime_for_extension, percent_decode_bytes,
    percent_decoded, utf8_text,
};
use crate::header_buffer::{
    header_bytes, header_slice, try_extend, HttpHeaderBuffer, RESPONSE_HEADER_BUFFER_SIZE,
};
use crate::text::{ascii, chars_of};
use vstd::utf8::{decode_utf8, encode_utf8, valid_utf8};

verus! {

broadcast use vstd::string::group_string_axioms;

/// Why a request path could not be mapped to a file.
#[derive(PartialEq, Eq, Structural, Clone, Copy, Debug)]
pub enum RequestPathError {
    /// The percent-decoded path is not valid UTF-8.
    InvalidEncoding,
    /// The path names the root directory or a parent directory (`..`).
    Traversal,
    /// The resolved path is longer than a Linux path may be.
    TooLong,
}

pub open spec fn internal_server_error_response() -> Seq<u8> {
    ascii("HTTP/1.1 500 Internal Server Error\r\nContent-Length: 0\r\n\r\n"@)
}

pub open spec fn bad_request_response() -> Seq<u8> {
    ascii("HTTP/1.1 400 Bad Request\r\nContent-Length: 0\r\n\r\n"@)
}

pub open spec fn not_found_response() -> Seq<u8> {
    ascii("HTTP/1.1 404 Not Found\r\nContent-Length: 0\r\n\r\n"@)
}

pub open spec fn content_too_large_response() -> Seq<u8> {
    ascii("HTTP/1.1 413 Content Too Large\r\nContent-Length: 0\r\n\r\n"@)
}

/// The lengths of the fixed responses; each fits in an empty header buffer.
pub proof fn lemma_static_response_lengths()
    ensures
        internal_server_error_response().len() == 57,
        bad_request_response().len() == 47,
        not_found_response().len() == 45,
        content_too_large_response().len() == 53,
{
    reveal_strlit("HTTP/1.1 500 Internal Server Error\r\nContent-Length: 0\r\n\r\n");
    reveal_strlit("HTTP/1.1 400 Bad Request\r\nContent-Length: 0\r\n\r\n");
    reveal_strlit("HTTP/1.1 404 Not Found\r\nContent-Length: 0\r\n\r\n");
    reveal_strlit("HTTP/1.1 413 Content Too Large\r\nContent-Length: 0\r\n\r\n");
}

/// The bytes of an ASCII string literal.
fn literal_bytes(s: &'static str) -> (b: &'static [u8])
    requires
        vstd::string::is_ascii(s),
    ensures
        b@ == ascii(s@),
{
    let b = s.as_bytes();
    assert(b@ =~= ascii(s@));
    b
}

fn write_static_response_header(buf: &mut HttpHeaderBuffer, response: &[u8])
    requires
        header_bytes(*old(buf)).len() + response@.len() <= RESPONSE_HEADER_BUFFER_SIZE,
    ensures
        header_bytes(*final(buf)) == header_bytes(*old(buf)) + response@,
{
    let fitted = try_extend(buf, response);
    assert(fitted);
}

/// Appends the `500 Internal Server Error` response.
pub fn write_static_internal_server_error(buf: &mut HttpHeaderBuffer)
    requires
        header_bytes(*old(buf)).len() + internal_server_error_response().len()
            <= RESPONSE_HEADER_BUFFER_SIZE,
    ensures
        header_bytes(*final(buf)) == header_bytes(*old(buf)) + internal_server_error_response(),
{
    proof {
        reveal_strlit("HTTP/1.1 500 Internal Server Error\r\nContent-Length: 0\r\n\r\n");
    }
    write_static_response_header(
        buf,
        literal_bytes("HTTP/1.1 500 Internal Server Error\r\nContent-Length: 0\r\n\r\n"),
    );
}

/// Appends the `400 Bad Request` response.
pub fn write_static_bad_request_error(buf: &mut HttpHeaderBuffer)
    requires
        header_bytes(*old(buf)).len() + bad_request_response().len()
            <= RESPONSE_HEADER_BUFFER_SIZE,
    ensures
        header_bytes(*final(buf)) == header_bytes(*old(buf)) + bad_request_response(),
{
    proof {
        reveal_strlit("HTTP/1.1 400 Bad Request\r\nContent-Length: 0\r\n\r\n");
    }
    write_static_response_header(
        buf,
        literal_bytes("HTTP/1.1 400 Bad Request\r\nContent-Length: 0\r\n\r\n"),
    );
}

/// Appends the `404 Not Found` response.
pub fn write_static_content_not_found_error(buf: &mut HttpHeaderBuffer)
    requires
        header_bytes(*old(buf)).len() + not_found_response().len() <= RESPONSE_HEADER_BUFFER_SIZE,
    ensures
        header_bytes(*final(buf)) == header_bytes(*old(buf)) + not_found_response(),
{
    proof {
        reveal_strlit("HTTP/1.1 404 Not Found\r\nContent-Length: 0\r\n\r\n");
    }
    write_static_response_header(
        buf,
        literal_bytes("HTTP/1.1 404 Not Found\r\nContent-Length: 0\r\n\r\n"),
    );
}

/// Appends the `413 Content Too Large` response.
pub fn write_static_content_too_large_error(buf: &mut HttpHeaderBuffer)
    requires
        header_bytes(*old(buf)).len() + content_too_large_response().len()
            <= RESPONSE_HEADER_BUFFER_SIZE,
    ensures
        header_bytes(*final(buf)) == header_bytes(*old(buf)) + content_too_large_response(),
{
    proof {
        reveal_strlit("HTTP/1.1 413 Content Too Large\r\nContent-Length: 0\r\n\r\n");
    }
    write_static_response_header(
        buf,
        literal_bytes("HTTP/1.1 413 Content Too Large\r\nContent-Length: 0\r\n\r\n"),
    );
}

} // verus!

verus! {

/// Appends `s` to `v`.
pub(crate) fn push_bytes(v: &mut Vec<u8>, s: &[u8])
    ensures
        final(v)@ == old(v)@ + s@,
{
    v.extend_from_slice(s);
    assert(final(v)@ =~= old(v)@ + s@);
}

} // verus!

verus! {

/// The index of the last `c` in `s`, or -1 when there is none.
pub open spec fn last_index_of(s: Seq<char>, c: char) -> int
    decreases s.len(),
{
    if s.len() == 0 {
        -1
    } else if s.last() == c {
        s.len() - 1
    } else {
        last_index_of(s.drop_last(), c)
    }
}

pub open spec fn octet_stream() -> Seq<u8> {
    ascii("application/octet-stream"@)
}

/// The `Content-Type` of a file: the first MIME type known for the text after
/// the last `.` of its path, or `application/octet-stream`.
pub open spec fn content_type(path: Seq<char>) -> Seq<u8> {
    let k = last_index_of(path, '.');
    let guess = if k < 0 {
        None
    } else {
        guessed_mime(path.skip(k + 1))
    };
    match guess {
        Some(m) => encode_utf8(m),
        None => octet_stream(),
    }
}

/// The header of a `200 OK` response that carries a file.
pub open spec fn ok_response_header(path: Seq<char>, content_length: usize) -> Seq<u8> {
    ascii("HTTP/1.1 200 OK\r\nContent-Type: "@) + content_type(path) + ascii(
        "\r\nContent-Length: "@,
    ) + decimal(content_length as nat) + ascii("\r\n\r\n"@)
}

/// The header of a `206 Partial Content` response for bytes
/// `offset ..= offset + length - 1` of a file of `file_size` bytes.
pub open spec fn partial_content_header(
    path: Seq<char>,
    offset: usize,
    length: usize,
    file_size: usize,
) -> Seq<u8> {
    ascii("HTTP/1.1 206 Partial Content\r\nContent-Type: "@) + content_type(path) + ascii(
        "\r\nContent-Length: "@,
    ) + decimal(length as nat) + ascii("\r\nContent-Range: bytes "@) + decimal(offset as nat)
        + ascii("-"@) + decimal((offset + length - 1) as nat) + ascii("/"@) + decimal(
        file_size as nat,
    ) + ascii("\r\n\r\n"@)
}

/// The header of a `416 Range Not Satisfiable` response for a file of `file_size` bytes.
pub open spec fn range_not_satisfiable_header(file_size: usize) -> Seq<u8> {
    ascii("HTTP/1.1 416 Range Not Satisfiable\r\nContent-Range: bytes */"@) + decimal(
        file_size as nat,
    ) + ascii("\r\nContent-Length: 0\r\n\r\n"@)
}

/// The bytes of `Content-Type` for `path`.
fn content_type_bytes(path: &str) -> (r: Vec<u8>)
    ensures
        r@ == content_type(path@),
{
    let v = chars_of(path);
    let mut i = v.len();
    assert(v@.subrange(0, i as int) =~= path@);
    while i > 0 && v[i - 1] != '.'
        invariant
            i <= v@.len(),
            v@ == path@,
            last_index_of(path@, '.') == last_index_of(v@.subrange(0, i as int), '.'),
        decreases i,
    {
        assert(v@.subrange(0, i as int).drop_last() =~= v@.subrange(0, i - 1));
        i = i - 1;
    }
    let mut r: Vec<u8> = Vec::new();
    if i == 0 {
        proof {
            reveal_strlit("application/octet-stream");
        }
        push_bytes(&mut r, literal_bytes("application/octet-stream"));
        assert(r@ =~= content_type(path@));
        return r;
    }
    assert(last_index_of(path@, '.') == i - 1);
    let ext = path.substring_char(i, v.len());
    assert(ext@ =~= path@.skip(i as int));
    match mime_for_extension(ext) {
        Some(m) => {
            push_bytes(&mut r, m.as_bytes());
        },
        None => {
            proof {
                reveal_strlit("application/octet-stream");
            }
            push_bytes(&mut r, literal_bytes("application/octet-stream"));
        },
    }
    assert(r@ =~= content_type(path@));
    r
}

} // verus!

verus! {

/// The bytes of `ok_response_header(path, content_length)`.
fn ok_response_bytes(path: &str, content_length: usize) -> (r: Vec<u8>)
    ensures
        r@ == ok_response_header(path@, content_length),
{
    let mut r: Vec<u8> = Vec::new();
    proof {
        reveal_strlit("HTTP/1.1 200 OK\r\nContent-Type: ");
        reveal_strlit("\r\nContent-Length: ");
        reveal_strlit("\r\n\r\n");
    }
    push_bytes(&mut r, literal_bytes("HTTP/1.1 200 OK\r\nContent-Type: "));
    let content_type = content_type_bytes(path);
    push_bytes(&mut r, content_type.as_slice());
    push_bytes(&mut r, literal_bytes("\r\nContent-Length: "));
    let length = decimal_bytes(content_length);
    push_bytes(&mut r, length.as_slice());
    push_bytes(&mut r, literal_bytes("\r\n\r\n"));
    r
}

/// Appends the header of a `200 OK` response for the file at `path`, whose
/// content type follows from its extension.
pub fn write_dynamic_ok_response(buf: &mut HttpHeaderBuffer, path: &str, content_length: usize)
    requires
        header_bytes(*old(buf)).len() + ok_response_header(path@, content_length).len()
            <= RESPONSE_HEADER_BUFFER_SIZE,
    ensures
        header_bytes(*final(buf)) == header_bytes(*old(buf)) + ok_response_header(
            path@,
            content_length,
        ),
{
    let bytes = ok_response_bytes(path, content_length);
    let fitted = try_extend(buf, bytes.as_slice());
    assert(fitted);
}

/// Appends the header of a `200 OK` response when it fits in the buffer;
/// otherwise leaves the buffer as it was and returns `false`.
pub fn try_write_dynamic_ok_response(
    buf: &mut HttpHeaderBuffer,
    path: &str,
    content_length: usize,
) -> (written: bool)
    ensures
        written == (header_bytes(*old(buf)).len() + ok_response_header(path@, content_length).len()
            <= RESPONSE_HEADER_BUFFER_SIZE),
        written ==> header_bytes(*final(buf)) == header_bytes(*old(buf)) + ok_response_header(
            path@,
            content_length,
        ),
        !written ==> header_bytes(*final(buf)) == header_bytes(*old(buf)),
{
    let bytes = ok_response_bytes(path, content_length);
    let used = header_slice(buf).len();
    if used <= RESPONSE_HEADER_BUFFER_SIZE && bytes.len() <= RESPONSE_HEADER_BUFFER_SIZE - used {
        write_dynamic_ok_response(buf, path, content_length);
        true
    } else {
        false
    }
}

/// The bytes of `partial_content_header(path, offset, length, file_size)`.
fn partial_content_bytes(path: &str, offset: usize, length: usize, file_size: usize) -> (r: Vec<
    u8,
>)
    requires
        1 <= offset + length <= usize::MAX,
    ensures
        r@ == partial_content_header(path@, offset, length, file_size),
{
    let mut r: Vec<u8> = Vec::new();
    proof {
        reveal_strlit("HTTP/1.1 206 Partial Content\r\nContent-Type: ");
        reveal_strlit("\r\nContent-Length: ");
        reveal_strlit("\r\nContent-Range: bytes ");
        reveal_strlit("-");
        reveal_strlit("/");
        reveal_strlit("\r\n\r\n");
    }
    push_bytes(&mut r, literal_bytes("HTTP/1.1 206 Partial Content\r\nContent-Type: "));
    let content_type = content_type_bytes(path);
    push_bytes(&mut r, content_type.as_slice());
    push_bytes(&mut r, literal_bytes("\r\nContent-Length: "));
    let n = decimal_bytes(length);
    push_bytes(&mut r, n.as_slice());
    push_bytes(&mut r, literal_bytes("\r\nContent-Range: bytes "));
    let n = decimal_bytes(offset);
    push_bytes(&mut r, n.as_slice());
    push_bytes(&mut r, literal_bytes("-"));
    let n = decimal_bytes(offset + length - 1);
    push_bytes(&mut r, n.as_slice());
    push_bytes(&mut r, literal_bytes("/"));
    let n = decimal_bytes(file_size);
    push_bytes(&mut r, n.as_slice());
    push_bytes(&mut r, literal_bytes("\r\n\r\n"));
    r
}

/// Appends the header of a `206 Partial Content` response for bytes
/// `offset ..= offset + length - 1` of the file at `path`.
pub fn write_dynamic_partial_content_response(
    buf: &mut HttpHeaderBuffer,
    path: &str,
    offset: usize,
    length: usize,
    file_size: usize,
)
    requires
        1 <= offset + length <= usize::MAX,
        header_bytes(*old(buf)).len() + partial_content_header(
            path@,
            offset,
            length,
            file_size,
        ).len() <= RESPONSE_HEADER_BUFFER_SIZE,
    ensures
        header_bytes(*final(buf)) == header_bytes(*old(buf)) + partial_content_header(
            path@,
            offset,
            length,
            file_size,
        ),
{
    let bytes = partial_content_bytes(path, offset, length, file_size);
    let fitted = try_extend(buf, bytes.as_slice());
    assert(fitted);
}

/// Appends the header of a `206 Partial Content` response when it fits in
/// the buffer; otherwise leaves the buffer as it was and returns `false`.
pub fn try_write_dynamic_partial_content_response(
    buf: &mut HttpHeaderBuffer,
    path: &str,
    offset: usize,
    length: usize,
    file_size: usize,
) -> (written: bool)
    requires
        1 <= offset + length <= usize::MAX,
    ensures
        written == (header_bytes(*old(buf)).len() + partial_content_header(
            path@,
            offset,
            length,
            file_size,
        ).len() <= RESPONSE_HEADER_BUFFER_SIZE),
        written ==> header_bytes(*final(buf)) == header_bytes(*old(buf)) + partial_content_header(
            path@,
            offset,
            length,
            file_size,
        ),
        !written ==> header_bytes(*final(buf)) == header_bytes(*old(buf)),
{
    let bytes = partial_content_bytes(path, offset, length, file_size);
    let used = header_slice(buf).len();
    if used <= RESPONSE_HEADER_BUFFER_SIZE && bytes.len() <= RESPONSE_HEADER_BUFFER_SIZE - used {
        write_dynamic_partial_content_response(buf, path, offset, length, file_size);
        true
    } else {
        false
    }
}

/// The `416` header is at most 102 bytes long.
pub proof fn lemma_range_not_satisfiable_header_len(file_size: usize)
    ensures
        range_not_satisfiable_header(file_size).len() <= 102,
{
    reveal_strlit("HTTP/1.1 416 Range Not Satisfiable\r\nContent-Range: bytes */");
    reveal_strlit("\r\nContent-Length: 0\r\n\r\n");
    crate::codec::lemma_decimal_len(file_size);
}

/// Appends the header of a `416 Range Not Satisfiable` response for a file of
/// `file_size` bytes.
pub fn write_static_range_not_satisfiable_error(buf: &mut HttpHeaderBuffer, file_size: usize)
    requires
        header_bytes(*old(buf)).len() + range_not_satisfiable_header(file_size).len()
            <= RESPONSE_HEADER_BUFFER_SIZE,
    ensures
        header_bytes(*final(buf)) == header_bytes(*old(buf)) + range_not_satisfiable_header(
            file_size,
        ),
{
    let mut r: Vec<u8> = Vec::new();
    proof {
        reveal_strlit("HTTP/1.1 416 Range Not Satisfiable\r\nContent-Range: bytes */");
        reveal_strlit("\r\nContent-Length: 0\r\n\r\n");
    }
    push_bytes(&mut r, literal_bytes("HTTP/1.1 416 Range Not Satisfiable\r\nContent-Range: bytes */"));
    let n = decimal_bytes(file_size);
    push_bytes(&mut r, n.as_slice());
    push_bytes(&mut r, literal_bytes("\r\nContent-Length: 0\r\n\r\n"));
    let fitted = try_extend(buf, r.as_slice());
    assert(fitted);
}

} // verus!

verus! {

/// Most headers a request may carry; one more makes the request invalid.
pub const MAX_REQUEST_HEADERS: usize = 16;

/// The request line of a complete request: its method and its path.
pub struct ParsedRequest {
    pub method: Option<String>,
    pub path: Option<String>,
}

/// The outcome of parsing the bytes received so far.
pub enum RequestParse {
    /// The head of a request is complete.
    Complete(ParsedRequest),
    /// More bytes are needed.
    Partial,
    /// The bytes are not an HTTP/1.x request.
    Invalid,
}

/// What a request parse holds, as text.
pub enum RequestParseView {
    Complete { method: Option<Seq<char>>, path: Option<Seq<char>> },
    Partial,
    Invalid,
}

pub open spec fn text_of(s: Option<String>) -> Option<Seq<char>> {
    match s {
        Some(t) => Some(t@),
        None => None,
    }
}

impl View for RequestParse {
    type V = RequestParseView;

    open spec fn view(&self) -> RequestParseView {
        match self {
            RequestParse::Complete(p) => RequestParseView::Complete {
                method: text_of(p.method),
                path: text_of(p.path),
            },
            RequestParse::Partial => RequestParseView::Partial,
            RequestParse::Invalid => RequestParseView::Invalid,
        }
    }
}

/// What httparse makes of `buf` as an HTTP/1.x request head, with room for
/// `max_headers` headers.
pub uninterp spec fn httparse_request(buf: Seq<u8>, max_headers: nat) -> RequestParseView;

/// `httparse::Request::parse` with room for `N` headers: whether `buf` holds
/// a complete request head and, when it does, its method and path.
#[verifier::external_body]
pub(crate) fn parse_request<const N: usize>(buf: &[u8]) -> (r: RequestParse)
    ensures
        r@ == httparse_request(buf@, N as nat),
{
    let mut headers = [httparse::EMPTY_HEADER; N];
    let mut request = httparse::Request::new(&mut headers);
    match request.parse(buf) {
        Ok(httparse::Status::Complete(_)) => RequestParse::Complete(ParsedRequest {
            method: request.method.map(String::from),
            path: request.path.map(String::from),
        }),
        Ok(httparse::Status::Partial) => RequestParse::Partial,
        Err(_) => RequestParse::Invalid,
    }
}

pub open spec fn ascii_lower(b: u8) -> u8 {
    if 65 <= b <= 90 {
        (b + 32) as u8
    } else {
        b
    }
}

/// `GET`, in any ASCII case.
pub open spec fn is_get_method(m: Seq<u8>) -> bool {
    m.len() == 3 && ascii_lower(m[0]) == 103 && ascii_lower(m[1]) == 101 && ascii_lower(m[2])
        == 116
}

/// Whether the request's method is `GET`, compared without regard to ASCII case.
pub fn is_get_request(request: &ParsedRequest) -> (r: bool)
    ensures
        r == (request.method matches Some(m) && is_get_method(encode_utf8(m@))),
{
    match &request.method {
        None => false,
        Some(m) => {
            let b = m.as_str().as_bytes();
            if b.len() != 3 {
                return false;
            }
            let lower0 = if 65 <= b[0] && b[0] <= 90 { b[0] + 32 } else { b[0] };
            let lower1 = if 65 <= b[1] && b[1] <= 90 { b[1] + 32 } else { b[1] };
            let lower2 = if 65 <= b[2] && b[2] <= 90 { b[2] + 32 } else { b[2] };
            lower0 == 103 && lower1 == 101 && lower2 == 116
        },
    }
}

/// `b` without its leading `/` bytes.
pub open spec fn strip_leading_slashes(b: Seq<u8>) -> Seq<u8>
    decreases b.len(),
{
    if b.len() > 0 && b[0] == 47 {
        strip_leading_slashes(b.drop_first())
    } else {
        b
    }
}

/// The bytes a request path stands for: leading `/` removed, then percent-decoded.
pub open spec fn decoded_request_path(path: Seq<char>) -> Seq<u8> {
    percent_decoded(strip_leading_slashes(encode_utf8(path)))
}

/// Strips the leading `/` from a request path and percent-decodes it; fails
/// when the decoded bytes are not valid UTF-8.
pub fn decode_http_request_path(path: &str) -> (r: Result<String, RequestPathError>)
    ensures
        match r {
            Ok(s) => valid_utf8(decoded_request_path(path@)) && s@ == decode_utf8(
                decoded_request_path(path@),
            ),
            Err(e) => !valid_utf8(decoded_request_path(path@)) && e
                == RequestPathError::InvalidEncoding,
        },
{
    let b = path.as_bytes();
    let mut k: usize = 0;
    assert(b@.subrange(0, b@.len() as int) =~= b@);
    while k < b.len() && b[k] == 47
        invariant
            k <= b@.len(),
            b@ == encode_utf8(path@),
            strip_leading_slashes(b@) == strip_leading_slashes(
                b@.subrange(k as int, b@.len() as int),
            ),
        decreases b@.len() - k,
    {
        assert(b@.subrange(k as int, b@.len() as int).drop_first() =~= b@.subrange(
            k + 1,
            b@.len() as int,
        ));
        k = k + 1;
    }
    let rest = vstd::slice::slice_subrange(b, k, b.len());
    assert(strip_leading_slashes(rest@) == rest@);
    let decoded = percent_decode_bytes(rest);
    match utf8_text(decoded) {
        Some(s) => Ok(s),
        None => Err(RequestPathError::InvalidEncoding),
    }
}

} // verus!

verus! {

proof fn lemma_last_index_after(s: Seq<char>, e: Seq<char>, c: char)
    requires
        s.len() > 0,
        s.last() == c,
        !e.contains(c),
    ensures
        last_index_of(s + e, c) == s.len() - 1,
    decreases e.len(),
{
    if e.len() == 0 {
        assert(s + e =~= s);
    } else {
        assert((s + e).last() == e.last());
        assert((s + e).drop_last() =~= s + e.drop_last());
        assert(!e.drop_last().contains(c)) by {
            if e.drop_last().contains(c) {
                let k = choose|k: int| 0 <= k < e.drop_last().len() && e.drop_last()[k] == c;
                assert(e[k] == c);
            }
        }
        lemma_last_index_after(s, e.drop_last(), c);
    }
}

proof fn lemma_last_index_absent(s: Seq<char>, c: char)
    requires
        !s.contains(c),
    ensures
        last_index_of(s, c) == -1,
    decreases s.len(),
{
    if s.len() > 0 {
        assert(s.last() == s[s.len() - 1]);
        assert(!s.drop_last().contains(c)) by {
            if s.drop_last().contains(c) {
                let k = choose|k: int| 0 <= k < s.drop_last().len() && s.drop_last()[k] == c;
                assert(s[k] == c);
            }
        }
        lemma_last_index_absent(s.drop_last(), c);
    }
}

/// The `Content-Type` of a file depends only on the text after the last `.`
/// of its path, whatever comes before it: the first MIME type known for that
/// extension, or `application/octet-stream` when none is known.
pub proof fn lemma_content_type_is_last_extension(prefix: Seq<char>, ext: Seq<char>)
    requires
        !ext.contains('.'),
    ensures
        content_type(prefix + seq!['.'] + ext) == match guessed_mime(ext) {
            Some(m) => encode_utf8(m),
            None => ascii("application/octet-stream"@),
        },
{
    let s = prefix + seq!['.'];
    assert(prefix + seq!['.'] + ext =~= s + ext);
    lemma_last_index_after(s, ext, '.');
    assert((s + ext).skip(s.len() as int) =~= ext);
}

/// A path without a `.` has no extension and is sent as
/// `application/octet-stream`.
pub proof fn lemma_content_type_without_extension(path: Seq<char>)
    requires
        !path.contains('.'),
    ensures
        content_type(path) == ascii("application/octet-stream"@),
{
    lemma_last_index_absent(path, '.');
}

proof fn lemma_strip_leading_slashes(b: Seq<u8>, k: int)
    requires
        0 <= k <= b.len(),
        forall|i: int| 0 <= i < k ==> b[i] == 47u8,
        k == b.len() || b[k] != 47u8,
    ensures
        strip_leading_slashes(b) == b.skip(k),
    decreases k,
{
    if k == 0 {
        assert(b.skip(0) =~= b);
    } else {
        assert(b.drop_first().skip(k - 1) =~= b.skip(k));
        lemma_strip_leading_slashes(b.drop_first(), k - 1);
    }
}

proof fn lemma_percent_decoded_plain(b: Seq<u8>)
    requires
        !b.contains(37u8),
    ensures
        crate::codec::percent_decoded(b) == b,
    decreases b.len(),
{
    if b.len() > 0 {
        assert(b[0] != 37u8);
        assert(!b.skip(1).contains(37u8)) by {
            if b.skip(1).contains(37u8) {
                let k = choose|k: int| 0 <= k < b.skip(1).len() && b.skip(1)[k] == 37u8;
                assert(b[k + 1] == 37u8);
            }
        }
        lemma_percent_decoded_plain(b.skip(1));
        assert(seq![b[0]] + b.skip(1) =~= b);
    }
}

/// Decoding a request path changes only `%` escapes: for a path without a
/// `%`, the decoded bytes are the path's bytes after its leading `/`s,
/// unchanged (a `+` stays a `+`).
pub proof fn lemma_decoding_leaves_plain_bytes(path: Seq<char>, k: int)
    requires
        !encode_utf8(path).contains(37u8),
        0 <= k <= encode_utf8(path).len(),
        forall|i: int| 0 <= i < k ==> encode_utf8(path)[i] == 47u8,
        k == encode_utf8(path).len() || encode_utf8(path)[k] != 47u8,
    ensures
        decoded_request_path(path) == encode_utf8(path).skip(k),
{
    let b = encode_utf8(path);
    lemma_strip_leading_slashes(b, k);
    assert(!b.skip(k).contains(37u8)) by {
        if b.skip(k).contains(37u8) {
            let j = choose|j: int| 0 <= j < b.skip(k).len() && b.skip(k)[j] == 37u8;
            assert(b[j + k] == 37u8);
        }
    }
    lemma_percent_decoded_plain(b.skip(k));
}

/// The ASCII hexadecimal digit of a nibble, in upper or lower case.
pub open spec fn hex_digit(n: int, upper: bool) -> u8 {
    if n < 10 {
        (48 + n) as u8
    } else if upper {
        (55 + n) as u8
    } else {
        (87 + n) as u8
    }
}

/// Every byte of `b` written as a `%` escape.
pub open spec fn escape_all(b: Seq<u8>, upper: bool) -> Seq<u8>
    decreases b.len(),
{
    if b.len() == 0 {
        Seq::empty()
    } else {
        seq![37u8, hex_digit(b[0] as int / 16, upper), hex_digit(b[0] as int % 16, upper)] + escape_all(
            b.skip(1),
            upper,
        )
    }
}

/// Percent-decoding undoes percent-encoding: a byte string written wholly as
/// `%XX` escapes, in either case, decodes back to itself.
pub proof fn lemma_percent_decoding_undoes_escapes(b: Seq<u8>, upper: bool)
    ensures
        crate::codec::percent_decoded(escape_all(b, upper)) == b,
    decreases b.len(),
{
    if b.len() > 0 {
        let e = escape_all(b, upper);
        let x = b[0];
        let hi = x as int / 16;
        let lo = x as int % 16;
        assert(e[0] == 37u8);
        assert(e[1] == hex_digit(hi, upper));
        assert(e[2] == hex_digit(lo, upper));
        assert(crate::codec::is_hex_digit(e[1]) && crate::codec::hex_value(e[1]) == hi);
        assert(crate::codec::is_hex_digit(e[2]) && crate::codec::hex_value(e[2]) == lo);
        assert(hi * 16 + lo == x);
        assert(e.skip(3) =~= escape_all(b.skip(1), upper));
        lemma_percent_decoding_undoes_escapes(b.skip(1), upper);
        assert(seq![x] + b.skip(1) =~= b);
    }
}

} // verus!
