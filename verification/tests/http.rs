use arrayvec::ArrayVec;
use iobeam::http::{
    decode_http_request_path, is_get_request, try_write_dynamic_ok_response,
    try_write_dynamic_partial_content_response, write_dynamic_ok_response,
    write_dynamic_partial_content_response, write_static_bad_request_error,
    write_static_content_not_found_error, write_static_content_too_large_error,
    write_static_internal_server_error, write_static_range_not_satisfiable_error, ParsedRequest,
    RequestPathError,
};
use iobeam::header_buffer::HttpHeaderBuffer;

fn text(buf: &HttpHeaderBuffer) -> String {
    String::from_utf8(buf.as_slice().to_vec()).unwrap()
}

#[test]
fn static_error_responses() {
    let mut buf: HttpHeaderBuffer = ArrayVec::new();
    write_static_internal_server_error(&mut buf);
    assert_eq!(text(&buf), "HTTP/1.1 500 Internal Server Error\r\nContent-Length: 0\r\n\r\n");
    let mut buf: HttpHeaderBuffer = ArrayVec::new();
    write_static_bad_request_error(&mut buf);
    assert_eq!(text(&buf), "HTTP/1.1 400 Bad Request\r\nContent-Length: 0\r\n\r\n");
    let mut buf: HttpHeaderBuffer = ArrayVec::new();
    write_static_content_not_found_error(&mut buf);
    assert_eq!(text(&buf), "HTTP/1.1 404 Not Found\r\nContent-Length: 0\r\n\r\n");
    let mut buf: HttpHeaderBuffer = ArrayVec::new();
    write_static_content_too_large_error(&mut buf);
    assert_eq!(text(&buf), "HTTP/1.1 413 Content Too Large\r\nContent-Length: 0\r\n\r\n");
}

#[test]
fn responses_append_to_what_is_there() {
    let mut buf: HttpHeaderBuffer = ArrayVec::new();
    buf.try_extend_from_slice(b"xy").unwrap();
    write_static_content_not_found_error(&mut buf);
    assert_eq!(text(&buf), "xyHTTP/1.1 404 Not Found\r\nContent-Length: 0\r\n\r\n");
}

#[test]
fn ok_response_carries_type_and_length() {
    let mut buf: HttpHeaderBuffer = ArrayVec::new();
    write_dynamic_ok_response(&mut buf, "/srv/www/index.html", 1234);
    assert_eq!(
        text(&buf),
        "HTTP/1.1 200 OK\r\nContent-Type: text/html\r\nContent-Length: 1234\r\n\r\n"
    );
}

#[test]
fn unknown_or_missing_extension_is_octet_stream() {
    for path in ["/srv/data.nosuchextension", "/srv/README", "/srv/a.d/file", "/srv/trailing."] {
        let mut buf: HttpHeaderBuffer = ArrayVec::new();
        write_dynamic_ok_response(&mut buf, path, 0);
        assert_eq!(
            text(&buf),
            "HTTP/1.1 200 OK\r\nContent-Type: application/octet-stream\r\nContent-Length: 0\r\n\r\n"
        );
    }
}

#[test]
fn extension_lookup_ignores_case() {
    let mut buf: HttpHeaderBuffer = ArrayVec::new();
    write_dynamic_ok_response(&mut buf, "/srv/photo.PNG", 7);
    assert_eq!(
        text(&buf),
        "HTTP/1.1 200 OK\r\nContent-Type: image/png\r\nContent-Length: 7\r\n\r\n"
    );
}

#[test]
fn ok_response_that_does_not_fit_leaves_the_buffer() {
    let mut buf: HttpHeaderBuffer = ArrayVec::new();
    buf.try_extend_from_slice(&[b'a'; 200]).unwrap();
    assert!(!try_write_dynamic_ok_response(&mut buf, "/srv/x.html", usize::MAX));
    assert_eq!(buf.len(), 200);
    let mut buf: HttpHeaderBuffer = ArrayVec::new();
    assert!(try_write_dynamic_ok_response(&mut buf, "/srv/x.txt", 5));
    assert_eq!(
        text(&buf),
        "HTTP/1.1 200 OK\r\nContent-Type: text/plain\r\nContent-Length: 5\r\n\r\n"
    );
}

#[test]
fn partial_content_response() {
    let mut buf: HttpHeaderBuffer = ArrayVec::new();
    write_dynamic_partial_content_response(&mut buf, "/srv/a.txt", 100, 50, 1000);
    assert_eq!(
        text(&buf),
        "HTTP/1.1 206 Partial Content\r\nContent-Type: text/plain\r\nContent-Length: 50\r\nContent-Range: bytes 100-149/1000\r\n\r\n"
    );
    let mut buf: HttpHeaderBuffer = ArrayVec::new();
    assert!(try_write_dynamic_partial_content_response(&mut buf, "/srv/b", 0, 1, 1));
    assert_eq!(
        text(&buf),
        "HTTP/1.1 206 Partial Content\r\nContent-Type: application/octet-stream\r\nContent-Length: 1\r\nContent-Range: bytes 0-0/1\r\n\r\n"
    );
}

#[test]
fn range_not_satisfiable_response() {
    let mut buf: HttpHeaderBuffer = ArrayVec::new();
    write_static_range_not_satisfiable_error(&mut buf, 4096);
    assert_eq!(
        text(&buf),
        "HTTP/1.1 416 Range Not Satisfiable\r\nContent-Range: bytes */4096\r\nContent-Length: 0\r\n\r\n"
    );
    let mut buf: HttpHeaderBuffer = ArrayVec::new();
    write_static_range_not_satisfiable_error(&mut buf, 0);
    assert_eq!(
        text(&buf),
        "HTTP/1.1 416 Range Not Satisfiable\r\nContent-Range: bytes */0\r\nContent-Length: 0\r\n\r\n"
    );
}

fn request(method: Option<&str>) -> ParsedRequest {
    ParsedRequest { method: method.map(String::from), path: Some(String::from("/")) }
}

#[test]
fn get_is_recognised_in_any_case() {
    assert!(is_get_request(&request(Some("GET"))));
    assert!(is_get_request(&request(Some("get"))));
    assert!(is_get_request(&request(Some("gEt"))));
    assert!(!is_get_request(&request(Some("POST"))));
    assert!(!is_get_request(&request(Some("GETS"))));
    assert!(!is_get_request(&request(Some("GE"))));
    assert!(!is_get_request(&request(None)));
}

#[test]
fn request_paths_are_stripped_and_percent_decoded() {
    assert_eq!(decode_http_request_path("/foo%20bar"), Ok(String::from("foo bar")));
    assert_eq!(decode_http_request_path("///a/b"), Ok(String::from("a/b")));
    assert_eq!(decode_http_request_path("/%zz%4"), Ok(String::from("%zz%4")));
    assert_eq!(decode_http_request_path("/%2e%2E/x"), Ok(String::from("../x")));
    assert_eq!(decode_http_request_path("/caf%C3%A9"), Ok(String::from("café")));
    assert_eq!(decode_http_request_path(""), Ok(String::new()));
}

#[test]
fn invalid_utf8_after_decoding_is_refused() {
    assert_eq!(decode_http_request_path("/%FF"), Err(RequestPathError::InvalidEncoding));
    assert_eq!(decode_http_request_path("/%C3"), Err(RequestPathError::InvalidEncoding));
}
