use std::io::Read;

use http_server::bytes::{parse_usize_bytes, push_decimal};
use http_server::request::{HttpMethod, HttpRequest, ParseOutcome};
use http_server::response::HttpResponse;
use http_server::router::{file_read_response, file_write_response, route, Route};
use http_server::server::{Connection, Step};
use http_server::utils::compress_body;

fn parse_complete(bytes: &[u8]) -> HttpRequest {
    match HttpRequest::parse(bytes, false) {
        ParseOutcome::Complete(req, n) => {
            assert_eq!(n, bytes.len());
            req
        }
        _ => panic!("expected a complete request"),
    }
}

fn respond(req: &HttpRequest) -> HttpResponse {
    match route(req) {
        Route::Respond(r) => r,
        _ => panic!("expected a direct response"),
    }
}

/// Splits wire bytes into status line, header lines and body.
fn split_wire(wire: &[u8]) -> (String, Vec<(String, String)>, Vec<u8>) {
    let end = wire
        .windows(4)
        .position(|w| w == b"\r\n\r\n")
        .expect("blank line");
    let head = String::from_utf8(wire[..end].to_vec()).unwrap();
    let mut lines = head.split("\r\n");
    let status = lines.next().unwrap().to_string();
    let headers = lines
        .map(|l| {
            let (k, v) = l.split_once(": ").unwrap();
            (k.to_string(), v.to_string())
        })
        .collect();
    (status, headers, wire[end + 4..].to_vec())
}

fn wire_header(headers: &[(String, String)], name: &str) -> Option<String> {
    let found: Vec<&(String, String)> = headers.iter().filter(|(k, _)| k == name).collect();
    assert!(found.len() <= 1, "header {} repeated", name);
    found.first().map(|(_, v)| v.clone())
}

fn serve(raw: &[u8]) -> (String, Vec<(String, String)>, Vec<u8>) {
    let req = parse_complete(raw);
    let wire = respond(&req).encode(&req);
    split_wire(&wire)
}

fn gunzip(data: &[u8]) -> Vec<u8> {
    let mut out = Vec::new();
    flate2::read::GzDecoder::new(data).read_to_end(&mut out).unwrap();
    out
}

#[test]
fn request_line_methods_and_path() {
    let (m, p) = HttpRequest::parse_request_line(b"GET /index.html HTTP/1.1\r\n").unwrap();
    assert_eq!(m, HttpMethod::Get);
    assert_eq!(p, b"/index.html".to_vec());
    let (m, p) = HttpRequest::parse_request_line(b"POST /files/x HTTP/1.1\r\n").unwrap();
    assert_eq!(m, HttpMethod::Post);
    assert_eq!(p, b"/files/x".to_vec());
    let (m, p) = HttpRequest::parse_request_line(b"DELETE /y HTTP/1.1").unwrap();
    assert_eq!(m, HttpMethod::Get);
    assert_eq!(p, b"/y".to_vec());
    let (m, _) = HttpRequest::parse_request_line(b"post /z HTTP/1.1").unwrap();
    assert_eq!(m, HttpMethod::Get);
}

#[test]
fn request_line_without_target_is_rejected() {
    assert!(HttpRequest::parse_request_line(b"GET\r\n").is_none());
    assert!(HttpRequest::parse_request_line(b"   \r\n").is_none());
    assert!(matches!(
        HttpRequest::parse(b"GET\r\n\r\n", false),
        ParseOutcome::Malformed
    ));
}

#[test]
fn header_names_are_case_insensitive() {
    let req = parse_complete(b"GET / HTTP/1.1\r\nUser-Agent: foo\r\n\r\n");
    assert_eq!(req.header(b"user-agent"), Some(&b"foo".to_vec()));
    assert_eq!(req.headers[0].0, b"user-agent".to_vec());
}

#[test]
fn header_lines_trimmed_and_last_wins() {
    let req = parse_complete(b"GET / HTTP/1.1\r\nX-A:   one  \r\nno separator\r\nx-a: two\r\n\r\n");
    assert_eq!(req.header(b"x-a"), Some(&b"two".to_vec()));
    assert_eq!(req.headers.len(), 1);
    assert_eq!(req.headers[0], (b"x-a".to_vec(), b"two".to_vec()));
    let req = parse_complete(b"GET / HTTP/1.1\r\nA: 1\r\nB: 2\r\na: 3\r\n\r\n");
    assert_eq!(req.headers, vec![(b"a".to_vec(), b"3".to_vec()), (b"b".to_vec(), b"2".to_vec())]);
}

#[test]
fn body_across_several_reads() {
    let mut conn = Connection::new();
    conn.receive(b"POST /files/b HTTP/1.1\r\nContent-Length: 10\r\n\r\nabc");
    assert!(matches!(conn.next_step(), Step::ReadMore));
    conn.receive(b"defg");
    assert!(matches!(conn.next_step(), Step::ReadMore));
    conn.receive(b"hij");
    match conn.next_step() {
        Step::Serve(req) => assert_eq!(req.body, b"abcdefghij".to_vec()),
        _ => panic!("expected a request"),
    }
}

#[test]
fn body_bytes_in_same_read_as_head_are_kept() {
    let req = parse_complete(b"POST /files/c HTTP/1.1\r\ncontent-length: 3\r\n\r\nxyz");
    assert_eq!(req.body, b"xyz".to_vec());
}

#[test]
fn bytes_after_request_stay_for_next() {
    match HttpRequest::parse(b"GET /a HTTP/1.1\r\n\r\nGET /b HTTP/1.1\r\n\r\n", false) {
        ParseOutcome::Complete(req, n) => {
            assert_eq!(req.path, b"/a".to_vec());
            assert_eq!(n, 19);
        }
        _ => panic!("expected a request"),
    }
}

#[test]
fn content_length_absent_or_invalid_means_empty_body() {
    let req = parse_complete(b"POST /x HTTP/1.1\r\nContent-Length: abc\r\n\r\n");
    assert!(req.body.is_empty());
    let req = parse_complete(b"POST /x HTTP/1.1\r\n\r\n");
    assert!(req.body.is_empty());
    let req = parse_complete(b"POST /x HTTP/1.1\r\nContent-Length: +2\r\n\r\nok");
    assert_eq!(req.body, b"ok".to_vec());
}

#[test]
fn parse_usize_rules() {
    assert_eq!(parse_usize_bytes(b"0"), Some(0));
    assert_eq!(parse_usize_bytes(b"12345"), Some(12345));
    assert_eq!(parse_usize_bytes(b"+7"), Some(7));
    assert_eq!(parse_usize_bytes(b""), None);
    assert_eq!(parse_usize_bytes(b"+"), None);
    assert_eq!(parse_usize_bytes(b"-1"), None);
    assert_eq!(parse_usize_bytes(b"1 2"), None);
    assert_eq!(parse_usize_bytes(b"99999999999999999999999"), None);
}

#[test]
fn decimal_digits() {
    let mut out = Vec::new();
    push_decimal(&mut out, 0);
    assert_eq!(out, b"0".to_vec());
    let mut out = b"n=".to_vec();
    push_decimal(&mut out, 4096);
    assert_eq!(out, b"n=4096".to_vec());
}

#[test]
fn end_of_stream_outcomes() {
    assert!(matches!(HttpRequest::parse(b"", true), ParseOutcome::Closed));
    assert!(matches!(HttpRequest::parse(b"", false), ParseOutcome::Incomplete));
    assert!(matches!(
        HttpRequest::parse(b"GET / HTTP/1.1\r\nHost: a\r\n", true),
        ParseOutcome::Malformed
    ));
    assert!(matches!(HttpRequest::parse(b"GET / HTT", true), ParseOutcome::Malformed));
    match HttpRequest::parse(b"POST /x HTTP/1.1\r\nContent-Length: 9\r\n\r\nabcd", true) {
        ParseOutcome::Complete(req, n) => {
            assert_eq!(req.body, b"abcd".to_vec());
            assert_eq!(n, 43);
        }
        _ => panic!("expected a short body"),
    }
}

#[test]
fn root_route() {
    let (status, headers, body) = serve(b"GET / HTTP/1.1\r\n\r\n");
    assert_eq!(status, "HTTP/1.1 200 OK");
    assert_eq!(wire_header(&headers, "Content-Type"), Some("text/plain".to_string()));
    assert!(body.is_empty());
}

#[test]
fn echo_hello() {
    let (status, _, body) = serve(b"GET /echo/hello HTTP/1.1\r\n\r\n");
    assert_eq!(status, "HTTP/1.1 200 OK");
    assert_eq!(body, b"hello".to_vec());
}

#[test]
fn user_agent_reflected() {
    let (status, _, body) = serve(b"GET /user-agent HTTP/1.1\r\nUser-Agent: test-client/1\r\n\r\n");
    assert_eq!(status, "HTTP/1.1 200 OK");
    assert_eq!(body, b"test-client/1".to_vec());
    let (_, _, body) = serve(b"GET /user-agent HTTP/1.1\r\n\r\n");
    assert!(body.is_empty());
}

#[test]
fn unknown_path_is_not_found() {
    let (status, _, body) = serve(b"GET /nowhere HTTP/1.1\r\n\r\n");
    assert_eq!(status, "HTTP/1.1 404 Not Found");
    assert!(body.is_empty());
}

#[test]
fn missing_file_is_not_found() {
    let req = parse_complete(b"GET /files/missing.txt HTTP/1.1\r\n\r\n");
    match route(&req) {
        Route::ReadFile(name) => assert_eq!(name, b"missing.txt".to_vec()),
        _ => panic!("expected a file read"),
    }
    let res = file_read_response(None);
    assert_eq!(res.status(), &b"404 Not Found".to_vec());
    assert!(res.body().is_empty());
}

#[test]
fn post_then_get_file() {
    let post = parse_complete(b"POST /files/a.txt HTTP/1.1\r\nContent-Length: 3\r\n\r\nxyz");
    match route(&post) {
        Route::WriteFile(name) => assert_eq!(name, b"a.txt".to_vec()),
        _ => panic!("expected a file write"),
    }
    assert_eq!(post.body, b"xyz".to_vec());
    let created = file_write_response(true);
    assert_eq!(created.status(), &b"201 Created".to_vec());
    let get = parse_complete(b"GET /files/a.txt HTTP/1.1\r\n\r\n");
    match route(&get) {
        Route::ReadFile(name) => assert_eq!(name, b"a.txt".to_vec()),
        _ => panic!("expected a file read"),
    }
    let found = file_read_response(Some(b"xyz".to_vec()));
    assert_eq!(found.status(), &b"200 OK".to_vec());
    assert_eq!(found.body(), &b"xyz".to_vec());
    assert_eq!(
        found.header(b"Content-Type"),
        Some(&b"application/octet-stream".to_vec())
    );
}

#[test]
fn failed_write_is_server_error() {
    let res = file_write_response(false);
    assert_eq!(res.status(), &b"500 Internal Server Error".to_vec());
    assert!(res.body().is_empty());
}

#[test]
fn gzip_when_accepted() {
    let (_, headers, body) =
        serve(b"GET /echo/hello-hello-hello HTTP/1.1\r\nAccept-Encoding: gzip, deflate\r\n\r\n");
    assert_eq!(wire_header(&headers, "Content-Encoding"), Some("gzip".to_string()));
    assert_eq!(gunzip(&body), b"hello-hello-hello".to_vec());
    assert_eq!(wire_header(&headers, "Content-Length"), Some(body.len().to_string()));
}

#[test]
fn gzip_token_must_match_exactly() {
    let (_, headers, body) = serve(b"GET /echo/abc HTTP/1.1\r\nAccept-Encoding: deflate, GZIP, xgzip\r\n\r\n");
    assert_eq!(wire_header(&headers, "Content-Encoding"), None);
    assert_eq!(body, b"abc".to_vec());
    let (_, headers, _) = serve(b"GET /echo/abc HTTP/1.1\r\nAccept-Encoding: br,  gzip \r\n\r\n");
    assert_eq!(wire_header(&headers, "Content-Encoding"), Some("gzip".to_string()));
}

#[test]
fn identity_leaves_body_plain() {
    let (_, headers, body) =
        serve(b"GET /echo/plain HTTP/1.1\r\nAccept-Encoding: identity\r\n\r\n");
    assert_eq!(wire_header(&headers, "Content-Encoding"), None);
    assert_eq!(body, b"plain".to_vec());
}

#[test]
fn content_length_matches_body() {
    let (_, headers, body) = serve(b"GET /echo/twelve-bytes HTTP/1.1\r\n\r\n");
    assert_eq!(wire_header(&headers, "Content-Length"), Some("12".to_string()));
    assert_eq!(body.len(), 12);
    let (_, headers, body) =
        serve(b"GET /echo/twelve-bytes HTTP/1.1\r\nAccept-Encoding: gzip\r\n\r\n");
    assert_eq!(wire_header(&headers, "Content-Length"), Some(body.len().to_string()));
    let (_, headers, _) = serve(b"GET / HTTP/1.1\r\n\r\n");
    assert_eq!(wire_header(&headers, "Content-Length"), Some("0".to_string()));
}

#[test]
fn exact_wire_format() {
    let req = parse_complete(b"GET /echo/hi HTTP/1.1\r\nConnection: close\r\n\r\n");
    let wire = respond(&req).encode(&req);
    assert_eq!(
        wire,
        b"HTTP/1.1 200 OK\r\nContent-Type: text/plain\r\nContent-Length: 2\r\nConnection: close\r\n\r\nhi"
            .to_vec()
    );
}

#[test]
fn connection_close_echo_ignores_case() {
    let req = parse_complete(b"GET / HTTP/1.1\r\nconnection: CLOSE\r\n\r\n");
    assert!(req.wants_close());
    let (_, headers, _) = serve(b"GET / HTTP/1.1\r\nconnection: CLOSE\r\n\r\n");
    assert_eq!(wire_header(&headers, "Connection"), Some("close".to_string()));
    let (_, headers, _) = serve(b"GET / HTTP/1.1\r\nConnection: keep-alive\r\n\r\n");
    assert_eq!(wire_header(&headers, "Connection"), None);
}

#[test]
fn persistent_connection_until_close() {
    let mut conn = Connection::new();
    conn.receive(b"GET /echo/one HTTP/1.1\r\n\r\nGET /echo/two HTTP/1.1\r\n\r\n");
    conn.receive(b"GET /echo/three HTTP/1.1\r\nConnection: close\r\n\r\nGET /echo/four HTTP/1.1\r\n\r\n");
    let mut served = Vec::new();
    loop {
        match conn.next_step() {
            Step::Serve(req) => {
                let wire = respond(&req).encode(&req);
                served.push(split_wire(&wire).2);
                conn.served(&req);
            }
            Step::ReadMore => panic!("all requests were buffered"),
            Step::Close => break,
        }
    }
    assert_eq!(served, vec![b"one".to_vec(), b"two".to_vec(), b"three".to_vec()]);
    assert!(conn.is_finished());
}

#[test]
fn connection_ends_on_peer_close() {
    let mut conn = Connection::new();
    assert!(matches!(conn.next_step(), Step::ReadMore));
    conn.end_of_input();
    assert!(matches!(conn.next_step(), Step::Close));
    assert!(conn.is_finished());
}

#[test]
fn compress_body_is_gzip() {
    let data = b"aaaaaaaaaaaaaaaaaaaaaaaaaaaaaaaaaaaaaaaa".to_vec();
    let packed = compress_body(&data);
    assert_ne!(packed, data);
    assert_eq!(&packed[..2], &[0x1f, 0x8b]);
    assert_eq!(gunzip(&packed), data);
}

#[test]
fn response_new_holds_content_type() {
    let res = HttpResponse::new("200 OK", "text/plain", b"x".to_vec());
    assert_eq!(res.status(), &b"200 OK".to_vec());
    assert_eq!(res.header(b"Content-Type"), Some(&b"text/plain".to_vec()));
    assert_eq!(res.to_bytes(), b"HTTP/1.1 200 OK\r\nContent-Type: text/plain\r\n\r\nx".to_vec());
}

#[test]
fn compress_body_same_input_same_output() {
    let data = b"the same payload, twice".to_vec();
    assert_eq!(compress_body(&data), compress_body(&data));
    assert_eq!(gunzip(&compress_body(b"")), Vec::<u8>::new());
}

#[test]
fn request_line_splits_on_unicode_whitespace() {
    let (m, p) = HttpRequest::parse_request_line("GET\u{a0}/x HTTP/1.1".as_bytes()).unwrap();
    assert_eq!(m, HttpMethod::Get);
    assert_eq!(p, b"/x".to_vec());
    let (_, p) = HttpRequest::parse_request_line("GET /a\u{a0}b HTTP/1.1".as_bytes()).unwrap();
    assert_eq!(p, b"/a".to_vec());
    let (m, p) = HttpRequest::parse_request_line("POST\u{3000}/y\u{2028}HTTP/1.1".as_bytes()).unwrap();
    assert_eq!(m, HttpMethod::Post);
    assert_eq!(p, b"/y".to_vec());
    assert!(HttpRequest::parse_request_line("GET \u{a0}".as_bytes()).is_none());
    assert!(matches!(
        HttpRequest::parse("GET \u{a0}\r\n\r\n".as_bytes(), false),
        ParseOutcome::Malformed
    ));
}

#[test]
fn header_names_lowercased_as_unicode_text() {
    let req = parse_complete("GET / HTTP/1.1\r\nÄ-X: \u{a0}v\u{3000}\r\n\r\n".as_bytes());
    assert_eq!(req.headers[0].0, "ä-x".as_bytes().to_vec());
    assert_eq!(req.header("ä-x".as_bytes()), Some(&b"v".to_vec()));
}

#[test]
fn head_that_is_not_utf8_is_malformed() {
    assert!(matches!(
        HttpRequest::parse(b"GET /\xff HTTP/1.1\r\n\r\n", false),
        ParseOutcome::Malformed
    ));
    assert!(matches!(
        HttpRequest::parse(b"GET / HTTP/1.1\r\nX: \xc3\r\n\r\n", false),
        ParseOutcome::Malformed
    ));
    let req = parse_complete(b"POST /x HTTP/1.1\r\nContent-Length: 2\r\n\r\n\xff\xfe");
    assert_eq!(req.body, vec![0xff, 0xfe]);
}

#[test]
fn gzip_token_trimmed_of_unicode_whitespace() {
    let raw = "GET /echo/abc HTTP/1.1\r\nAccept-Encoding: deflate,\u{a0}gzip\u{2009}\r\n\r\n";
    let (_, headers, body) = serve(raw.as_bytes());
    assert_eq!(wire_header(&headers, "Content-Encoding"), Some("gzip".to_string()));
    assert_eq!(gunzip(&body), b"abc".to_vec());
    assert_eq!(wire_header(&headers, "Content-Length"), Some(body.len().to_string()));
}
