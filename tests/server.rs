use std::collections::HashMap;

use http_server::request::{http_command, http_request, ParseError};
use http_server::response::{decimal_bytes, Response};
use http_server::router::{handle_request, handle_text, on_file_read, on_file_written, Action};

fn respond(buf: &[u8], dir: Option<&str>) -> Response {
    let dir = dir.map(|d| d.as_bytes().to_vec());
    match handle_request(buf, &dir) {
        Action::Respond(r) => r,
        _ => panic!("expected a response"),
    }
}

fn header<'a>(r: &'a Response, name: &str) -> Option<&'a [u8]> {
    r.headers
        .iter()
        .find(|(n, _)| n.as_slice() == name.as_bytes())
        .map(|(_, v)| v.as_slice())
}

#[test]
fn request_line_is_recovered() {
    let req = http_request(b"GET /index.html HTTP/1.1\r\n\r\n").unwrap();
    assert_eq!(req.method, b"GET");
    assert_eq!(req.path, b"/index.html");
    assert_eq!(req.version, b"HTTP/1.1");
    assert!(req.body.is_empty());
}

#[test]
fn request_line_version_is_rest_of_line() {
    let (m, p, v, next) = http_command(b"POST /a HTTP/1.0\r\nrest").unwrap();
    assert_eq!(m, b"POST");
    assert_eq!(p, b"/a");
    assert_eq!(v, b"HTTP/1.0");
    assert_eq!(next, 18);
}

#[test]
fn headers_keep_last_value() {
    let req =
        http_request(b"GET / HTTP/1.1\r\nA: 1\r\nB: two\r\nA: 3\r\n\r\nthe body").unwrap();
    assert_eq!(req.headers.get(b"A").unwrap(), b"3");
    assert_eq!(req.headers.get(b"B").unwrap(), b"two");
    assert!(req.headers.get(b"a").is_none());
    assert!(req.headers.get(b"C").is_none());
    assert_eq!(req.headers.len(), 2);
    assert_eq!(req.body, b"the body");
}

#[test]
fn distinct_headers_give_one_entry_each() {
    let req = http_request(
        b"GET / HTTP/1.1\r\nHost: localhost\r\nUser-Agent: x\r\nAccept: */*\r\n\r\n",
    )
    .unwrap();
    assert_eq!(req.headers.len(), 3);
    assert_eq!(req.headers.get(b"Accept").unwrap(), b"*/*");
    let empty = http_request(b"GET / HTTP/1.1\r\n\r\n").unwrap();
    assert_eq!(empty.headers.len(), 0);
}

#[test]
fn header_value_splits_at_first_separator() {
    let req = http_request(b"GET / HTTP/1.1\r\nHost: a: b\r\n\r\n").unwrap();
    assert_eq!(req.headers.get(b"Host").unwrap(), b"a: b");
}

#[test]
fn malformed_requests_are_rejected() {
    let cases: [&[u8]; 7] = [
        b"",
        b"GET / HTTP/1.1",
        b"GET /\r\n\r\n",
        b" / HTTP/1.1\r\n\r\n",
        b"GET  HTTP/1.1\r\n\r\n",
        b"GET / HTTP/1.1\r\nNoSeparator\r\n\r\n",
        b"GET / HTTP/1.1\r\nHost: x\r\n",
    ];
    for c in cases {
        assert_eq!(http_request(c).err(), Some(ParseError::MalformedRequest));
        let action = handle_request(c, &None);
        assert!(matches!(action, Action::Close));
    }
}

#[test]
fn non_utf8_request_closes() {
    let buf: &[u8] = b"GET /echo/\xff\xfe HTTP/1.1\r\n\r\n";
    assert!(matches!(handle_request(buf, &None), Action::Close));
    match handle_text(buf, &None) {
        Action::Respond(r) => assert_eq!(r.body, b"\xff\xfe"),
        _ => panic!("expected a response"),
    }
}

#[test]
fn echo_hello() {
    let r = respond(b"GET /echo/hello HTTP/1.1\r\n\r\n", None);
    assert_eq!(r.status, 200);
    assert_eq!(r.body, b"hello");
    assert_eq!(header(&r, "Content-Length"), Some(&b"5"[..]));
    assert_eq!(header(&r, "Content-Type"), Some(&b"text/plain"[..]));
    assert_eq!(
        r.to_bytes(),
        b"HTTP/1.1 200 OK\r\nContent-Type: text/plain\r\nContent-Length: 5\r\n\r\nhello".to_vec()
    );
}

#[test]
fn echo_takes_everything_after_prefix() {
    let r = respond(b"GET /echo/a/echo/b HTTP/1.1\r\n\r\n", None);
    assert_eq!(r.body, b"a/echo/b");
    assert_eq!(header(&r, "Content-Length"), Some(&b"8"[..]));
}

#[test]
fn echo_claims_no_encoding() {
    let r = respond(b"GET /echo/abc HTTP/1.1\r\nAccept-Encoding: gzip\r\n\r\n", None);
    assert_eq!(r.body, b"abc");
    assert_eq!(header(&r, "Content-Encoding"), None);
}

#[test]
fn root_is_empty_ok() {
    let r = respond(b"GET / HTTP/1.1\r\n\r\n", None);
    assert_eq!(r.status, 200);
    assert!(r.body.is_empty());
    assert_eq!(header(&r, "Content-Type"), None);
    assert_eq!(r.to_bytes(), b"HTTP/1.1 200 OK\r\n\r\n".to_vec());
}

#[test]
fn user_agent_is_echoed() {
    let r = respond(b"GET /user-agent HTTP/1.1\r\nUser-Agent: test-agent\r\n\r\n", None);
    assert_eq!(r.status, 200);
    assert_eq!(r.body, b"test-agent");
    assert_eq!(header(&r, "Content-Length"), Some(&b"10"[..]));
}

#[test]
fn user_agent_missing_is_bad_request() {
    let r = respond(b"GET /user-agent HTTP/1.1\r\nuser-agent: x\r\n\r\n", None);
    assert_eq!(r.status, 400);
    assert_eq!(r.to_bytes(), b"HTTP/1.1 400 Bad Request\r\n\r\n".to_vec());
}

#[test]
fn unknown_path_is_not_found() {
    let r = respond(b"GET /nonexistent HTTP/1.1\r\n\r\n", None);
    assert_eq!(r.status, 404);
    assert!(r.body.is_empty());
    assert_eq!(r.to_bytes(), b"HTTP/1.1 404 Not Found\r\n\r\n".to_vec());
}

#[test]
fn post_then_get_returns_written_bytes() {
    let dir = Some(b"/srv/data".to_vec());
    let mut store: HashMap<Vec<u8>, Vec<u8>> = HashMap::new();
    match handle_request(b"POST /files/foo.txt HTTP/1.1\r\nContent-Length: 3\r\n\r\nabc", &dir) {
        Action::WriteFile(path, contents) => {
            assert_eq!(path, b"/srv/data/foo.txt");
            assert_eq!(contents, b"abc");
            store.insert(path, contents);
        }
        _ => panic!("expected a write"),
    }
    let created = match on_file_written(true) {
        Action::Respond(r) => r,
        _ => panic!("expected a response"),
    };
    assert_eq!(created.to_bytes(), b"HTTP/1.1 201 Created\r\n\r\n".to_vec());
    let r = match handle_request(b"GET /files/foo.txt HTTP/1.1\r\n\r\n", &dir) {
        Action::ReadFile(path) => on_file_read(store.get(&path).cloned()),
        _ => panic!("expected a read"),
    };
    assert_eq!(r.status, 200);
    assert_eq!(r.body, b"abc");
    assert_eq!(header(&r, "Content-Type"), Some(&b"application/octet-stream"[..]));
    assert_eq!(header(&r, "Content-Length"), Some(&b"3"[..]));
}

#[test]
fn missing_file_is_not_found() {
    let dir = Some(b"/srv/data".to_vec());
    let r = match handle_request(b"GET /files/missing.txt HTTP/1.1\r\n\r\n", &dir) {
        Action::ReadFile(path) => {
            assert_eq!(path, b"/srv/data/missing.txt");
            on_file_read(None)
        }
        _ => panic!("expected a read"),
    };
    assert_eq!(r.status, 404);
    assert!(r.body.is_empty());
}

#[test]
fn file_routes_without_directory_close() {
    assert!(matches!(handle_request(b"GET /files/a HTTP/1.1\r\n\r\n", &None), Action::Close));
    assert!(matches!(
        handle_request(b"POST /files/a HTTP/1.1\r\n\r\nx", &None),
        Action::Close
    ));
}

#[test]
fn other_methods_on_files_are_not_found() {
    let dir = Some(b"/d".to_vec());
    match handle_request(b"DELETE /files/a HTTP/1.1\r\n\r\n", &dir) {
        Action::Respond(r) => assert_eq!(r.status, 404),
        _ => panic!("expected a response"),
    }
}

#[test]
fn failed_write_closes() {
    assert!(matches!(on_file_written(false), Action::Close));
}

#[test]
fn repeated_get_gives_identical_bytes() {
    let reqs: [&[u8]; 4] = [
        b"GET / HTTP/1.1\r\n\r\n",
        b"GET /echo/xyz HTTP/1.1\r\n\r\n",
        b"GET /user-agent HTTP/1.1\r\nUser-Agent: curl\r\n\r\n",
        b"GET /nope HTTP/1.1\r\n\r\n",
    ];
    for q in reqs {
        assert_eq!(respond(q, None).to_bytes(), respond(q, None).to_bytes());
    }
}

#[test]
fn decimal_digits() {
    assert_eq!(decimal_bytes(0), b"0");
    assert_eq!(decimal_bytes(7), b"7");
    assert_eq!(decimal_bytes(10), b"10");
    assert_eq!(decimal_bytes(8192), b"8192");
}

#[test]
fn with_body_sets_length() {
    let r = Response::with_body(b"text/plain".to_vec(), b"0123456789ab".to_vec());
    assert_eq!(header(&r, "Content-Length"), Some(&b"12"[..]));
    assert_eq!(r.headers[0].0, b"Content-Type");
    assert_eq!(r.headers[1].0, b"Content-Length");
}

#[test]
fn body_keeps_every_byte_after_blank_line() {
    let req = http_request(b"POST /x HTTP/1.1\r\nA: b\r\n\r\nline one\r\n\r\nline two").unwrap();
    assert_eq!(req.body, b"line one\r\n\r\nline two");
}

#[test]
fn empty_header_value_is_kept() {
    let req = http_request(b"GET / HTTP/1.1\r\nX-Empty: \r\n\r\n").unwrap();
    assert_eq!(req.headers.get(b"X-Empty").unwrap(), b"");
    assert_eq!(req.headers.len(), 1);
}

#[test]
fn routes_other_than_files_ignore_method() {
    let r = respond(b"POST /user-agent HTTP/1.1\r\nUser-Agent: poster\r\n\r\n", None);
    assert_eq!(r.status, 200);
    assert_eq!(r.body, b"poster");
    let r = respond(b"PUT /echo/q HTTP/1.1\r\n\r\n", None);
    assert_eq!(r.body, b"q");
}

#[test]
fn long_body_length_is_exact() {
    let text = vec![b'a'; 1234];
    let mut buf = b"GET /echo/".to_vec();
    buf.extend_from_slice(&text);
    buf.extend_from_slice(b" HTTP/1.1\r\n\r\n");
    let r = respond(&buf, None);
    assert_eq!(r.body, text);
    assert_eq!(header(&r, "Content-Length"), Some(&b"1234"[..]));
}
