use wisp_web::client::{fetch_request, host_name, parse_wisp_url};
use wisp_web::handshake::{
    answer_hello, check_server_reply, client_hello, expects_header_block, server_ready, server_reject, HandshakeError,
};
use wisp_web::message::{is_block_end, read_header_block, MessageError, Request, Response};

#[test]
fn request_roundtrips_through_bytes() {
    let req = Request::new("GET", "/index.html").header("host", "example").with_body(b"hello".to_vec());
    let mut buf = Vec::new();
    req.write_to(&mut buf);
    assert_eq!(
        String::from_utf8(buf.clone()).unwrap(),
        "GET /index.html WISP/1.0\r\nhost: example\r\ncontent-length: 5\r\n\r\nhello"
    );
    let (back, used) = Request::read_from(&buf).unwrap();
    assert_eq!(used, buf.len());
    assert_eq!(back.method, "GET");
    assert_eq!(back.path, "/index.html");
    assert_eq!(back.headers, req.headers);
    assert_eq!(back.body, b"hello".to_vec());
}

#[test]
fn response_roundtrips_through_bytes() {
    let resp = Response::ok().header("content-type", "text/plain").with_body(b"hi\n".to_vec());
    let mut buf = Vec::new();
    resp.write_to(&mut buf);
    let (back, used) = Response::read_from(&buf).unwrap();
    assert_eq!(used, buf.len());
    assert_eq!(back.status, 200);
    assert_eq!(back.reason, "OK");
    assert_eq!(back.body, b"hi\n".to_vec());
    let nf = Response::not_found();
    assert_eq!((nf.status, nf.reason.as_str()), (404, "NOT_FOUND"));
    let custom = Response::new(405, "METHOD_NOT_ALLOWED");
    assert_eq!(custom.status, 405);
    assert!(custom.headers.is_empty());
}

#[test]
fn short_body_is_unexpected_eof_and_bad_utf8_is_reported() {
    let data = b"WISP/1.0 200 OK\r\ncontent-length: 10\r\n\r\nabc".to_vec();
    assert_eq!(Response::read_from(&data).err(), Some(MessageError::UnexpectedEof));
    let bad = vec![0xffu8, b'\n', b'\n'];
    assert_eq!(Request::read_from(&bad).err(), Some(MessageError::InvalidUtf8));
}

#[test]
fn header_block_reads_first_line_and_headers() {
    let data = b"WISP-READY 1.0\r\nencryption: tls1.3\r\n\r\nrest".to_vec();
    let (first, headers, used) = read_header_block(&data).unwrap();
    assert_eq!(first, "WISP-READY 1.0");
    assert_eq!(headers, vec![("encryption".to_string(), "tls1.3".to_string())]);
    assert_eq!(&data[used..], b"rest");
}

#[test]
fn handshake_hello_ready_reject() {
    let hello = client_hello("example.org");
    assert_eq!(
        String::from_utf8(hello.clone()).unwrap(),
        "WISP-HELLO 1.0\r\nhost: example.org\r\nclient: wisp-rs/0.1\r\n\r\n"
    );
    let (host, reply) = answer_hello(&hello);
    assert_eq!(host.unwrap(), "example.org");
    let reply = reply.unwrap();
    assert_eq!(reply, server_ready());
    assert!(check_server_reply(&reply).is_ok());
    match check_server_reply(&server_reject()) {
        Err(HandshakeError::Rejected(reason)) => assert_eq!(reason, "expected-wisp-hello"),
        other => panic!("unexpected {:?}", other),
    }
    let (res, reply) = answer_hello(b"GET / HTTP/1.1\r\n\r\n");
    match res {
        Err(HandshakeError::Malformed(line)) => assert_eq!(line, "GET / HTTP/1.1"),
        other => panic!("unexpected {:?}", other),
    }
    assert_eq!(reply.unwrap(), server_reject());
    match check_server_reply(b"NOPE\r\n\r\n") {
        Err(HandshakeError::Malformed(line)) => assert_eq!(line, "NOPE"),
        other => panic!("unexpected {:?}", other),
    }
}

#[test]
fn wisp_urls_with_and_without_scheme() {
    assert_eq!(parse_wisp_url("wisp://127.0.0.1:8443/a/b"), ("127.0.0.1:8443".to_string(), "/a/b".to_string()));
    assert_eq!(parse_wisp_url("127.0.0.1:8443/a/b"), ("127.0.0.1:8443".to_string(), "/a/b".to_string()));
    assert_eq!(parse_wisp_url("host:1"), ("host:1".to_string(), "/".to_string()));
    assert_eq!(parse_wisp_url("wisp://"), (String::new(), "/".to_string()));
}

#[test]
fn fetch_request_names_the_host() {
    assert_eq!(host_name("example:8443"), "example");
    assert_eq!(host_name("example"), "example");
    let req = fetch_request("example:8443", "/x");
    assert_eq!(req.method, "GET");
    assert_eq!(req.path, "/x");
    assert_eq!(req.headers, vec![("host".to_string(), "example".to_string())]);
    assert!(req.body.is_empty());
}

#[test]
fn header_block_follows_known_first_lines_only() {
    assert!(expects_header_block(b"WISP-HELLO 1.0\r\n", true));
    assert!(!expects_header_block(b"GET / HTTP/1.1\r\n", true));
    assert!(expects_header_block(b"WISP-READY 1.0\r\n", false));
    assert!(expects_header_block(b"  WISP-REJECT 1.0\r\n", false));
    assert!(!expects_header_block(b"WISP-HELLO 1.0\r\n", false));
    assert!(!expects_header_block(&[0xff, b'\n'], true));
}

#[test]
fn header_block_ends_at_a_line_of_line_endings() {
    assert!(is_block_end(b"\r\n"));
    assert!(is_block_end(b"\r\r\n"));
    assert!(is_block_end(b""));
    assert!(!is_block_end(b"a: b\r\n"));
}
