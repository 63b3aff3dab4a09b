use httpcore::{HttpRequest, Method};

#[test]
fn parses_greeting_request() {
    let req = HttpRequest::from_bytes(b"GET /greeting HTTP/1.1\r\nUser-Agent: demo\r\n\r\n");
    assert_eq!(req.method, Method::Get);
    assert_eq!(req.resource, b"/greeting".to_vec());
    assert_eq!(req.version, b"HTTP/1.1".to_vec());
    assert_eq!(req.headers, vec![(b"User-Agent".to_vec(), b"demo".to_vec())]);
    assert_eq!(req.header(b"User-Agent"), Some(&b"demo"[..]));
    assert_eq!(req.body, None);
}

#[test]
fn request_line_fields_read_back() {
    for (m, method) in [
        ("GET", Method::Get),
        ("POST", Method::Post),
        ("PUT", Method::Put),
        ("DELETE", Method::Delete),
    ] {
        let text = format!("{} /a/b.html?x=1 HTTP/1.0\r\nHost: h\r\n\r\n", m);
        let req = HttpRequest::from_bytes(text.as_bytes());
        assert_eq!(req.method, method);
        assert_eq!(req.resource, b"/a/b.html?x=1".to_vec());
        assert_eq!(req.version, b"HTTP/1.0".to_vec());
    }
}

#[test]
fn unknown_method_is_uninitialized() {
    let req = HttpRequest::from_bytes(b"PATCH / HTTP/1.1\r\n\r\n");
    assert_eq!(req.method, Method::Uninitialized);
    assert_eq!(req.resource, b"/".to_vec());
}

#[test]
fn empty_input_defaults_every_field() {
    let req = HttpRequest::from_bytes(b"");
    assert_eq!(req.method, Method::Uninitialized);
    assert_eq!(req.resource, b"/".to_vec());
    assert_eq!(req.version, Vec::<u8>::new());
    assert!(req.headers.is_empty());
    assert_eq!(req.body, None);
}

#[test]
fn missing_version_is_empty() {
    let req = HttpRequest::from_bytes(b"GET   /x\r\n");
    assert_eq!(req.method, Method::Get);
    assert_eq!(req.resource, b"/x".to_vec());
    assert_eq!(req.version, Vec::<u8>::new());
}

#[test]
fn last_duplicate_header_wins() {
    let req = HttpRequest::from_bytes(
        b"GET / HTTP/1.1\r\nAccept: a\r\nno colon here\r\nHost: localhost:3000\r\nAccept: b\r\n\r\n",
    );
    assert_eq!(req.header(b"Accept"), Some(&b"b"[..]));
    assert_eq!(req.header(b"Host"), Some(&b"localhost:3000"[..]));
    assert_eq!(req.header(b"accept"), None);
    assert_eq!(req.headers.len(), 3);
}

#[test]
fn body_is_kept_verbatim_with_padding() {
    let mut buf = b"POST /api/courses HTTP/1.1\r\nContent-Type: text/plain\r\n\r\nhello\r\nworld".to_vec();
    buf.extend_from_slice(&[0u8; 4]);
    let req = HttpRequest::from_bytes(&buf);
    assert_eq!(req.method, Method::Post);
    let mut expected = b"hello\r\nworld".to_vec();
    expected.extend_from_slice(&[0u8; 4]);
    assert_eq!(req.body, Some(expected));
}

#[test]
fn lines_without_carriage_return_parse() {
    let req = HttpRequest::from_bytes(b"GET /x HTTP/1.1\nA: 1\n\nbody");
    assert_eq!(req.headers, vec![(b"A".to_vec(), b"1".to_vec())]);
    assert_eq!(req.body, Some(b"body".to_vec()));
}

#[test]
fn header_name_is_kept_as_received() {
    let req = HttpRequest::from_bytes(b"GET / HTTP/1.1\r\nA : b \r\n\r\n");
    assert_eq!(req.headers, vec![(b"A ".to_vec(), b"b".to_vec())]);
    assert_eq!(req.header(b"A "), Some(&b"b"[..]));
    assert_eq!(req.header(b"A"), None);
}

#[test]
fn request_line_splits_on_any_ascii_whitespace() {
    let req = HttpRequest::from_bytes(b"PUT\t/x\x0b\x0cHTTP/1.1\r\n\r\n");
    assert_eq!(req.method, Method::Put);
    assert_eq!(req.resource, b"/x".to_vec());
    assert_eq!(req.version, b"HTTP/1.1".to_vec());
}
