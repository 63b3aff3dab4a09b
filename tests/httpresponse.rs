use httpcore::HttpResponse;

#[test]
fn test_response_struct_creation_200() {
    let response_actual = HttpResponse::new("200", None, Some("xxx".into()));
    assert_eq!(response_actual.version(), b"HTTP/1.1");
    assert_eq!(response_actual.status_code(), b"200");
    assert_eq!(response_actual.status_text(), b"OK");
    assert_eq!(response_actual.headers(), b"Content-Type:text/html\r\n".to_vec());
    assert_eq!(response_actual.body(), b"xxx");
}

#[test]
fn test_response_struct_creation_400() {
    let response_actual = HttpResponse::new("400", None, Some("xxx".into()));
    assert_eq!(response_actual.version(), b"HTTP/1.1");
    assert_eq!(response_actual.status_code(), b"400");
    assert_eq!(response_actual.status_text(), b"Bad Request");
    assert_eq!(response_actual.headers(), b"Content-Type:text/html\r\n".to_vec());
    assert_eq!(response_actual.body(), b"xxx");
}

#[test]
fn test_response_struct_creation() {
    let response_expected = HttpResponse::new("404", None, Some("xxx".into()));
    assert_eq!(response_expected.status_text(), b"Not Found");
    let http_string: String = String::from_utf8(response_expected.to_bytes()).unwrap();
    let actual_string =
        "HTTP/1.1 404 Not Found\r\nContent-Type:text/html\r\nContent-Length: 3\r\n\r\nxxx";
    assert_eq!(http_string, actual_string);
}

#[test]
fn ok_response_serializes_exactly() {
    let r = HttpResponse::new("200", None, Some("xxx".into()));
    assert_eq!(
        r.to_bytes(),
        b"HTTP/1.1 200 OK\r\nContent-Type:text/html\r\nContent-Length: 3\r\n\r\nxxx".to_vec()
    );
}

#[test]
fn empty_body_has_zero_length() {
    let r = HttpResponse::new("200", None, None);
    assert_eq!(r.body(), b"");
    assert_eq!(
        r.to_bytes(),
        b"HTTP/1.1 200 OK\r\nContent-Type:text/html\r\nContent-Length: 0\r\n\r\n".to_vec()
    );
}

#[test]
fn content_length_counts_utf8_bytes() {
    let r = HttpResponse::new("200", Some(vec![]), Some("h\u{e9}llo".into()));
    let text = String::from_utf8(r.to_bytes()).unwrap();
    assert_eq!(text, "HTTP/1.1 200 OK\r\nContent-Length: 6\r\n\r\nh\u{e9}llo");
}

#[test]
fn content_length_with_several_digits() {
    let body = "a".repeat(1234);
    let r = HttpResponse::new("200", None, Some(body.clone()));
    let text = String::from_utf8(r.to_bytes()).unwrap();
    assert!(text.contains("\r\nContent-Length: 1234\r\n\r\n"));
    assert!(text.ends_with(&body));
}

#[test]
fn status_text_table() {
    assert_eq!(HttpResponse::new("200", None, None).status_text(), b"OK");
    assert_eq!(HttpResponse::new("400", None, None).status_text(), b"Bad Request");
    assert_eq!(HttpResponse::new("404", None, None).status_text(), b"Not Found");
    assert_eq!(
        HttpResponse::new("500", None, None).status_text(),
        b"Internal Server Error"
    );
    assert_eq!(HttpResponse::new("999", None, None).status_text(), b"Not Found");
    assert_eq!(HttpResponse::new("999", None, None).status_code(), b"999");
}

#[test]
fn status_line_reads_back() {
    for code in ["200", "400", "404", "500", "302"] {
        let r = HttpResponse::new(code, None, Some("body".into()));
        let wire = String::from_utf8(r.to_bytes()).unwrap();
        let line = wire.split("\r\n").next().unwrap();
        let mut parts = line.splitn(3, ' ');
        assert_eq!(parts.next().unwrap().as_bytes(), r.version());
        assert_eq!(parts.next().unwrap().as_bytes(), r.status_code());
        assert_eq!(parts.next().unwrap().as_bytes(), r.status_text());
    }
}

#[test]
fn given_headers_replace_the_default() {
    let r = HttpResponse::new(
        "200",
        Some(vec![
            ("Content-Type".to_string(), "text/css".to_string()),
            ("X-Mode".to_string(), "a:b".to_string()),
        ]),
        Some("p{}".into()),
    );
    assert_eq!(r.headers(), b"Content-Type:text/css\r\nX-Mode:a:b\r\n".to_vec());
    assert_eq!(
        r.to_bytes(),
        b"HTTP/1.1 200 OK\r\nContent-Type:text/css\r\nX-Mode:a:b\r\nContent-Length: 3\r\n\r\np{}"
            .to_vec()
    );
}

#[test]
fn send_response_writes_the_wire_form() {
    let r = HttpResponse::new("404", None, Some("gone".into()));
    let mut sink: Vec<u8> = Vec::new();
    r.send_response(&mut sink).unwrap();
    assert_eq!(sink, r.to_bytes());
    assert_eq!(
        sink,
        b"HTTP/1.1 404 Not Found\r\nContent-Type:text/html\r\nContent-Length: 4\r\n\r\ngone".to_vec()
    );
}

#[test]
fn with_code_matches_new() {
    let a = HttpResponse::new("500", None, Some("e".into()));
    let b = HttpResponse::with_code(b"500".to_vec(), None, Some(b"e".to_vec()));
    assert_eq!(a, b);
}

#[test]
fn later_header_replaces_earlier() {
    let r = HttpResponse::new(
        "200",
        Some(vec![
            ("A".to_string(), "1".to_string()),
            ("B".to_string(), "2".to_string()),
            ("A".to_string(), "3".to_string()),
        ]),
        None,
    );
    assert_eq!(r.headers(), b"A:3\r\nB:2\r\n".to_vec());
}

#[test]
fn default_response_is_plain_ok() {
    let r = HttpResponse::default();
    assert_eq!(r.version(), b"HTTP/1.1");
    assert_eq!(r.status_code(), b"200");
    assert_eq!(r.status_text(), b"OK");
    assert_eq!(r.to_bytes(), b"HTTP/1.1 200 OK\r\nContent-Length: 0\r\n\r\n".to_vec());
}
