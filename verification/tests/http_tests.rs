use gdcli::http::{parse_request, write_response, RequestError};

#[test]
fn parse_minimal_get() {
    let buf = b"GET /ping HTTP/1.1\r\nHost: x\r\n\r\n";
    let parsed = parse_request(buf).unwrap().unwrap();
    assert_eq!(parsed.method, "GET");
    assert_eq!(parsed.path, "/ping");
    assert!(parsed.body.is_empty());
}

#[test]
fn parse_post_with_body() {
    let mut buf: Vec<u8> = b"POST /scene/create HTTP/1.1\r\nHost: x\r\nContent-Length: 13\r\n\r\n".to_vec();
    buf.extend_from_slice(br#"{"foo":"bar"}"#);
    let parsed = parse_request(&buf).unwrap().unwrap();
    assert_eq!(parsed.method, "POST");
    assert_eq!(parsed.path, "/scene/create");
    assert_eq!(parsed.body, br#"{"foo":"bar"}"#.to_vec());
}

#[test]
fn parse_incomplete_returns_none() {
    let buf = b"POST /x HTTP/1.1\r\nHost: x\r\nContent-Length: 100\r\n\r\nshort";
    let result = parse_request(buf).unwrap();
    assert!(result.is_none());
}

#[test]
fn parse_partial_headers_returns_none() {
    let buf = b"POST /x HTTP/1.1\r\nHost: x";
    let result = parse_request(buf).unwrap();
    assert!(result.is_none());
}

#[test]
fn parse_malformed_errors() {
    let buf = b"NOTAREQUEST\r\n\r\n";
    assert!(parse_request(buf).is_err());
}

#[test]
fn parse_body_too_large_errors() {
    let big = 17 * 1024 * 1024;
    let buf = format!("POST /x HTTP/1.1\r\nContent-Length: {}\r\n\r\n", big);
    assert!(parse_request(buf.as_bytes()).is_err());
}

#[test]
fn parse_body_too_large_is_the_size_error() {
    let buf = format!("POST /x HTTP/1.1\r\nContent-Length: {}\r\n\r\n", 16 * 1024 * 1024 + 1);
    match parse_request(buf.as_bytes()) {
        Err(e) => {
            assert!(matches!(e, RequestError::TooLarge));
            assert_eq!(e.message(), "Content-Length exceeds 16 MiB");
        }
        Ok(_) => panic!("expected an error"),
    }
}

#[test]
fn header_names_are_lowercased() {
    let buf = b"POST /x HTTP/1.1\r\nContent-Type: application/json\r\nX-Foo: Bar\r\n\r\n";
    let parsed = parse_request(buf).unwrap().unwrap();
    let names: Vec<&str> = parsed.headers.iter().map(|(k, _)| k.as_str()).collect();
    assert!(names.contains(&"content-type"));
    assert!(names.contains(&"x-foo"));
}

#[test]
fn write_response_basic() {
    let bytes = write_response(200, &[("content-type".into(), "application/json".into())], b"{}");
    let s = String::from_utf8_lossy(&bytes);
    assert!(s.starts_with("HTTP/1.1 200 OK\r\n"));
    assert!(s.contains("content-type: application/json\r\n"));
    assert!(s.contains("content-length: 2\r\n"));
    assert!(s.contains("connection: close\r\n"));
    assert!(s.ends_with("\r\n\r\n{}"));
}

#[test]
fn write_response_exact_bytes() {
    let bytes = write_response(404, &[("x-a".into(), "1".into())], b"no");
    assert_eq!(
        String::from_utf8(bytes).unwrap(),
        "HTTP/1.1 404 Not Found\r\nx-a: 1\r\ncontent-length: 2\r\nconnection: close\r\n\r\nno"
    );
}

#[test]
fn write_response_413() {
    let bytes = write_response(413, &[], b"");
    let s = String::from_utf8_lossy(&bytes);
    assert!(s.starts_with("HTTP/1.1 413 Payload Too Large\r\n"));
}

#[test]
fn parse_conflicting_content_length_errors() {
    let buf = b"POST /x HTTP/1.1\r\nContent-Length: 5\r\nContent-Length: 3\r\n\r\nabcde";
    let result = parse_request(buf);
    assert!(result.is_err(), "expected error for conflicting Content-Length");
}

#[test]
fn parse_duplicate_content_length_same_value_ok() {
    let mut buf: Vec<u8> = b"POST /x HTTP/1.1\r\nContent-Length: 3\r\nContent-Length: 3\r\n\r\n".to_vec();
    buf.extend_from_slice(b"abc");
    let parsed = parse_request(&buf).unwrap().unwrap();
    assert_eq!(parsed.body, b"abc".to_vec());
}

#[test]
fn parse_zero_content_length() {
    let buf = b"POST /x HTTP/1.1\r\nContent-Length: 0\r\n\r\n";
    let parsed = parse_request(buf).unwrap().unwrap();
    assert!(parsed.body.is_empty());
}

#[test]
fn write_response_empty_body() {
    let bytes = write_response(204, &[], b"");
    let s = String::from_utf8_lossy(&bytes);
    assert!(s.contains("content-length: 0\r\n"));
}

#[test]
fn parse_query_string_preserved_in_path() {
    let buf = b"GET /search?q=hello&limit=10 HTTP/1.1\r\nHost: x\r\n\r\n";
    let parsed = parse_request(buf).unwrap().unwrap();
    assert_eq!(parsed.path, "/search?q=hello&limit=10");
}

#[test]
fn parse_header_value_empty() {
    let buf = b"GET /x HTTP/1.1\r\nHost: \r\n\r\n";
    let parsed = parse_request(buf).unwrap().unwrap();
    assert_eq!(parsed.headers[0].1, "");
}

#[test]
fn parse_content_length_with_leading_zero() {
    let buf = b"POST /x HTTP/1.1\r\nContent-Length: 007\r\n\r\nabcdefg";
    let parsed = parse_request(buf).unwrap().unwrap();
    assert_eq!(parsed.body, b"abcdefg".to_vec());
}

#[test]
fn parse_content_length_uppercase() {
    let buf = b"POST /x HTTP/1.1\r\nCONTENT-LENGTH: 3\r\n\r\nabc";
    let parsed = parse_request(buf).unwrap().unwrap();
    assert_eq!(parsed.body, b"abc".to_vec());
}

#[test]
fn parse_invalid_content_length_errors() {
    let buf = b"POST /x HTTP/1.1\r\nContent-Length: 3x\r\n\r\nabc";
    match parse_request(buf) {
        Err(e) => assert_eq!(e.message(), "invalid Content-Length"),
        Ok(_) => panic!("expected an error"),
    }
}

#[test]
fn parse_missing_method_errors() {
    let buf = b"/ping HTTP/1.1\r\nHost: x\r\n\r\n";
    assert!(parse_request(buf).is_err());
}

#[test]
fn parse_missing_path_errors() {
    let buf = b"GET HTTP/1.1\r\nHost: x\r\n\r\n";
    assert!(parse_request(buf).is_err());
}

#[test]
fn write_response_unknown_status_code() {
    let bytes = write_response(418, &[], b"");
    let s = String::from_utf8_lossy(&bytes);
    assert!(s.starts_with("HTTP/1.1 418 \r\n"));
}

#[test]
fn bytes_after_the_body_do_not_change_the_request() {
    let raw = b"POST /p?q=1 HTTP/1.1\r\nX-Name: V\r\nContent-Length: 2\r\n\r\nhi";
    let mut longer = raw.to_vec();
    longer.extend_from_slice(b"GET /next HTTP/1.1\r\n");
    let a = parse_request(raw).unwrap().unwrap();
    let b = parse_request(&longer).unwrap().unwrap();
    assert_eq!(a.method, b.method);
    assert_eq!(a.path, "/p?q=1");
    assert_eq!(a.path, b.path);
    assert_eq!(a.headers, b.headers);
    assert_eq!(a.body, b"hi".to_vec());
    assert_eq!(a.body, b.body);
    assert!(a.headers.iter().all(|(k, _)| *k == k.to_ascii_lowercase()));
}
