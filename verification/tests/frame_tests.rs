use gdcli::frame::{find_double_crlf, frame_message, FrameError, MessageBuffer};

fn frame(body: &str) -> Vec<u8> {
    format!("Content-Length: {}\r\n\r\n{}", body.len(), body).into_bytes()
}

#[test]
fn single_complete_message() {
    let mut buf = MessageBuffer::new();
    buf.append(&frame(r#"{"jsonrpc":"2.0","id":1,"result":null}"#));
    let msg = buf.try_read_message().unwrap().expect("should read");
    assert!(msg.contains(r#""id":1"#));
}

#[test]
fn split_across_chunks() {
    let mut buf = MessageBuffer::new();
    let full = frame(r#"{"a":1}"#);
    let (a, b) = full.split_at(8);
    buf.append(a);
    assert!(buf.try_read_message().unwrap().is_none());
    buf.append(b);
    let msg = buf.try_read_message().unwrap().expect("should read");
    assert_eq!(msg, r#"{"a":1}"#);
}

#[test]
fn back_to_back_messages() {
    let mut buf = MessageBuffer::new();
    let mut combined = frame(r#"{"a":1}"#);
    combined.extend(frame(r#"{"b":2}"#));
    buf.append(&combined);
    assert_eq!(buf.try_read_message().unwrap().unwrap(), r#"{"a":1}"#);
    assert_eq!(buf.try_read_message().unwrap().unwrap(), r#"{"b":2}"#);
    assert!(buf.try_read_message().unwrap().is_none());
}

#[test]
fn missing_content_length_errors() {
    let mut buf = MessageBuffer::new();
    buf.append(b"Foo: bar\r\n\r\nbody");
    assert!(buf.try_read_message().is_err());
}

#[test]
fn missing_content_length_is_named() {
    let mut buf = MessageBuffer::new();
    buf.append(b"Foo: bar\r\n\r\nbody");
    let e = buf.try_read_message().err().unwrap();
    assert_eq!(e, FrameError::MissingContentLength);
    assert_eq!(e.message(), "missing Content-Length");
}

#[test]
fn framed_message_reads_back() {
    let body = br#"{"jsonrpc":"2.0","method":"initialized","params":{}}"#;
    let framed = frame_message(body);
    assert_eq!(framed, frame(std::str::from_utf8(body).unwrap()));
    let mut buf = MessageBuffer::new();
    buf.append(&framed);
    assert_eq!(buf.try_read_message().unwrap().unwrap().as_bytes(), body);
}

#[test]
fn header_end_is_found() {
    assert_eq!(find_double_crlf(b"ab\r\n\r\ncd"), Some(2));
    assert_eq!(find_double_crlf(b"ab\r\ncd"), None);
    assert_eq!(find_double_crlf(b""), None);
}

#[test]
fn frame_in_two_pieces_at_every_cut() {
    let body = r#"{"jsonrpc":"2.0","id":7,"result":"ü"}"#;
    let full = frame(body);
    for k in 0..full.len() {
        let mut buf = MessageBuffer::new();
        buf.append(&full[..k]);
        assert!(buf.try_read_message().unwrap().is_none(), "cut at {}", k);
        buf.append(&full[k..]);
        assert_eq!(buf.try_read_message().unwrap().unwrap(), body);
        assert!(buf.try_read_message().unwrap().is_none());
    }
}
