use screen_server::request::parse_request;
use screen_server::ServerError;

#[test]
fn parse_reconstructs_request_line_and_headers() {
    let raw = b"GET /screen/2 HTTP/1.1\r\nHost: localhost:8000\r\nAccept: image/png\r\n\r\n";
    let req = parse_request(raw).expect("well-formed request must parse");
    assert_eq!(req.method, b"GET".to_vec());
    assert_eq!(req.path, b"/screen/2".to_vec());
    assert_eq!(req.http_version, b"HTTP/1.1".to_vec());
    assert_eq!(req.headers.len(), 2);
    assert_eq!(req.headers[0].0, b"Host".to_vec());
    assert_eq!(req.headers[0].1, b"localhost:8000".to_vec());
    assert_eq!(req.headers[1].0, b"Accept".to_vec());
    assert_eq!(req.headers[1].1, b"image/png".to_vec());
}

#[test]
fn parse_last_duplicate_header_wins() {
    let raw = b"GET / HTTP/1.1\r\nHost: first\r\nHost: second\r\n\r\n";
    let req = parse_request(raw).expect("well-formed request must parse");
    assert_eq!(req.headers.len(), 2);
    let v = req.header_value(b"Host").expect("Host header must be found");
    assert_eq!(*v, b"second".to_vec());
    assert!(req.header_value(b"Absent").is_none());
}

#[test]
fn parse_header_value_keeps_later_delimiters() {
    let raw = b"GET / HTTP/1.1\r\nA: b: c\r\n\r\n";
    let req = parse_request(raw).expect("well-formed request must parse");
    assert_eq!(req.headers[0].0, b"A".to_vec());
    assert_eq!(req.headers[0].1, b"b: c".to_vec());
}

#[test]
fn parse_two_token_request_line_is_malformed() {
    let raw = b"GET /\r\nHost: x\r\n\r\n";
    assert_eq!(parse_request(raw), Err(ServerError::MalformedRequest));
}

#[test]
fn parse_four_token_request_line_is_malformed() {
    let raw = b"GET / HTTP/1.1 extra\r\n\r\n";
    assert_eq!(parse_request(raw), Err(ServerError::MalformedRequest));
}

#[test]
fn parse_header_without_delimiter_is_malformed() {
    let raw = b"GET / HTTP/1.1\r\nNoDelimiterHere\r\n\r\n";
    assert_eq!(parse_request(raw), Err(ServerError::MalformedRequest));
}

#[test]
fn parse_invalid_text_is_malformed() {
    let raw = &[0x47u8, 0x45, 0x54, 0x20, 0xff, 0xfe, 0x20, 0x48][..];
    assert_eq!(parse_request(raw), Err(ServerError::MalformedRequest));
}

#[test]
fn parse_empty_stream_is_malformed() {
    assert_eq!(parse_request(b""), Err(ServerError::MalformedRequest));
}

#[test]
fn parse_stops_at_blank_line() {
    let raw = b"GET / HTTP/1.1\r\nHost: x\r\n\r\nthis body has no: delimiter rules\r\nat all";
    let req = parse_request(raw).expect("body bytes must be ignored");
    assert_eq!(req.headers.len(), 1);
    assert_eq!(req.headers[0].0, b"Host".to_vec());
}

#[test]
fn parse_request_line_alone_parses() {
    let raw = b"GET / HTTP/1.1";
    let req = parse_request(raw).expect("a lone request line must parse");
    assert_eq!(req.method, b"GET".to_vec());
    assert_eq!(req.path, b"/".to_vec());
    assert_eq!(req.headers.len(), 0);
}
