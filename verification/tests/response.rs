use screen_server::response::{build_not_found, build_ok_response};

#[test]
fn not_found_bytes_exact() {
    assert_eq!(build_not_found(), b"HTTP/1.1 404 Not Found\r\n\r\n".to_vec());
}

#[test]
fn ok_response_bytes_exact() {
    let body = b"abc";
    let expect =
        b"HTTP/1.1 200 OK\r\nContent-Type: image/png\r\nContent-Length: 3\r\n\r\nabc".to_vec();
    assert_eq!(build_ok_response(body), expect);
}

#[test]
fn ok_response_content_length_matches_body() {
    let body: Vec<u8> = vec![0u8; 1234];
    let resp = build_ok_response(&body);
    let head_end = resp
        .windows(4)
        .position(|w| w == b"\r\n\r\n")
        .expect("response must hold a blank line");
    let head = &resp[..head_end];
    let head_text = std::str::from_utf8(head).expect("header block is text");
    let len_line = head_text
        .lines()
        .find(|l| l.starts_with("Content-Length: "))
        .expect("response must name its length");
    assert_eq!(len_line, "Content-Length: 1234");
    assert_eq!(resp.len(), head_end + 4 + 1234);
    assert_eq!(&resp[head_end + 4..], &body[..]);
}

#[test]
fn same_body_length_gives_identical_header_block() {
    let r1 = build_ok_response(b"aaaaaaaa");
    let r2 = build_ok_response(b"bbbbbbbb");
    let cut1 = r1.windows(4).position(|w| w == b"\r\n\r\n").unwrap() + 4;
    let cut2 = r2.windows(4).position(|w| w == b"\r\n\r\n").unwrap() + 4;
    assert_eq!(&r1[..cut1], &r2[..cut2]);
}

#[test]
fn png_body_follows_header_block() {
    let body = b"\x89PNG\r\n\x1a\nrest-of-stream";
    let resp = build_ok_response(body);
    assert!(resp.starts_with(b"HTTP/1.1 200 OK\r\nContent-Type: image/png\r\n"));
    let cut = resp.windows(4).position(|w| w == b"\r\n\r\n").unwrap() + 4;
    assert_eq!(&resp[cut..cut + 8], b"\x89PNG\r\n\x1a\n");
}
