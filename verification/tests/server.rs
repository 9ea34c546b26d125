use screen_server::server::{handle_connection, run_http_server};

const NOT_FOUND: &[u8] = b"HTTP/1.1 404 Not Found\r\n\r\n";

#[test]
fn out_of_range_screen_is_not_found() {
    let screens: Vec<screenshots::Screen> = Vec::new();
    let resp = handle_connection(b"GET /screen/2 HTTP/1.1\r\n\r\n", &screens)
        .expect("an unroutable request is answered, not failed");
    assert_eq!(resp, NOT_FOUND.to_vec());
}

#[test]
fn screen_zero_is_not_found() {
    let screens: Vec<screenshots::Screen> = Vec::new();
    let resp = handle_connection(b"GET /screen/0 HTTP/1.1\r\nHost: x\r\n\r\n", &screens)
        .expect("screen zero is answered, not failed");
    assert_eq!(resp, NOT_FOUND.to_vec());
}

#[test]
fn malformed_request_is_answered_not_found() {
    let screens: Vec<screenshots::Screen> = Vec::new();
    let resp = handle_connection(b"GET /\r\n\r\n", &screens)
        .expect("a malformed request is answered, not failed");
    assert_eq!(resp, NOT_FOUND.to_vec());
}

#[test]
fn connections_are_served_in_order() {
    let screens: Vec<screenshots::Screen> = Vec::new();
    let connections: Vec<Vec<u8>> = vec![
        b"GET / HTTP/1.1\r\nHost: x\r\n\r\n".to_vec(),
        b"not an http request".to_vec(),
        b"GET /screen/9 HTTP/1.1\r\n\r\n".to_vec(),
    ];
    let responses = run_http_server(&screens, &connections);
    assert_eq!(responses.len(), 3);
    for r in responses {
        assert_eq!(r.expect("with no display every request is answered 404"), NOT_FOUND.to_vec());
    }
}

#[test]
fn repeated_request_is_answered_alike() {
    let screens: Vec<screenshots::Screen> = Vec::new();
    let connections: Vec<Vec<u8>> = vec![
        b"GET /screen/1 HTTP/1.1\r\nHost: x\r\n\r\n".to_vec(),
        b"GET /screen/1 HTTP/1.1\r\nHost: x\r\n\r\n".to_vec(),
    ];
    let responses = run_http_server(&screens, &connections);
    assert_eq!(responses[0], responses[1]);
}

#[test]
fn overflowing_screen_number_is_answered_not_found() {
    let screens: Vec<screenshots::Screen> = Vec::new();
    let resp = handle_connection(
        b"GET /screen/340282366920938463463374607431768211456 HTTP/1.1\r\n\r\n",
        &screens,
    )
    .expect("an overflowing screen number is answered, not failed");
    assert_eq!(resp, NOT_FOUND.to_vec());
}
