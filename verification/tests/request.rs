use workpool::request::starts_with;

#[test]
fn the_expected_request_line_matches() {
    let buffer = b"GET / HTTP/1.1\r\nHost: localhost\r\n\r\n";
    assert!(starts_with(buffer, b"GET / HTTP/1.1\r\n"));
}

#[test]
fn a_different_request_line_does_not_match() {
    let buffer = b"POST / HTTP/1.1\r\n";
    assert!(!starts_with(buffer, b"GET / HTTP/1.1\r\n"));
}

#[test]
fn a_buffer_shorter_than_the_prefix_does_not_match() {
    assert!(!starts_with(b"GET", b"GET / HTTP/1.1\r\n"));
}

#[test]
fn the_empty_prefix_matches_anything() {
    assert!(starts_with(b"", b""));
    assert!(starts_with(b"abc", b""));
}

#[test]
fn a_mismatch_in_the_last_byte_is_caught() {
    assert!(!starts_with(b"GET / HTTP/1.0", b"GET / HTTP/1.1"));
    assert!(starts_with(b"GET / HTTP/1.1", b"GET / HTTP/1.1"));
}
