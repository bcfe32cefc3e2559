//! Framing and capabilities, without a socket.

use tinyhivemind_verified::server::{capabilities, content_length, headers_end, seat_for};

#[test]
fn the_head_ends_at_the_blank_line() {
    assert_eq!(
        headers_end(b"POST / HTTP/1.1\r\nA: b\r\n\r\nbody"),
        Some(25)
    );
    assert_eq!(headers_end(b"POST / HTTP/1.1\r\nA: b\r\n"), None);
}

#[test]
fn content_length_is_read_case_insensitively_and_defaults_to_zero() {
    assert_eq!(
        content_length("POST / HTTP/1.1\r\ncontent-LENGTH: 12\r\n"),
        12
    );
    assert_eq!(
        content_length("POST / HTTP/1.1\r\nContent-Length: nope\r\n"),
        0
    );
    assert_eq!(content_length("POST / HTTP/1.1\r\n"), 0);
}

#[test]
fn a_capability_is_per_seat_per_server_and_never_derivable_from_the_name() {
    let seats = ["lead".to_owned(), "solver".to_owned()];
    let first = capabilities(&seats);
    let second = capabilities(&seats);
    assert_eq!(first.len(), 2);
    for i in 0..first.len() {
        let token = first.value_at(i);
        assert_eq!(token.len(), 32);
        assert!(token.chars().all(|c| c.is_ascii_hexdigit()));
    }
    assert_ne!(first.get("lead"), first.get("solver"));
    assert_ne!(
        first.get("lead"),
        second.get("lead"),
        "a new server mints new capabilities"
    );
}

#[test]
fn a_path_speaks_for_a_seat_only_with_that_seats_capability() {
    let seats = ["lead".to_owned()];
    let minted = capabilities(&seats);
    let lead = minted.get("lead").expect("minted").clone();
    let good = format!("/seat/lead/{}", lead);
    assert_eq!(seat_for(&good, &minted).as_deref(), Some("lead"));
    assert_eq!(seat_for("/seat/lead/", &minted), None);
    assert_eq!(seat_for("/seat/lead", &minted), None);
    assert_eq!(
        seat_for(&format!("/seat/solver/{}", lead), &minted),
        None,
        "another seat's capability is not this seat's"
    );
    assert_eq!(seat_for("/nowhere", &minted), None);
}

#[test]
fn a_long_declared_length_is_refused_and_a_plus_sign_is_read() {
    assert_eq!(
        content_length("POST / HTTP/1.1\r\nContent-Length: 99999999999999999999999\r\n"),
        0
    );
    assert_eq!(content_length("POST / HTTP/1.1\r\nContent-Length: +7\r\n"), 7);
    assert_eq!(
        content_length("X: 1\r\nContent-Length: no\r\ncontent-length:  9 \r\n\r\n"),
        9
    );
    assert_eq!(content_length("Content-Length: 5"), 5);
}
