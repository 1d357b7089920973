//! HTTP/1 heads on the thread-per-core data plane.

use bytes::BytesMut;
use lb::proxy_monoio::http1::{
    connection_nominated, error_response, is_hop_by_hop, parse_request, parse_response,
    split_header_lines, write_forward_head, write_return_head, BodyLength, Parsed, RequestHead,
};

fn req(bytes: &[u8]) -> RequestHead {
    match parse_request(bytes) {
        Parsed::Complete(h) => h,
        other => panic!("expected a complete head, got {other:?}"),
    }
}

#[test]
fn parses_a_simple_get() {
    let h = req(b"GET /api/v1?x=1 HTTP/1.1\r\nHost: example.com\r\n\r\n");
    assert_eq!(h.method, "GET");
    assert_eq!(h.target, "/api/v1?x=1");
    assert_eq!(h.host.as_deref(), Some("example.com"));
    assert_eq!(h.body, BodyLength::Empty);
    assert!(!h.close_requested);
}

#[test]
fn partial_head_is_reported_not_guessed() {
    assert!(matches!(
        parse_request(b"GET / HTTP/1.1\r\nHo"),
        Parsed::Partial
    ));
    assert!(matches!(parse_request(b""), Parsed::Partial));
}

#[test]
fn content_length_and_chunked_framing() {
    assert_eq!(
        req(b"POST / HTTP/1.1\r\nContent-Length: 42\r\n\r\n").body,
        BodyLength::Fixed(42)
    );
    assert_eq!(
        req(b"POST / HTTP/1.1\r\nTransfer-Encoding: chunked\r\n\r\n").body,
        BodyLength::Chunked
    );
    // Transfer-Encoding wins over Content-Length.
    assert_eq!(
        req(b"POST / HTTP/1.1\r\nContent-Length: 9\r\nTransfer-Encoding: chunked\r\n\r\n").body,
        BodyLength::Chunked
    );
}

#[test]
fn invalid_content_length_is_rejected() {
    assert!(matches!(
        parse_request(b"POST / HTTP/1.1\r\nContent-Length: abc\r\n\r\n"),
        Parsed::Invalid(_)
    ));
}

#[test]
fn connection_disposition_is_honoured_in_both_directions() {
    assert!(req(b"GET / HTTP/1.1\r\nConnection: close\r\n\r\n").close_requested);
    assert!(
        req(b"GET / HTTP/1.0\r\n\r\n").close_requested,
        "HTTP/1.0 defaults to close"
    );
    assert!(
        !req(b"GET / HTTP/1.0\r\nConnection: keep-alive\r\n\r\n").close_requested,
        "explicit keep-alive overrides the HTTP/1.0 default"
    );
}

#[test]
fn response_framing_covers_the_bodyless_cases() {
    let parse = |b: &[u8], m: &str| match parse_response(b, m) {
        Parsed::Complete(h) => h,
        other => panic!("expected complete, got {other:?}"),
    };
    assert_eq!(
        parse(b"HTTP/1.1 200 OK\r\nContent-Length: 100\r\n\r\n", "HEAD").body,
        BodyLength::Empty,
        "a HEAD response has no body despite Content-Length"
    );
    assert_eq!(
        parse(b"HTTP/1.1 204 No Content\r\n\r\n", "GET").body,
        BodyLength::Empty
    );
    assert_eq!(
        parse(
            b"HTTP/1.1 304 Not Modified\r\nContent-Length: 5\r\n\r\n",
            "GET"
        )
        .body,
        BodyLength::Empty
    );
    assert_eq!(
        parse(b"HTTP/1.1 200 OK\r\n\r\n", "GET").body,
        BodyLength::UntilClose,
        "no framing headers means read until close"
    );
    assert_eq!(
        parse(b"HTTP/1.1 200 OK\r\nContent-Length: 20000\r\n\r\n", "GET").body,
        BodyLength::Fixed(20_000)
    );
}

#[test]
fn forward_head_strips_hop_by_hop_and_sets_host() {
    let original = b"GET /old HTTP/1.1\r\n\
        Host: client.example.com\r\n\
        Connection: keep-alive\r\n\
        Keep-Alive: timeout=5\r\n\
        Proxy-Connection: keep-alive\r\n\
        Upgrade: h2c\r\n\
        TE: trailers\r\n\
        X-Keep: yes\r\n\r\n";
    let head = req(original);
    let mut out = BytesMut::new();
    write_forward_head(
        &mut out,
        original,
        &head,
        "/new",
        "backend:8080",
        Some("10.0.0.7"),
    );
    let text = String::from_utf8(out.to_vec()).unwrap();

    assert!(text.starts_with("GET /new HTTP/1.1\r\n"), "{text}");
    assert!(text.contains("Host: backend:8080\r\n"));
    assert!(text.contains("X-Keep: yes\r\n"));
    assert!(text.contains("X-Forwarded-For: 10.0.0.7\r\n"));
    assert!(text.contains("X-Forwarded-Proto: http\r\n"));
    for banned in [
        "Connection:",
        "Keep-Alive:",
        "Proxy-Connection:",
        "Upgrade:",
        "TE:",
    ] {
        assert!(!text.contains(banned), "{banned} survived: {text}");
    }
    assert!(text.ends_with("\r\n\r\n"));
}

/// `Connection: keep-alive, x-custom-hop` marks `x-custom-hop`
/// as hop-by-hop for this connection, so it must not reach the upstream.
#[test]
fn forward_head_drops_headers_nominated_by_connection() {
    let original = b"GET / HTTP/1.1\r\n\
        Host: client\r\n\
        Connection: keep-alive, X-Custom-Hop\r\n\
        X-Custom-Hop: secret\r\n\
        X-Keep: yes\r\n\r\n";
    let head = req(original);
    let mut out = BytesMut::new();
    write_forward_head(&mut out, original, &head, "/", "b:80", None);
    let text = String::from_utf8(out.to_vec()).unwrap();
    assert!(
        !text.contains("X-Custom-Hop"),
        "nominated header leaked: {text}"
    );
    assert!(text.contains("X-Keep: yes"));
}

#[test]
fn connection_nominated_ignores_dispositions() {
    assert!(connection_nominated(b"Connection: close\r\n").is_empty());
    assert!(connection_nominated(b"Connection: keep-alive\r\n").is_empty());
    assert_eq!(
        connection_nominated(b"Connection: keep-alive, X-Trace , x-b\r\n"),
        vec![b"x-trace".to_vec(), b"x-b".to_vec()]
    );
}

#[test]
fn return_head_drops_headers_nominated_by_connection() {
    let original = b"HTTP/1.1 200 OK\r\n\
        Content-Length: 0\r\n\
        Connection: keep-alive, X-Server-Hop\r\n\
        X-Server-Hop: internal\r\n\r\n";
    let head = match parse_response(original, "GET") {
        Parsed::Complete(h) => h,
        other => panic!("{other:?}"),
    };
    let mut out = BytesMut::new();
    write_return_head(&mut out, original, &head, true);
    let text = String::from_utf8(out.to_vec()).unwrap();
    assert!(!text.contains("X-Server-Hop"), "{text}");
}

#[test]
fn forward_head_extends_an_existing_forwarded_for_chain() {
    let original = b"GET / HTTP/1.1\r\nHost: h\r\nX-Forwarded-For: 1.2.3.4\r\n\r\n";
    let head = req(original);
    let mut out = BytesMut::new();
    write_forward_head(
        &mut out,
        original,
        &head,
        "/",
        "b:80",
        Some("5.6.7.8"),
    );
    let text = String::from_utf8(out.to_vec()).unwrap();
    assert!(
        text.contains("X-Forwarded-For: 1.2.3.4, 5.6.7.8\r\n"),
        "{text}"
    );
}

#[test]
fn return_head_sets_the_connection_disposition() {
    let original =
        b"HTTP/1.1 200 OK\r\nContent-Length: 3\r\nConnection: close\r\nKeep-Alive: t=1\r\n\r\n";
    let head = match parse_response(original, "GET") {
        Parsed::Complete(h) => h,
        other => panic!("{other:?}"),
    };
    let mut out = BytesMut::new();
    write_return_head(&mut out, original, &head, true);
    let text = String::from_utf8(out.to_vec()).unwrap();
    assert!(text.starts_with("HTTP/1.1 200 OK\r\n"));
    assert!(text.contains("Content-Length: 3\r\n"));
    assert!(text.contains("Connection: keep-alive\r\n"));
    assert!(!text.contains("Keep-Alive: t=1"));

    out.clear();
    write_return_head(&mut out, original, &head, false);
    assert!(
        String::from_utf8(out.to_vec())
            .unwrap()
            .contains("Connection: close\r\n")
    );
}

#[test]
fn error_response_is_well_formed() {
    let bytes = error_response(502, "Bad Gateway");
    let text = String::from_utf8(bytes).unwrap();
    assert_eq!(
        text,
        "HTTP/1.1 502 Bad Gateway\r\nContent-Length: 0\r\nConnection: close\r\n\r\n"
    );
}

#[test]
fn body_length_empty_predicate() {
    assert!(BodyLength::Empty.is_empty());
    assert!(BodyLength::Fixed(0).is_empty());
    assert!(!BodyLength::Fixed(1).is_empty());
    assert!(!BodyLength::Chunked.is_empty());
}
