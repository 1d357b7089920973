//! HTTP/1 heads on the native data plane.

use lb::lb_core::filter::{HeaderModifier, RouteFilters};
use lb::proxy_native::message::{
    parse_request, parse_response, status_response, write_request_head, write_response_head, Body,
};

#[test]
fn parses_a_simple_get_and_reports_no_body() {
    let raw = b"GET /a?b=1 HTTP/1.1\r\nHost: x.test\r\n\r\n";
    let head = parse_request(raw).unwrap().unwrap();
    assert_eq!(head.head_len, raw.len());
    assert_eq!(head.body, Body::Empty);
    assert!(head.keep_alive);
    assert_eq!(&raw[head.path.0..head.path.0 + head.path.1], b"/a?b=1");
    let (s, l) = head.host.unwrap();
    assert_eq!(&raw[s..s + l], b"x.test");
}

#[test]
fn a_partial_head_asks_for_more_bytes() {
    assert!(
        parse_request(b"GET / HTTP/1.1\r\nHost: x")
            .unwrap()
            .is_none()
    );
}

#[test]
fn content_length_and_chunked_are_distinguished() {
    let cl = b"POST / HTTP/1.1\r\nHost: x\r\nContent-Length: 12\r\n\r\n";
    assert_eq!(parse_request(cl).unwrap().unwrap().body, Body::Length(12));
    let ch = b"POST / HTTP/1.1\r\nHost: x\r\nTransfer-Encoding: chunked\r\n\r\n";
    assert_eq!(parse_request(ch).unwrap().unwrap().body, Body::Chunked);
}

#[test]
fn connection_close_disables_keep_alive() {
    let raw = b"GET / HTTP/1.1\r\nHost: x\r\nConnection: close\r\n\r\n";
    assert!(!parse_request(raw).unwrap().unwrap().keep_alive);
}

#[test]
fn a_response_without_content_length_runs_until_close() {
    let raw = b"HTTP/1.1 200 OK\r\nServer: t\r\n\r\n";
    assert_eq!(
        parse_response(raw, false).unwrap().unwrap().body,
        Body::UntilClose
    );
}

#[test]
fn head_requests_and_204s_carry_no_body() {
    let raw = b"HTTP/1.1 200 OK\r\nContent-Length: 99\r\n\r\n";
    assert_eq!(parse_response(raw, true).unwrap().unwrap().body, Body::Empty);
    let raw = b"HTTP/1.1 204 No Content\r\n\r\n";
    assert_eq!(
        parse_response(raw, false).unwrap().unwrap().body,
        Body::Empty
    );
}

#[test]
fn rewritten_request_drops_hop_by_hop_and_sets_forwarding() {
    let raw = b"GET /p HTTP/1.1\r\nHost: orig\r\nConnection: keep-alive\r\nKeep-Alive: t=5\r\nX-Keep: 1\r\n\r\n";
    let head = parse_request(raw).unwrap().unwrap();
    let mut out = Vec::new();
    write_request_head(
        &mut out,
        raw,
        &head,
        "10.0.0.9:9090",
        "203.0.113.7",
        &RouteFilters::default(),
        None,
    )
    .unwrap();
    let text = String::from_utf8(out).unwrap();
    assert!(text.starts_with("GET /p HTTP/1.1\r\nhost: 10.0.0.9:9090\r\n"));
    assert!(!text.to_lowercase().contains("keep-alive: t=5"));
    assert!(!text.to_lowercase().contains("connection:"));
    assert!(text.contains("x-forwarded-for: 203.0.113.7"));
    assert!(text.contains("X-Keep: 1"));
}

#[test]
fn an_existing_forwarded_chain_is_extended_not_replaced() {
    let raw = b"GET / HTTP/1.1\r\nHost: o\r\nX-Forwarded-For: 1.1.1.1\r\n\r\n";
    let head = parse_request(raw).unwrap().unwrap();
    let mut out = Vec::new();
    write_request_head(
        &mut out,
        raw,
        &head,
        "u:1",
        "2.2.2.2",
        &RouteFilters::default(),
        None,
    )
    .unwrap();
    assert!(
        String::from_utf8(out)
            .unwrap()
            .contains("x-forwarded-for: 1.1.1.1, 2.2.2.2")
    );
}

#[test]
fn a_status_response_is_read_back() {
    for (status, reason) in [(404, "Not Found"), (100, ""), (502, "Bad Gateway"), (999, "~ !")] {
        let bytes = status_response(status, reason);
        for was_head in [false, true] {
            let head = parse_response(&bytes, was_head).unwrap().unwrap();
            assert_eq!(head.head_len, bytes.len());
            assert_eq!(head.body, Body::Empty);
            assert!(head.keep_alive);
        }
    }
}
