//! Edge cases of the data planes.

use bytes::BytesMut;
use http::{HeaderMap, HeaderName, HeaderValue};
use lb::lb_core::config::{BackendEntry, PathType, RouteConfig, RouteEntry};
use lb::lb_core::filter::{HeaderModifier, RouteFilters, UrlRewrite};
use lb::lb_core::forward::{
    finish_response, prepare, prepare_with, BadRewrite, Prepared, RequestParts, RequestTarget,
    UpstreamProtocol, Version,
};
use lb::lb_core::proxy::strip_hop_by_hop;
use lb::lb_core::route_table::RouteTable;
use lb::lb_core::shared_table::SharedRouteTable;
use lb::proxy_monoio::http1::{
    is_hop_by_hop, parse_request, parse_response, split_header_lines, Parsed,
};
use lb::proxy_monoio::http2::prepare_h2;
use lb::proxy_monoio::server::{forward_target, Act, Refusal, Session};
use lb::proxy_native::chunked::ChunkedScan;
use lb::proxy_native::message::{parse_request as parse_native, write_response_head, Body};
use lb::proxy_native::worker::{Step, Submit, Worker};

fn put(name: &str, value: &str) -> HeaderModifier {
    HeaderModifier::Put { name: name.to_string(), value: value.to_string() }
}

fn one_route(backend: &str, path: &str, rewrite: Option<UrlRewrite>) -> RouteTable {
    RouteConfig {
        routes: vec![RouteEntry {
            name: "r".to_string(),
            hostname: None,
            path: path.to_string(),
            path_type: PathType::PathPrefix,
            backends: vec![BackendEntry { address: backend.to_string(), weight: 1 }],
            request_headers: vec![put("X-Route", "r")],
            response_headers: vec![],
            rewrite,
        }],
    }
    .compile()
}

fn request(target: &str, headers: HeaderMap) -> RequestParts {
    RequestParts {
        uri: RequestTarget {
            scheme: None,
            authority: None,
            path_and_query: Some(target.to_string()),
        },
        version: Version::Http11,
        headers,
    }
}

fn rejected(prepared: Prepared) -> u16 {
    match prepared {
        Prepared::Reject(status) => status,
        Prepared::Forward { .. } => panic!("the request was forwarded"),
    }
}

// ---------------------------------------------------------------------------
// Headers
// ---------------------------------------------------------------------------

#[test]
fn the_last_rule_on_a_header_decides() {
    let filters = RouteFilters::new(
        &[
            put("x", "1"),
            HeaderModifier::Remove { name: "x".to_string() },
            put("X", "2"),
        ],
        &[],
        None,
    );
    let mut h = HeaderMap::new();
    h.insert("x", HeaderValue::from_static("0"));
    h.insert("y", HeaderValue::from_static("kept"));
    filters.apply_request_headers(&mut h);
    assert_eq!(h.get("x").unwrap(), "2");
    assert_eq!(h.get_all("x").iter().count(), 1);
    assert_eq!(h.get("y").unwrap(), "kept");
}

#[test]
fn names_of_rules_are_taken_in_lower_case() {
    let filters = RouteFilters::new(&[put("X-Upper", "v")], &[], None);
    let mut out = Vec::new();
    filters.write_request_headers(&mut out);
    assert_eq!(out, b"x-upper: v\r\n");
    assert!(filters.request_suppresses("X-UPPER"));
    assert!(!filters.response_suppresses("x-upper"));
    assert_eq!((filters.request_rules(), filters.response_rules()), (1, 0));
}

#[test]
fn stripping_twice_is_stripping_once() {
    let mut h = HeaderMap::new();
    h.insert("connection", HeaderValue::from_static("x-hop, close"));
    h.insert("x-hop", HeaderValue::from_static("1"));
    h.insert("x-keep", HeaderValue::from_static("2"));
    strip_hop_by_hop(&mut h);
    let once = h.clone();
    strip_hop_by_hop(&mut h);
    assert_eq!(h, once);
    assert_eq!(h.len(), 1);
}

#[test]
fn a_response_is_cleaned_on_its_way_back() {
    let filters = RouteFilters::new(&[], &[put("x-served-by", "lb")], None);
    let mut h = HeaderMap::new();
    h.insert("keep-alive", HeaderValue::from_static("t=5"));
    h.insert("content-type", HeaderValue::from_static("text/plain"));
    finish_response(&mut h, &filters);
    assert!(h.get("keep-alive").is_none());
    assert_eq!(h.get("x-served-by").unwrap(), "lb");
    assert_eq!(h.get("content-type").unwrap(), "text/plain");
}

// ---------------------------------------------------------------------------
// Forwarding
// ---------------------------------------------------------------------------

#[test]
fn forwarding_extends_the_chain_and_applies_the_route() {
    let routes = SharedRouteTable::from_table(one_route("b:80", "/", None));
    let mut headers = HeaderMap::new();
    headers.insert("x-forwarded-for", HeaderValue::from_static("1.1.1.1"));
    let mut parts = request("/x?y=1", headers);
    match prepare(&mut parts, "2.2.2.2", &routes, true, UpstreamProtocol::Http1) {
        Prepared::Forward { address, .. } => assert_eq!(address, "b:80"),
        Prepared::Reject(status) => panic!("rejected with {status}"),
    }
    assert_eq!(parts.headers.get("x-forwarded-for").unwrap(), "1.1.1.1, 2.2.2.2");
    assert_eq!(parts.headers.get("x-forwarded-proto").unwrap(), "http");
    assert_eq!(parts.headers.get("x-route").unwrap(), "r");
    assert_eq!(parts.headers.get("host").unwrap(), "b:80");
    assert_eq!(parts.uri.path_and_query.as_deref(), Some("/x?y=1"));
}

#[test]
fn a_backend_without_an_authority_is_a_bad_gateway() {
    let table = one_route("not a host", "/", None);
    let mut parts = request("/", HeaderMap::new());
    let out = prepare_with(
        &mut parts,
        "p",
        &table,
        true,
        UpstreamProtocol::Http1,
        BadRewrite::Reject,
    );
    assert_eq!(rejected(out), 502);
    assert_eq!(parts.uri.path_and_query.as_deref(), Some("/"));
}

#[test]
fn a_rewrite_that_is_no_path_is_rejected_or_sent_to_the_root() {
    let bad = || Some(UrlRewrite::Exact("no path".to_string()));
    let table = one_route("b:80", "/", bad());
    let mut parts = request("/x", HeaderMap::new());
    let out = prepare_with(
        &mut parts,
        "p",
        &table,
        false,
        UpstreamProtocol::Http1,
        BadRewrite::Reject,
    );
    assert_eq!(rejected(out), 500);

    let routes = SharedRouteTable::from_table(one_route("b:80", "/", bad()));
    let mut parts = request("/x", HeaderMap::new());
    match prepare_h2(&mut parts, "p", &routes, false) {
        Prepared::Forward { .. } => {}
        Prepared::Reject(status) => panic!("rejected with {status}"),
    }
    assert_eq!(parts.uri.path_and_query.as_deref(), Some("/"));
    assert_eq!(parts.version, Version::Http11);
}

#[test]
fn a_request_with_many_headers_is_forwarded() {
    let table = one_route("b:80", "/", None);
    let mut headers = HeaderMap::new();
    for i in 0..7_000 {
        let name = HeaderName::from_bytes(format!("x-{i}").as_bytes()).unwrap();
        headers.insert(name, HeaderValue::from_static("v"));
    }
    let mut parts = request("/", headers);
    let out = prepare_with(
        &mut parts,
        "p",
        &table,
        true,
        UpstreamProtocol::Http1,
        BadRewrite::Reject,
    );
    assert!(matches!(out, Prepared::Forward { .. }));
    // The two forwarding headers, the route's and `Host`.
    assert_eq!(parts.headers.keys_len(), 7_004);
}

/// A header map that takes no more names.
fn full_map() -> HeaderMap {
    let mut headers = HeaderMap::new();
    for i in 0..40_000 {
        let name = HeaderName::from_bytes(format!("x-{i}").as_bytes()).unwrap();
        if headers.try_insert(name, HeaderValue::from_static("v")).is_err() {
            break;
        }
    }
    headers
}

#[test]
fn a_request_whose_header_map_is_full_is_rejected_untouched() {
    let table = one_route("b:80", "/", None);
    let headers = full_map();
    let mut parts = request("/", headers.clone());
    let out = prepare_with(
        &mut parts,
        "p",
        &table,
        true,
        UpstreamProtocol::Http1,
        BadRewrite::Reject,
    );
    assert_eq!(rejected(out), 500);
    assert_eq!(parts.headers, headers);
    assert_eq!(parts.uri.authority, None);

    let filters = RouteFilters::new(&[], &[put("y", "1")], None);
    let mut answer = headers.clone();
    assert!(!finish_response(&mut answer, &filters));
    assert_eq!(answer, headers);
    assert!(finish_response(&mut answer, &RouteFilters::new(&[], &[], None)));
    assert_eq!(answer, headers);
}

#[test]
fn bytes_and_maps_are_filtered_alike() {
    let filters = RouteFilters::new(
        &[
            put("X-Put", "new"),
            HeaderModifier::Add { name: "X-Add".to_string(), value: "more".to_string() },
            HeaderModifier::Remove { name: "X-Gone".to_string() },
        ],
        &[],
        None,
    );
    let mut map = HeaderMap::new();
    for (name, value) in [("x-put", "old"), ("x-add", "one"), ("x-gone", "g"), ("x-kept", "k")] {
        map.insert(name, HeaderValue::from_static(value));
    }
    let mut head = Vec::new();
    for (name, value) in &map {
        if !filters.request_suppresses(name.as_str()) {
            head.extend_from_slice(format!("{name}: {}\r\n", value.to_str().unwrap()).as_bytes());
        }
    }
    filters.write_request_headers(&mut head);
    filters.apply_request_headers(&mut map);
    let mut lines: Vec<String> = String::from_utf8(head)
        .unwrap()
        .split_terminator("\r\n")
        .map(str::to_string)
        .collect();
    let mut expected: Vec<String> = map
        .iter()
        .map(|(name, value)| format!("{name}: {}", value.to_str().unwrap()))
        .collect();
    lines.sort();
    expected.sort();
    assert_eq!(lines, expected);
    assert_eq!(lines, ["x-add: more", "x-add: one", "x-kept: k", "x-put: new"]);
}

#[test]
fn the_host_of_an_absolute_target_counts_before_the_header() {
    let config = RouteConfig {
        routes: vec![RouteEntry {
            name: "r".to_string(),
            hostname: Some("a.test".to_string()),
            path: "/".to_string(),
            path_type: PathType::PathPrefix,
            backends: vec![BackendEntry { address: "b:80".to_string(), weight: 1 }],
            request_headers: vec![],
            response_headers: vec![],
            rewrite: None,
        }],
    };
    let routes = SharedRouteTable::from_table(config.compile());
    let mut headers = HeaderMap::new();
    headers.insert("host", HeaderValue::from_static("other.test"));
    let mut parts = request("/", headers);
    parts.uri.authority = Some("user@a.test:8080".to_string());
    match prepare(&mut parts, "p", &routes, false, UpstreamProtocol::Http2) {
        Prepared::Forward { .. } => {}
        Prepared::Reject(status) => panic!("rejected with {status}"),
    }
    assert_eq!(parts.uri.authority.as_deref(), Some("b:80"));
    assert!(parts.headers.get("host").is_none());
}

#[test]
fn rewritten_targets_keep_their_query() {
    let filters = RouteFilters::new(
        &[],
        &[],
        Some(UrlRewrite::Prefix {
            prefix: "/api".to_string(),
            replacement: "/v2".to_string(),
        }),
    );
    assert_eq!(forward_target(&filters, "/api/x?y=1"), "/v2/x?y=1");
    assert_eq!(forward_target(&RouteFilters::default(), "/api/x?y=1"), "/api/x?y=1");
}

// ---------------------------------------------------------------------------
// Messages
// ---------------------------------------------------------------------------

#[test]
fn folded_header_lines_are_joined() {
    let lines = split_header_lines(b"A: 1\r\n 2\r\n\t3\r\nB: 4\r\n");
    let shown: Vec<String> = lines
        .into_iter()
        .map(|l| String::from_utf8(l).unwrap())
        .collect();
    assert_eq!(shown.len(), 2);
    assert!(shown[0].starts_with("A: 1"), "{shown:?}");
    assert!(shown[0].contains('2') && shown[0].contains('3'), "{shown:?}");
    assert_eq!(shown[1], "B: 4");
}

#[test]
fn hop_by_hop_names_are_known_in_any_case() {
    assert!(is_hop_by_hop(b"Keep-Alive"));
    assert!(is_hop_by_hop(b"connection"));
    assert!(!is_hop_by_hop(b"content-type"));
}

#[test]
fn malformed_heads_are_invalid_not_partial() {
    assert!(matches!(parse_request(b"\x01\r\n\r\n"), Parsed::Invalid(_)));
    assert!(matches!(parse_response(b"nonsense\r\n\r\n", "GET"), Parsed::Invalid(_)));
    assert!(parse_native(b"\x01\r\n\r\n").is_err());
}

#[test]
fn a_native_head_names_its_method_and_length() {
    let raw = b"HEAD /x HTTP/1.0\r\nContent-Length: 3\r\n\r\nabc";
    let head = parse_native(raw).unwrap().unwrap();
    assert!(head.method_is_head);
    assert_eq!(head.body, Body::Length(3));
    assert_eq!(head.head_len, raw.len() - 3);
}

#[test]
fn a_native_response_head_says_how_the_connection_goes_on() {
    let raw = b"HTTP/1.1 200 OK\r\nConnection: close\r\nX-A: 1\r\n\r\n";
    let mut out = Vec::new();
    let filters = RouteFilters::new(&[], &[put("x-b", "2")], None);
    write_response_head(&mut out, raw, true, &filters).unwrap();
    let text = String::from_utf8(out).unwrap();
    assert!(text.starts_with("HTTP/1.1 200 OK\r\n"), "{text}");
    assert!(text.contains("X-A: 1\r\n") && text.contains("x-b: 2\r\n"), "{text}");
    assert!(text.contains("connection: keep-alive\r\n"), "{text}");
    assert!(!text.contains("close"), "{text}");
}

#[test]
fn trailers_belong_to_a_chunked_body() {
    let mut scan = ChunkedScan::new();
    scan.consume(b"3\r\nabc\r\n0\r\nX-Trailer: 1\r\n");
    assert!(!scan.is_complete(), "the blank line is still to come");
    scan.consume(b"\r\n");
    assert!(scan.is_complete());
    scan.consume(b"more");
    assert!(scan.is_complete());
}

// ---------------------------------------------------------------------------
// Connections
// ---------------------------------------------------------------------------

#[test]
fn an_endless_head_is_refused() {
    let table = one_route("b:80", "/", None);
    let mut session = Session::new("p", true, BytesMut::new());
    let (mut cbuf, mut ubuf) = (Vec::new(), Vec::new());
    let mut act = session.begin(&mut cbuf, &table);
    let mut sent = 0;
    loop {
        match act {
            Act::ReadClient { from, to } => {
                for (i, byte) in cbuf[from..to].iter_mut().enumerate() {
                    *byte = *b"GET /".get(sent + i).unwrap_or(&b'a');
                }
                sent += to - from;
                act = session.on_client_read(to - from, &mut cbuf, &mut ubuf, &table);
            }
            other => {
                assert_eq!(other, Act::Refuse(Refusal::HeadTooLarge));
                break;
            }
        }
        assert!(sent <= 256 * 1024, "the head is never refused");
    }
}

#[test]
fn a_pipelined_request_is_kept_for_the_next_turn() {
    let table = one_route("b:80", "/", None);
    let mut session = Session::new("p", true, BytesMut::new());
    let (mut cbuf, mut ubuf): (Vec<u8>, Vec<u8>) = (Vec::new(), Vec::new());
    let act = session.begin(&mut cbuf, &table);
    let two = b"GET /1 HTTP/1.1\r\nHost: h\r\n\r\nGET /2 HTTP/1.1\r\nHost: h\r\n\r\n";
    let act = match act {
        Act::ReadClient { from, .. } => {
            cbuf[from..from + two.len()].copy_from_slice(two);
            session.on_client_read(two.len(), &mut cbuf, &mut ubuf, &table)
        }
        other => panic!("expected a read, got {other:?}"),
    };
    assert_eq!(act, Act::Acquire);
    assert_eq!(session.on_acquired(true), Act::SendHead);
    assert!(session.head().starts_with(b"GET /1 "));
    let act = session.on_written(&mut cbuf, &mut ubuf);
    let answer = b"HTTP/1.1 204 No Content\r\n\r\n";
    let act = match act {
        Act::ReadUpstream { from, .. } => {
            ubuf[from..from + answer.len()].copy_from_slice(answer);
            session.on_upstream_read(answer.len(), &mut cbuf, &mut ubuf)
        }
        other => panic!("expected a read, got {other:?}"),
    };
    assert_eq!(act, Act::ReturnHead);
    let act = session.on_written(&mut cbuf, &mut ubuf);
    assert_eq!(act, Act::Finish { park: true, close: false });
    // The second request is there already: nothing is read before it is routed.
    assert_eq!(session.begin(&mut cbuf, &table), Act::Acquire);
    session.on_acquired(true);
    assert!(session.head().starts_with(b"GET /2 "));
}

/// Give a worker's read these bytes.
fn fill(worker: &mut Worker, submit: Submit, size: usize, bytes: &[u8], table: &RouteTable) -> Step {
    match submit {
        Submit::ReadFixed { buf, offset, len, user_data, .. } => {
            assert!(bytes.len() <= len);
            let at = buf as usize * size + offset;
            worker.memory_mut()[at..at + bytes.len()].copy_from_slice(bytes);
            worker.dispatch(user_data, bytes.len() as i32, false, "", table)
        }
        other => panic!("expected a read, got {other:?}"),
    }
}

fn answer(worker: &Worker, step: &Step) -> String {
    String::from_utf8(worker.out(step.index).to_vec()).unwrap()
}

#[test]
fn a_native_request_without_a_route_is_not_found() {
    let table = RouteTable::empty();
    let mut worker = Worker::new(1, 2, 256).unwrap();
    let tag = worker.arm_accept();
    let step = worker.dispatch(tag, 9, true, "p", &table);
    let step = fill(&mut worker, step.submit, 256, b"GET / HTTP/1.1\r\nHost: h\r\n\r\n", &table);
    assert!(answer(&worker, &step).starts_with("HTTP/1.1 404 Not Found\r\n"));
}

#[test]
fn a_native_head_that_fills_its_buffer_is_too_large() {
    let table = RouteTable::empty();
    let mut worker = Worker::new(1, 2, 16).unwrap();
    let tag = worker.arm_accept();
    let step = worker.dispatch(tag, 9, true, "p", &table);
    let step = fill(&mut worker, step.submit, 16, b"GET /aaaaaaaaaaa", &table);
    assert!(answer(&worker, &step).starts_with("HTTP/1.1 431 "));
}

#[test]
fn a_native_request_without_a_buffer_for_its_response_is_turned_away() {
    let table = one_route("127.0.0.1:80", "/", None);
    let mut worker = Worker::new(1, 1, 256).unwrap();
    let tag = worker.arm_accept();
    let step = worker.dispatch(tag, 9, true, "p", &table);
    let step = fill(&mut worker, step.submit, 256, b"GET / HTTP/1.1\r\nHost: h\r\n\r\n", &table);
    let step = worker.on_resolved(step.index, true);
    let step = worker.on_open(step.index, 20);
    let step = match step.submit {
        Submit::Connect { user_data, .. } => worker.dispatch(user_data, 0, false, "", &table),
        other => panic!("expected a connect, got {other:?}"),
    };
    let step = match step.submit {
        Submit::Send { len, user_data, .. } => {
            worker.dispatch(user_data, len as i32, false, "", &table)
        }
        other => panic!("expected a write, got {other:?}"),
    };
    assert_eq!(step.close, [20], "a failed exchange gives its socket up");
    assert!(answer(&worker, &step).starts_with("HTTP/1.1 503 Service Unavailable\r\n"));
}

#[test]
fn a_worker_without_slots_turns_connections_away() {
    let table = RouteTable::empty();
    let mut worker = Worker::new(1, 4, 64).unwrap();
    let tag = worker.arm_accept();
    worker.dispatch(tag, 9, true, "p", &table);
    let step = worker.dispatch(tag, 10, true, "p", &table);
    assert_eq!(step.close, [10]);
    assert_eq!(step.submit, Submit::Nothing);
}

#[test]
fn a_slot_that_is_used_again_has_another_generation() {
    let table = RouteTable::empty();
    let mut worker = Worker::new(1, 2, 64).unwrap();
    assert_eq!(worker.slots(), 1);
    let tag = worker.arm_accept();
    let mut tags = Vec::new();
    for fd in [9, 10] {
        let step = worker.dispatch(tag, fd, true, "p", &table);
        match step.submit {
            Submit::ReadFixed { user_data, .. } => {
                tags.push(user_data);
                worker.dispatch(user_data, 0, false, "", &table);
            }
            other => panic!("expected a read, got {other:?}"),
        }
    }
    assert_ne!(tags[0], tags[1]);
}
