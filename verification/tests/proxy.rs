//! Hop-by-hop headers and forwarding headers.

use http::{HeaderMap, HeaderName, HeaderValue};
use lb::lb_core::proxy::{
    append_forwarded_for, nominated_from_value, set_forwarded_proto, strip_hop_by_hop,
    FORWARDED_FOR, FORWARDED_PROTO, HOP_BY_HOP,
};

fn map(pairs: &[(&str, &str)]) -> HeaderMap {
    let mut h = HeaderMap::new();
    for (k, v) in pairs {
        h.append(
            HeaderName::from_bytes(k.as_bytes()).unwrap(),
            HeaderValue::from_str(v).unwrap(),
        );
    }
    h
}

#[test]
fn removes_the_standard_hop_by_hop_set() {
    let mut h = map(&[
        ("connection", "keep-alive"),
        ("keep-alive", "timeout=5"),
        ("proxy-connection", "keep-alive"),
        ("te", "trailers"),
        ("upgrade", "websocket"),
        ("trailer", "expires"),
        ("proxy-authorization", "Basic x"),
        ("proxy-authenticate", "Basic"),
        ("content-type", "application/json"),
    ]);
    strip_hop_by_hop(&mut h);
    assert_eq!(h.len(), 1);
    assert_eq!(h.get("content-type").unwrap(), "application/json");
}

#[test]
fn honours_headers_nominated_by_connection() {
    let mut h = map(&[
        ("connection", "x-custom-hop, x-another"),
        ("x-custom-hop", "1"),
        ("x-another", "2"),
        ("x-keep", "3"),
    ]);
    strip_hop_by_hop(&mut h);
    assert!(h.get("x-custom-hop").is_none());
    assert!(h.get("x-another").is_none());
    assert_eq!(h.get("x-keep").unwrap(), "3");
}

#[test]
fn connection_close_token_is_not_treated_as_a_header_name() {
    let mut h = map(&[("connection", "close"), ("close", "not-a-real-header")]);
    strip_hop_by_hop(&mut h);
    assert_eq!(
        h.get("close").unwrap(),
        "not-a-real-header",
        "the literal 'close' token must not nominate a header"
    );
}

#[test]
fn transfer_encoding_survives_because_the_http_layer_owns_framing() {
    let mut h = map(&[
        ("transfer-encoding", "chunked"),
        ("connection", "keep-alive"),
    ]);
    strip_hop_by_hop(&mut h);
    assert_eq!(h.get("transfer-encoding").unwrap(), "chunked");
}

#[test]
fn forwarded_for_starts_and_extends_a_chain() {
    let mut h = HeaderMap::new();
    append_forwarded_for(&mut h, "10.0.0.1");
    assert_eq!(h.get(FORWARDED_FOR).unwrap(), "10.0.0.1");
    append_forwarded_for(&mut h, "10.0.0.2");
    assert_eq!(h.get(FORWARDED_FOR).unwrap(), "10.0.0.1, 10.0.0.2");
}

#[test]
fn forwarded_proto_is_set() {
    let mut h = HeaderMap::new();
    set_forwarded_proto(&mut h, "http");
    assert_eq!(h.get(FORWARDED_PROTO).unwrap(), "http");
}

#[test]
fn nominated_names_exclude_connection_dispositions() {
    assert!(nominated_from_value("close").is_empty());
    assert!(nominated_from_value("keep-alive").is_empty());
    assert!(nominated_from_value("").is_empty());
    let names = nominated_from_value("keep-alive, x-trace-id , X-Other");
    let as_str: Vec<&str> = names.iter().map(String::as_str).collect();
    assert_eq!(as_str, ["x-trace-id", "x-other"]);
}

#[test]
fn hop_by_hop_list_is_exposed_for_data_planes_that_need_it() {
    let hop_by_hop = HOP_BY_HOP;
    let names: Vec<&str> = hop_by_hop.to_vec();
    assert!(names.contains(&"keep-alive"));
    assert!(names.contains(&"upgrade"));
    assert!(names.contains(&"te"));
    assert!(
        !names.contains(&"connection"),
        "Connection is handled separately because its value nominates others"
    );
}

#[test]
fn empty_map_is_a_no_op() {
    let mut h = HeaderMap::new();
    strip_hop_by_hop(&mut h);
    assert!(h.is_empty());
}
