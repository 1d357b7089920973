//! The request as it goes upstream.

use http::{HeaderMap, HeaderValue};
use lb::lb_core::config::RouteConfig;
use lb::lb_core::forward::{
    prepare, Prepared, RequestParts, RequestTarget, UpstreamProtocol, Version,
};
use lb::lb_core::shared_table::SharedRouteTable;

fn table(upstream: &str) -> SharedRouteTable {
    SharedRouteTable::from_table(RouteConfig::single_upstream(upstream).compile())
}

fn parts_of(path_and_query: &str) -> RequestParts {
    let mut headers = HeaderMap::new();
    headers.insert("host", HeaderValue::from_static("example.test"));
    headers.insert("connection", HeaderValue::from_static("keep-alive"));
    headers.insert("keep-alive", HeaderValue::from_static("timeout=5"));
    RequestParts {
        uri: RequestTarget {
            scheme: None,
            authority: None,
            path_and_query: Some(path_and_query.to_string()),
        },
        version: Version::Http11,
        headers,
    }
}

fn shown(uri: &RequestTarget) -> String {
    let mut out = String::new();
    if let Some(scheme) = &uri.scheme {
        out.push_str(scheme);
        out.push_str("://");
    }
    if let Some(authority) = &uri.authority {
        out.push_str(authority);
    }
    if let Some(path) = &uri.path_and_query {
        out.push_str(path);
    }
    out
}

#[test]
fn rewrites_uri_to_the_backend_and_strips_hop_by_hop() {
    let routes = table("10.0.0.9:9090");
    let mut parts = parts_of("/api/things?page=2");
    let out = prepare(
        &mut parts,
        "203.0.113.7",
        &routes,
        true,
        UpstreamProtocol::Http1,
    );
    assert!(matches!(out, Prepared::Forward { .. }));
    assert_eq!(
        shown(&parts.uri),
        "http://10.0.0.9:9090/api/things?page=2"
    );
    assert!(parts.headers.get("keep-alive").is_none());
    assert!(parts.headers.get("connection").is_none());
    assert_eq!(parts.headers.get("x-forwarded-for").unwrap(), "203.0.113.7");
    assert_eq!(parts.headers.get("host").unwrap(), "10.0.0.9:9090");
    assert_eq!(parts.version, Version::Http11);
}

#[test]
fn http2_upstream_drops_host_and_sets_the_version() {
    let routes = table("10.0.0.9:9090");
    let mut parts = parts_of("/x");
    let _ = prepare(
        &mut parts,
        "203.0.113.7",
        &routes,
        false,
        UpstreamProtocol::Http2,
    );
    assert!(parts.headers.get("host").is_none());
    assert_eq!(parts.version, Version::Http2);
    assert!(
        parts.headers.get("x-forwarded-for").is_none(),
        "forwarded headers must be opt-in"
    );
}

#[test]
fn an_unroutable_request_is_rejected_without_rewriting() {
    let routes = SharedRouteTable::from_table(RouteConfig::default().compile());
    let mut parts = parts_of("/nope");
    let out = prepare(
        &mut parts,
        "203.0.113.7",
        &routes,
        true,
        UpstreamProtocol::Http1,
    );
    match out {
        Prepared::Reject(status) => assert_eq!(status, 404),
        Prepared::Forward { .. } => panic!("empty table must not route"),
    }
    assert_eq!(shown(&parts.uri), "/nope");
}
