//! Header modifiers and path rewrites.

use http::{HeaderMap, HeaderValue};
use lb::lb_core::filter::{HeaderModifier, RouteFilters, UrlRewrite};

fn set(name: &str, value: &str) -> HeaderModifier {
    HeaderModifier::Put {
        name: name.into(),
        value: value.into(),
    }
}

#[test]
fn noop_filters_touch_nothing() {
    let f = RouteFilters::default();
    assert!(f.is_noop());
    let mut headers = HeaderMap::new();
    headers.insert("x-keep", HeaderValue::from_static("1"));
    f.apply_request_headers(&mut headers);
    assert_eq!(headers.len(), 1);
    assert_eq!(f.apply_url_rewrite("/same"), "/same");
}

#[test]
fn set_replaces_add_appends_remove_deletes() {
    let f = RouteFilters::new(
        &[
            set("x-set", "new"),
            HeaderModifier::Add {
                name: "x-add".into(),
                value: "b".into(),
            },
            HeaderModifier::Remove {
                name: "x-drop".into(),
            },
        ],
        &[],
        None,
    );
    let mut h = HeaderMap::new();
    h.insert("x-set", HeaderValue::from_static("old"));
    h.insert("x-add", HeaderValue::from_static("a"));
    h.insert("x-drop", HeaderValue::from_static("bye"));

    f.apply_request_headers(&mut h);

    assert_eq!(h.get("x-set").unwrap(), "new");
    assert_eq!(h.get_all("x-add").iter().count(), 2);
    assert!(h.get("x-drop").is_none());
}

#[test]
fn response_and_request_pipelines_are_independent() {
    let f = RouteFilters::new(&[set("x-req", "1")], &[set("x-resp", "2")], None);
    let mut req = HeaderMap::new();
    let mut resp = HeaderMap::new();
    f.apply_request_headers(&mut req);
    f.apply_response_headers(&mut resp);
    assert!(req.contains_key("x-req") && !req.contains_key("x-resp"));
    assert!(resp.contains_key("x-resp") && !resp.contains_key("x-req"));
}

#[test]
fn invalid_modifiers_are_dropped_not_fatal() {
    let f = RouteFilters::new(
        &[
            set("invalid header name", "v"),
            set("x-good", "v"),
            set("x-bad-value", "bad\nvalue"),
        ],
        &[],
        None,
    );
    let mut h = HeaderMap::new();
    f.apply_request_headers(&mut h);
    assert_eq!(h.len(), 1);
    assert_eq!(h.get("x-good").unwrap(), "v");
}

#[test]
fn prefix_rewrite_strips_and_replaces() {
    let f = RouteFilters::new(
        &[],
        &[],
        Some(UrlRewrite::Prefix {
            prefix: "/api".into(),
            replacement: "/v2".into(),
        }),
    );
    assert_eq!(f.apply_url_rewrite("/api/users"), "/v2/users");
    assert_eq!(f.apply_url_rewrite("/api"), "/v2");
    assert_eq!(f.apply_url_rewrite("/other"), "/other");
    assert!(f.rewrites_path());
}

#[test]
fn prefix_rewrite_to_root_does_not_double_slash() {
    let f = RouteFilters::new(
        &[],
        &[],
        Some(UrlRewrite::Prefix {
            prefix: "/api".into(),
            replacement: "/".into(),
        }),
    );
    assert_eq!(f.apply_url_rewrite("/api/users"), "/users");
    assert_eq!(f.apply_url_rewrite("/api"), "/");
}

#[test]
fn exact_rewrite_replaces_whole_path() {
    let f = RouteFilters::new(&[], &[], Some(UrlRewrite::Exact("/fixed".into())));
    assert_eq!(f.apply_url_rewrite("/anything/at/all"), "/fixed");
}

#[test]
fn clones_share_the_compiled_pipeline() {
    let f = RouteFilters::new(&[set("x", "1")], &[], None);
    let c = f.clone();
    assert!(f.shares_pipeline_with(&c));
}
