//! Route lookup: precedence, expansion of patterns, hosts.

use lb::lb_core::filter::RouteFilters;
use lb::lb_core::route_table::{
    PathMatch, RouteSpec, RouteTable, RouteTableBuilder, MAX_HOST_LEN,
};
use lb::lb_core::shared_table::SharedRouteTable;
use lb::lb_core::target::BackendEndpoint;

fn ep(addr: &str) -> Vec<BackendEndpoint> {
    vec![BackendEndpoint::new(addr.to_string(), 1)]
}

fn sample_table() -> RouteTable {
    let mut b = RouteTableBuilder::new();
    b.add_route(
        Some("api.example.com"),
        "/v1/users",
        ep("10.0.1.1:80"),
        RouteFilters::default(),
        "exact-api",
    );
    b.add_route(
        Some("*.example.com"),
        "/v1",
        ep("10.0.2.1:80"),
        RouteFilters::default(),
        "wildcard-api",
    );
    b.add_route(
        None,
        "/health",
        ep("127.0.0.1:8080"),
        RouteFilters::default(),
        "default-health",
    );
    b.build().expect("build table")
}

#[test]
fn precedence_exact_then_wildcard_then_default() {
    let t = sample_table();
    assert_eq!(
        t.lookup(Some("api.example.com"), "/v1/users")
            .unwrap()
            .route_name,
        "exact-api"
    );
    assert_eq!(
        t.lookup(Some("foo.example.com"), "/v1/orders")
            .unwrap()
            .route_name,
        "wildcard-api"
    );
    assert_eq!(
        t.lookup(Some("random.org"), "/health").unwrap().route_name,
        "default-health"
    );
    assert!(t.lookup(Some("random.org"), "/not-found").is_none());
}

/// Regression: a `PathPrefix: /` catch-all must serve the root path.
/// The previous `/*path` -> `/{*catchall}` translation 404'd on "/", because
/// matchit catch-alls require at least one segment.
#[test]
fn root_catch_all_matches_root_and_below() {
    for pattern in ["/*path", "/*", "/*catchall", "/"] {
        let mut b = RouteTableBuilder::new();
        b.add_route(
            None,
            pattern,
            ep("127.0.0.1:9090"),
            RouteFilters::default(),
            "catchall",
        );
        let t = b.build().unwrap();
        for path in ["/", "/test", "/a/b/c", ""] {
            assert!(
                t.lookup(Some("localhost"), path).is_some(),
                "pattern {pattern:?} failed to match path {path:?}"
            );
        }
    }
}

#[test]
fn prefix_matches_bare_path_and_descendants() {
    let mut b = RouteTableBuilder::new();
    b.add_route(
        None,
        "/api",
        ep("10.0.0.1:80"),
        RouteFilters::default(),
        "api",
    );
    let t = b.build().unwrap();
    for path in ["/api", "/api/", "/api/v1", "/api/v1/deep/nesting"] {
        assert!(t.lookup(None, path).is_some(), "prefix miss on {path}");
    }
    assert!(
        t.lookup(None, "/apiary").is_none(),
        "prefix must be segment-aligned"
    );
}

#[test]
fn exact_match_does_not_match_descendants() {
    let mut b = RouteTableBuilder::new();
    b.add(RouteSpec {
        hostname: None,
        path: "/exact".into(),
        path_match: PathMatch::Exact,
        endpoints: ep("10.0.0.1:80"),
        filters: RouteFilters::default(),
        route_name: "exact".into(),
    });
    let t = b.build().unwrap();
    assert!(t.lookup(None, "/exact").is_some());
    assert!(t.lookup(None, "/exact/more").is_none());
}

#[test]
fn host_matching_is_case_insensitive_and_port_agnostic() {
    let t = sample_table();
    for host in [
        "API.EXAMPLE.COM",
        "Api.Example.Com",
        "api.example.com:8443",
        "API.EXAMPLE.COM:80",
    ] {
        assert_eq!(
            t.lookup(Some(host), "/v1/users").unwrap().route_name,
            "exact-api",
            "host {host} did not match"
        );
    }
}

#[test]
fn wildcard_prefers_most_specific_suffix() {
    let mut b = RouteTableBuilder::new();
    b.add_route(
        Some("*.example.com"),
        "/",
        ep("10.0.0.1:80"),
        RouteFilters::default(),
        "narrow",
    );
    b.add_route(
        Some("*.com"),
        "/",
        ep("10.0.0.2:80"),
        RouteFilters::default(),
        "broad",
    );
    let t = b.build().unwrap();
    assert_eq!(
        t.lookup(Some("a.example.com"), "/x").unwrap().route_name,
        "narrow"
    );
    assert_eq!(
        t.lookup(Some("a.other.com"), "/x").unwrap().route_name,
        "broad"
    );
}

/// A host that matches but whose path does not must fall through, not 404.
#[test]
fn host_hit_with_path_miss_falls_through_to_default() {
    let mut b = RouteTableBuilder::new();
    b.add_route(
        Some("api.example.com"),
        "/v1",
        ep("10.0.1.1:80"),
        RouteFilters::default(),
        "v1",
    );
    b.add_route(
        None,
        "/",
        ep("10.0.9.9:80"),
        RouteFilters::default(),
        "fallback",
    );
    let t = b.build().unwrap();
    assert_eq!(
        t.lookup(Some("api.example.com"), "/v1/x")
            .unwrap()
            .route_name,
        "v1"
    );
    assert_eq!(
        t.lookup(Some("api.example.com"), "/other")
            .unwrap()
            .route_name,
        "fallback"
    );
}

#[test]
fn ipv6_host_literals_are_handled() {
    let mut b = RouteTableBuilder::new();
    b.add_route(
        Some("[::1]"),
        "/",
        ep("10.0.0.1:80"),
        RouteFilters::default(),
        "v6",
    );
    let t = b.build().unwrap();
    assert_eq!(t.lookup(Some("[::1]:8080"), "/x").unwrap().route_name, "v6");
}

#[test]
fn conflicting_patterns_do_not_fail_the_reconcile() {
    let mut b = RouteTableBuilder::new();
    b.add_route(
        None,
        "/dup",
        ep("10.0.0.1:80"),
        RouteFilters::default(),
        "first",
    );
    b.add_route(
        None,
        "/dup",
        ep("10.0.0.2:80"),
        RouteFilters::default(),
        "second",
    );
    let t = b
        .build()
        .expect("duplicate patterns must not abort the build");
    assert_eq!(t.lookup(None, "/dup").unwrap().route_name, "first");
}

#[test]
fn shared_target_group_round_robins_across_expanded_patterns() {
    // "/api" expands to two matchit patterns; both must share one cursor,
    // otherwise load balancing state resets depending on the request path.
    let mut b = RouteTableBuilder::new();
    b.add_route(
        None,
        "/api",
        vec![
            BackendEndpoint::new("10.0.0.1:80".to_string(), 1),
            BackendEndpoint::new("10.0.0.2:80".to_string(), 1),
        ],
        RouteFilters::default(),
        "api",
    );
    let t = b.build().unwrap();
    let a = t
        .lookup(None, "/api")
        .unwrap()
        .target_group
        .select()
        .address()
        .clone();
    let b2 = t
        .lookup(None, "/api/deep")
        .unwrap()
        .target_group
        .select()
        .address()
        .clone();
    assert_ne!(a, b2, "cursor is not shared between expanded patterns");
}

#[test]
fn atomic_swap_publishes_new_table() {
    let shared = SharedRouteTable::new();
    assert!(shared.load().lookup(None, "/x").is_none());
    let mut b = RouteTableBuilder::new();
    b.add_route(None, "/", ep("10.0.0.1:80"), RouteFilters::default(), "new");
    shared.store(b.build().unwrap());
    assert_eq!(shared.load().lookup(None, "/x").unwrap().route_name, "new");
}

#[test]
fn empty_path_is_treated_as_root() {
    let mut b = RouteTableBuilder::new();
    b.add_route(
        None,
        "/",
        ep("10.0.0.1:80"),
        RouteFilters::default(),
        "root",
    );
    let t = b.build().unwrap();
    assert!(t.lookup(None, "").is_some());
}

#[test]
fn overlong_hostname_does_not_panic() {
    let t = sample_table();
    let long = "a".repeat(MAX_HOST_LEN * 2);
    assert!(
        t.lookup(Some(&long), "/health").is_some(),
        "must fall through to default"
    );
}

#[test]
fn escaped_braces_are_no_parameters() {
    let mut b = RouteTableBuilder::new();
    b.add(RouteSpec {
        hostname: None,
        path: format!("/{}", "{{".repeat(30)),
        path_match: PathMatch::Exact,
        endpoints: ep("10.0.0.1:80"),
        filters: RouteFilters::default(),
        route_name: "braces".to_string(),
    });
    let t = b.build().expect("build table");
    assert_eq!(
        t.lookup(None, &format!("/{}", "{".repeat(30))).unwrap().route_name,
        "braces"
    );
    assert!(t.lookup(None, &format!("/{}", "{".repeat(29))).is_none());
}

#[test]
fn a_published_table_is_in_force() {
    let shared = SharedRouteTable::new();
    assert!(shared.load().is_empty());
    shared.store(sample_table());
    assert_eq!(shared.load().len(), 3);
    shared.store_arc(std::sync::Arc::new(RouteTable::empty()));
    assert!(shared.load_full().is_empty());
}
