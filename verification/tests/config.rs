//! Route configuration for standalone mode.

use lb::lb_core::config::{
    default_path, default_weight, BackendEntry, PathType, RouteConfig, RouteEntry,
};
use lb::lb_core::filter::{HeaderModifier, UrlRewrite};
use lb::lb_core::route_table::PathMatch;

fn backend(address: &str, weight: u32) -> BackendEntry {
    BackendEntry { address: address.to_string(), weight }
}

fn sample() -> RouteConfig {
    RouteConfig {
        routes: vec![
            RouteEntry {
                name: "api-v1".to_string(),
                hostname: Some("api.example.com".to_string()),
                path: "/v1".to_string(),
                path_type: PathType::PathPrefix,
                backends: vec![backend("10.0.0.1:8080", 3), backend("10.0.0.2:8080", 1)],
                request_headers: vec![HeaderModifier::Put {
                    name: "x-gateway".to_string(),
                    value: "lb".to_string(),
                }],
                response_headers: vec![],
                rewrite: Some(UrlRewrite::Prefix {
                    prefix: "/v1".to_string(),
                    replacement: "/internal".to_string(),
                }),
            },
            RouteEntry {
                name: "health".to_string(),
                hostname: None,
                path: "/healthz".to_string(),
                path_type: PathType::Exact,
                backends: vec![backend("127.0.0.1:9090", default_weight())],
                request_headers: vec![],
                response_headers: vec![],
                rewrite: None,
            },
        ],
    }
}

#[test]
fn parses_and_compiles_a_full_config() {
    let cfg = sample();
    assert_eq!(cfg.routes.len(), 2);
    let table = cfg.compile();

    let api = table
        .lookup(Some("api.example.com"), "/v1/users")
        .expect("api route");
    assert_eq!(api.route_name, "api-v1");
    assert_eq!(api.filters.apply_url_rewrite("/v1/users"), "/internal/users");
    assert_eq!(api.target_group.len(), 2);

    assert!(table.lookup(None, "/healthz").is_some());
    assert!(
        table.lookup(None, "/healthz/sub").is_none(),
        "Exact must not match descendants"
    );
}

#[test]
fn defaults_fill_in_optional_fields() {
    assert_eq!(default_path(), "/");
    assert_eq!(PathType::default(), PathType::PathPrefix);
    assert_eq!(default_weight(), 1);
}

#[test]
fn single_upstream_serves_root() {
    let table = RouteConfig::single_upstream("127.0.0.1:9090").compile();
    for path in ["/", "/deep/path"] {
        assert_eq!(
            table
                .lookup(None, path)
                .unwrap()
                .target_group
                .select()
                .address(),
            "127.0.0.1:9090"
        );
    }
}

#[test]
fn path_types_map_to_matches() {
    assert_eq!(PathMatch::from(PathType::PathPrefix), PathMatch::Prefix);
    assert_eq!(PathMatch::from(PathType::Exact), PathMatch::Exact);
}

#[test]
fn an_empty_config_routes_nothing() {
    let table = RouteConfig::default().compile();
    assert!(table.is_empty());
    assert!(table.lookup(None, "/").is_none());
}
