//! Routes and endpoints from a cluster.

use http::{HeaderMap, HeaderValue};
use lb::lb_core::gateway::{
    parse_endpoint_slice, BackendRef, ClusterState, ControllerConfig, EndpointSlice, HeaderFilter,
    HttpPathMatch, HttpRouteFilter, HttpRouteMatch, HttpRouteRule, HttpRouteSpec, NameValue,
    ParentRef, ReadyEndpoint, RouteEvent, ServiceEndpoints, SliceEndpoint, SliceEvent, StoredRoute,
    UrlRewriteFilter, UrlRewritePath,
};

fn text(s: &str) -> Option<String> {
    Some(s.to_string())
}

fn parent(name: &str) -> ParentRef {
    ParentRef { name: name.to_string(), namespace: None }
}

fn backend(name: &str, port: i32) -> BackendRef {
    BackendRef { name: name.to_string(), namespace: None, port: Some(port), weight: None }
}

fn path(kind: &str, value: &str) -> HttpRouteMatch {
    HttpRouteMatch {
        path: Some(HttpPathMatch { match_type: text(kind), value: text(value) }),
    }
}

fn rule(matches: Vec<HttpRouteMatch>, backend_refs: Vec<BackendRef>) -> HttpRouteRule {
    HttpRouteRule { matches, backend_refs, filters: vec![] }
}

fn spec(parents: Vec<ParentRef>, hosts: &[&str], rules: Vec<HttpRouteRule>) -> HttpRouteSpec {
    HttpRouteSpec {
        parent_refs: parents,
        hostnames: hosts.iter().map(|h| h.to_string()).collect(),
        rules,
    }
}

fn route(spec: HttpRouteSpec) -> StoredRoute {
    StoredRoute { namespace: "default".to_string(), name: "test-route".to_string(), spec }
}

fn state_with(route: StoredRoute, endpoints: Vec<(&str, &str, Vec<(&str, i32)>)>) -> ClusterState {
    let mut state = ClusterState::default().put_route(route);
    for (namespace, service, list) in endpoints {
        state = state.put_endpoints(ServiceEndpoints {
            namespace: namespace.to_string(),
            service: service.to_string(),
            endpoints: list
                .into_iter()
                .map(|(a, p)| ReadyEndpoint { address: a.to_string(), port: p })
                .collect(),
        });
    }
    state
}

fn pairs(list: &[(&str, &str)]) -> Vec<NameValue> {
    list.iter()
        .map(|(n, v)| NameValue { name: n.to_string(), value: v.to_string() })
        .collect()
}

fn rewrite(kind: &str, prefix: Option<&str>, full: Option<&str>) -> HttpRouteFilter {
    HttpRouteFilter {
        filter_type: "URLRewrite".to_string(),
        request_header_modifier: None,
        response_header_modifier: None,
        url_rewrite: Some(UrlRewriteFilter {
            path: Some(UrlRewritePath {
                path_type: kind.to_string(),
                replace_prefix_match: prefix.map(str::to_string),
                replace_full_path: full.map(str::to_string),
            }),
        }),
    }
}

#[test]
fn resolves_backend_refs_to_pod_ips() {
    let r = route(spec(
        vec![parent("lb-gateway")],
        &["api.example.com"],
        vec![rule(vec![path("PathPrefix", "/v1")], vec![backend("api-svc", 8080)])],
    ));
    let state = state_with(
        r,
        vec![(
            "default",
            "api-svc",
            vec![("10.244.1.5", 8080), ("10.244.2.7", 8080)],
        )],
    );
    let table = state.compile(&ControllerConfig::default());

    let action = table
        .lookup(Some("api.example.com"), "/v1/users")
        .expect("route");
    let addrs: Vec<&str> = action
        .target_group
        .endpoints()
        .iter()
        .map(|e| e.address())
        .collect();
    assert_eq!(addrs, ["10.244.1.5:8080", "10.244.2.7:8080"]);
}

#[test]
fn falls_back_to_service_dns_without_endpointslices() {
    let r = route(spec(vec![], &[], vec![rule(vec![], vec![backend("api-svc", 80)])]));
    let table = state_with(r, vec![]).compile(&ControllerConfig::default());
    let action = table.lookup(None, "/anything").expect("catch-all rule");
    assert_eq!(
        action.target_group.select().address(),
        "api-svc.default.svc.cluster.local:80"
    );
}

#[test]
fn rule_without_matches_becomes_a_root_prefix() {
    let r = route(spec(vec![], &[], vec![rule(vec![], vec![backend("s", 80)])]));
    let table = state_with(r, vec![]).compile(&ControllerConfig::default());
    for path in ["/", "/deep/path"] {
        assert!(table.lookup(None, path).is_some(), "missed {path}");
    }
}

#[test]
fn parent_ref_filtering_selects_only_our_gateway() {
    let ours = route(spec(
        vec![parent("lb-gateway")],
        &[],
        vec![rule(vec![], vec![backend("s", 80)])],
    ));
    let s = state_with(ours, vec![]).put_route(StoredRoute {
        namespace: "default".to_string(),
        name: "traefik-route".to_string(),
        spec: spec(
            vec![parent("traefik-gateway")],
            &["traefik.example.com"],
            vec![rule(vec![], vec![backend("other", 80)])],
        ),
    });
    let table = s.compile(&ControllerConfig::default());
    assert!(
        table
            .lookup(Some("traefik.example.com"), "/")
            .is_some_and(|a| !a.route_name.contains("traefik-route"))
            || table.lookup(Some("traefik.example.com"), "/").is_some()
    );
    // The traefik-owned route must not contribute its own entry.
    assert!(
        !table
            .lookup(None, "/")
            .is_some_and(|a| a.route_name.contains("traefik-route"))
    );
    assert!(
        !table
            .lookup(Some("traefik.example.com"), "/")
            .is_some_and(|a| a.route_name.contains("traefik-route"))
    );
}

fn slice() -> EndpointSlice {
    EndpointSlice {
        namespace: text("default"),
        service_name: text("api-svc"),
        ports: vec![Some(8080)],
        endpoints: vec![
            SliceEndpoint { addresses: vec!["10.244.1.5".to_string()], ready: Some(true) },
            SliceEndpoint { addresses: vec!["10.244.1.6".to_string()], ready: Some(false) },
            SliceEndpoint { addresses: vec!["10.244.1.7".to_string()], ready: None },
        ],
    }
}

#[test]
fn not_ready_endpoints_are_excluded() {
    let found = parse_endpoint_slice(&slice()).expect("parsed");
    assert_eq!(found.namespace, "default");
    assert_eq!(found.service, "api-svc");
    let addrs: Vec<_> = found.endpoints.iter().map(|e| e.address.as_str()).collect();
    assert_eq!(
        addrs,
        ["10.244.1.5", "10.244.1.7"],
        "unready pod must be dropped"
    );
}

#[test]
fn header_and_rewrite_filters_are_translated() {
    let mut with_filters = rule(vec![path("PathPrefix", "/api")], vec![backend("s", 80)]);
    with_filters.filters = vec![
        HttpRouteFilter {
            filter_type: "RequestHeaderModifier".to_string(),
            request_header_modifier: Some(HeaderFilter {
                set: pairs(&[("x-gateway", "lb")]),
                add: vec![],
                remove: vec!["x-secret".to_string()],
            }),
            response_header_modifier: None,
            url_rewrite: None,
        },
        HttpRouteFilter {
            filter_type: "ResponseHeaderModifier".to_string(),
            request_header_modifier: None,
            response_header_modifier: Some(HeaderFilter {
                set: vec![],
                add: pairs(&[("x-served-by", "lb")]),
                remove: vec![],
            }),
            url_rewrite: None,
        },
        rewrite("ReplaceFullPath", None, Some("/fixed")),
    ];
    let r = route(spec(vec![], &[], vec![with_filters]));
    let table = state_with(r, vec![]).compile(&ControllerConfig::default());
    let action = table.lookup(None, "/api/x").expect("route");

    let mut req = HeaderMap::new();
    req.insert("x-secret", HeaderValue::from_static("leak"));
    action.filters.apply_request_headers(&mut req);
    assert_eq!(req.get("x-gateway").unwrap(), "lb");
    assert!(req.get("x-secret").is_none());

    let mut resp = HeaderMap::new();
    action.filters.apply_response_headers(&mut resp);
    assert_eq!(resp.get("x-served-by").unwrap(), "lb");

    assert_eq!(action.filters.apply_url_rewrite("/api/x"), "/fixed");
}

#[test]
fn replace_prefix_match_strips_the_matched_prefix() {
    let mut with_filters = rule(vec![path("PathPrefix", "/api")], vec![backend("s", 80)]);
    with_filters.filters = vec![rewrite("ReplacePrefixMatch", Some("/internal"), None)];
    let r = route(spec(vec![], &[], vec![with_filters]));
    let table = state_with(r, vec![]).compile(&ControllerConfig::default());
    let action = table.lookup(None, "/api/users").expect("route");
    assert_eq!(
        action.filters.apply_url_rewrite("/api/users"),
        "/internal/users"
    );
}

#[test]
fn parent_ref_namespace_is_respected_when_scoped() {
    let stored = StoredRoute {
        namespace: "team-a".to_string(),
        name: "r".to_string(),
        spec: spec(
            vec![ParentRef { name: "lb-gateway".to_string(), namespace: text("infra") }],
            &[],
            vec![rule(vec![], vec![backend("s", 80)])],
        ),
    };
    let scoped_elsewhere = ControllerConfig {
        gateway_name: text("lb-gateway"),
        namespace: text("team-a"),
    };
    assert!(
        !ClusterState::route_is_ours(&scoped_elsewhere, &stored),
        "a parentRef naming a Gateway in another namespace is not ours"
    );
    let scoped_here = ControllerConfig {
        gateway_name: text("lb-gateway"),
        namespace: text("infra"),
    };
    assert!(ClusterState::route_is_ours(&scoped_here, &stored));
    // A cluster-scoped controller accepts either.
    assert!(ClusterState::route_is_ours(&ControllerConfig::default(), &stored));
}

#[test]
fn exact_path_match_type_is_honoured() {
    let r = route(spec(
        vec![],
        &[],
        vec![rule(vec![path("Exact", "/healthz")], vec![backend("s", 80)])],
    ));
    let table = state_with(r, vec![]).compile(&ControllerConfig::default());
    assert!(table.lookup(None, "/healthz").is_some());
    assert!(table.lookup(None, "/healthz/sub").is_none());
}

#[test]
fn backend_weights_reach_the_target_group() {
    let mut a = backend("a", 80);
    a.weight = Some(3);
    let mut b = backend("b", 80);
    b.weight = Some(1);
    let r = route(spec(vec![], &[], vec![rule(vec![], vec![a, b])]));
    let table = state_with(r, vec![]).compile(&ControllerConfig::default());
    let group = &table.lookup(None, "/").unwrap().target_group;
    let mut a = 0;
    for _ in 0..400 {
        if group.select().address().starts_with("a.") {
            a += 1;
        }
    }
    assert_eq!(a, 300, "3:1 weighting not applied");
}

#[test]
fn multiple_hostnames_each_get_a_route() {
    let r = route(spec(
        vec![],
        &["a.example.com", "b.example.com"],
        vec![rule(vec![], vec![backend("s", 80)])],
    ));
    let table = state_with(r, vec![]).compile(&ControllerConfig::default());
    assert!(table.lookup(Some("a.example.com"), "/").is_some());
    assert!(table.lookup(Some("b.example.com"), "/").is_some());
    assert!(table.lookup(Some("c.example.com"), "/").is_none());
}

#[test]
fn wildcard_hostnames_from_the_api_are_supported() {
    let r = route(spec(
        vec![],
        &["*.example.com"],
        vec![rule(vec![], vec![backend("s", 80)])],
    ));
    let table = state_with(r, vec![]).compile(&ControllerConfig::default());
    assert!(table.lookup(Some("anything.example.com"), "/x").is_some());
}

#[test]
fn a_deleted_route_is_gone() {
    let s = spec(vec![], &["a.example.com"], vec![rule(vec![], vec![backend("s", 80)])]);
    let (state, _) = ClusterState::new().on_route_event(RouteEvent::Apply {
        namespace: text("default"),
        name: text("r"),
        spec: Some(s),
    });
    let before = state.compile(&ControllerConfig::default());
    assert_eq!(
        before.lookup(Some("a.example.com"), "/").unwrap().route_name,
        "default/r#0"
    );
    let (state, _) = state.on_route_event(RouteEvent::Delete {
        namespace: text("default"),
        name: text("r"),
    });
    let after = state.compile(&ControllerConfig::default());
    assert!(after.is_empty());
}

#[test]
fn endpoints_come_and_go_with_their_slice() {
    let r = route(spec(vec![], &[], vec![rule(vec![], vec![backend("api-svc", 8080)])]));
    let (state, _) = state_with(r, vec![]).on_slice_event(SliceEvent::Apply(slice()));
    let found = state.resolve("default", &backend("api-svc", 8080));
    let addrs: Vec<&str> = found.iter().map(|e| e.address()).collect();
    assert_eq!(addrs, ["10.244.1.5:8080", "10.244.1.7:8080"]);

    let (state, _) = state.on_slice_event(SliceEvent::Delete(slice()));
    let found = state.resolve("default", &backend("api-svc", 8080));
    let addrs: Vec<&str> = found.iter().map(|e| e.address()).collect();
    assert_eq!(addrs, ["api-svc.default.svc.cluster.local:8080"]);
}

#[test]
fn a_slice_without_its_service_is_no_slice() {
    let mut nameless = slice();
    nameless.service_name = None;
    assert!(parse_endpoint_slice(&nameless).is_none());
    let mut homeless = slice();
    homeless.namespace = None;
    assert!(parse_endpoint_slice(&homeless).is_none());
}

#[test]
fn an_unattached_route_is_claimed_only_without_a_scope() {
    let stored = StoredRoute {
        namespace: "team-a".to_string(),
        name: "r".to_string(),
        spec: spec(vec![], &[], vec![]),
    };
    let mut cfg = ControllerConfig::default();
    cfg.gateway_name = text("lb-gateway");
    cfg.namespace = text("infra");
    assert!(!ClusterState::route_is_ours(&cfg, &stored));
    cfg.namespace = None;
    assert!(ClusterState::route_is_ours(&cfg, &stored));
    cfg.gateway_name = None;
    cfg.namespace = text("infra");
    assert!(ClusterState::route_is_ours(&cfg, &stored));
}
