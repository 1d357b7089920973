//! Kubernetes Gateway API v1 reconciler shared by every data plane.
//!
//! # Resolution chain
//!
//! ```text
//! HTTPRoute ─ spec.rules[].backendRefs[] ─> Service (name, port)
//!                                             │
//!                    EndpointSlice ───────────┘
//!                    (kubernetes.io/service-name label)
//!                                             │
//!                                             v
//!                                   ready Pod IP:port list
//! ```
//!
//! Resolving to Pod IPs rather than the Service ClusterIP is what makes this a
//! real data plane: it bypasses kube-proxy and conntrack.

use vstd::prelude::*;
use vstd::string::*;

use crate::lb_core::filter::{
    rewrite_of, rules_of, Filters, HeaderModifier, Rewrite, RouteFilters, UrlRewrite,
};
use crate::lb_core::route_table::{
    all_entries, capped, optional_text, table_for, PathMatch, RouteDef, RouteSpec, RouteTable,
    RouteTableBuilder,
};
use crate::lb_core::target::{endpoints_of, BackendEndpoint, Endpoint};
use crate::text::{
    decimal, int_text, joined, nat_text, signed_decimal, trim_end_matches, without_trailing,
};

verus! {

/// Controller configuration.
#[derive(Debug)]
pub struct ControllerConfig {
    /// Only reconcile `HTTPRoute`s whose `parentRefs` name this Gateway.
    /// `None` accepts every route in scope.
    pub gateway_name: Option<String>,
    /// Restrict to one namespace; `None` watches cluster-wide.
    pub namespace: Option<String>,
}

impl Default for ControllerConfig {
    fn default() -> (r: Self)
        ensures
            optional_text(r.gateway_name) == Some("lb-gateway"@),
            r.namespace is None,
    {
        Self { gateway_name: Some("lb-gateway".to_owned()), namespace: None }
    }
}

impl Clone for ControllerConfig {
    fn clone(&self) -> (r: Self)
        ensures
            r == *self,
    {
        Self { gateway_name: self.gateway_name.clone(), namespace: self.namespace.clone() }
    }
}

// ---------------------------------------------------------------------------
// Gateway API v1 types: the fields that affect routing.
// ---------------------------------------------------------------------------

#[derive(Debug)]
pub struct HttpRouteSpec {
    pub parent_refs: Vec<ParentRef>,
    pub hostnames: Vec<String>,
    pub rules: Vec<HttpRouteRule>,
}

#[derive(Debug)]
pub struct ParentRef {
    pub name: String,
    /// Defaults to the route's own namespace when omitted.
    pub namespace: Option<String>,
}

#[derive(Debug)]
pub struct HttpRouteRule {
    pub matches: Vec<HttpRouteMatch>,
    pub backend_refs: Vec<BackendRef>,
    pub filters: Vec<HttpRouteFilter>,
}

#[derive(Debug)]
pub struct HttpRouteMatch {
    pub path: Option<HttpPathMatch>,
}

#[derive(Debug)]
pub struct HttpPathMatch {
    pub match_type: Option<String>,
    pub value: Option<String>,
}

#[derive(Debug)]
pub struct BackendRef {
    pub name: String,
    pub namespace: Option<String>,
    pub port: Option<i32>,
    pub weight: Option<i32>,
}

#[derive(Debug)]
pub struct HttpRouteFilter {
    pub filter_type: String,
    pub request_header_modifier: Option<HeaderFilter>,
    pub response_header_modifier: Option<HeaderFilter>,
    pub url_rewrite: Option<UrlRewriteFilter>,
}

#[derive(Debug)]
pub struct HeaderFilter {
    pub set: Vec<NameValue>,
    pub add: Vec<NameValue>,
    pub remove: Vec<String>,
}

#[derive(Debug)]
pub struct NameValue {
    pub name: String,
    pub value: String,
}

#[derive(Debug)]
pub struct UrlRewriteFilter {
    pub path: Option<UrlRewritePath>,
}

#[derive(Debug)]
pub struct UrlRewritePath {
    pub path_type: String,
    pub replace_prefix_match: Option<String>,
    pub replace_full_path: Option<String>,
}

/// The modifiers of a header filter: what it sets, then what it adds, then what
/// it removes.
pub open spec fn modifiers_of(h: HeaderFilter) -> Seq<HeaderModifier> {
    Seq::new(
        h.set@.len(),
        |i: int| HeaderModifier::Put { name: h.set@[i].name, value: h.set@[i].value },
    ) + Seq::new(
        h.add@.len(),
        |i: int| HeaderModifier::Add { name: h.add@[i].name, value: h.add@[i].value },
    ) + Seq::new(h.remove@.len(), |i: int| HeaderModifier::Remove { name: h.remove@[i] })
}

impl HeaderFilter {
    /// The modifiers of the filter: what it sets, then what it adds, then what it
    /// removes.
    #[must_use]
    pub fn to_modifiers(&self) -> (r: Vec<HeaderModifier>)
        ensures
            r@ == modifiers_of(*self),
    {
        let mut out: Vec<HeaderModifier> = Vec::new();
        let ghost all = modifiers_of(*self);
        let mut i: usize = 0;
        while i < self.set.len()
            invariant
                i <= self.set@.len(),
                all == modifiers_of(*self),
                out@ == all.take(i as int),
            decreases self.set@.len() - i,
        {
            let nv = &self.set[i];
            out.push(HeaderModifier::Put { name: nv.name.clone(), value: nv.value.clone() });
            i = i + 1;
            assert(out@ =~= all.take(i as int));
        }
        let ghost first = self.set@.len() as int;
        i = 0;
        while i < self.add.len()
            invariant
                i <= self.add@.len(),
                all == modifiers_of(*self),
                first == self.set@.len(),
                out@ == all.take(first + i),
            decreases self.add@.len() - i,
        {
            let nv = &self.add[i];
            out.push(HeaderModifier::Add { name: nv.name.clone(), value: nv.value.clone() });
            i = i + 1;
            assert(out@ =~= all.take(first + i));
        }
        let ghost second = first + self.add@.len();
        i = 0;
        while i < self.remove.len()
            invariant
                i <= self.remove@.len(),
                all == modifiers_of(*self),
                second == self.set@.len() + self.add@.len(),
                out@ == all.take(second + i),
            decreases self.remove@.len() - i,
        {
            out.push(HeaderModifier::Remove { name: self.remove[i].clone() });
            i = i + 1;
            assert(out@ =~= all.take(second + i));
        }
        assert(out@ =~= all);
        out
    }
}

/// The modifiers that a filter contributes to requests.
pub open spec fn request_modifiers(f: HttpRouteFilter) -> Seq<HeaderModifier> {
    if f.filter_type@ == "RequestHeaderModifier"@ && f.request_header_modifier is Some {
        modifiers_of(f.request_header_modifier->0)
    } else {
        Seq::empty()
    }
}

/// The modifiers that a filter contributes to responses.
pub open spec fn response_modifiers(f: HttpRouteFilter) -> Seq<HeaderModifier> {
    if f.filter_type@ == "ResponseHeaderModifier"@ && f.response_header_modifier is Some {
        modifiers_of(f.response_header_modifier->0)
    } else {
        Seq::empty()
    }
}

/// The rewrite that a `URLRewrite` path asks for. `ReplacePrefixMatch` strips the
/// prefix that the route matched; an unknown type asks for none.
pub open spec fn path_rewrite(path: UrlRewritePath, matched_prefix: Seq<char>) -> Option<Rewrite> {
    if path.path_type@ == "ReplacePrefixMatch"@ {
        match path.replace_prefix_match {
            Some(r) => Some(Rewrite::Prefix(without_trailing(matched_prefix, '/'), r@)),
            None => None,
        }
    } else if path.path_type@ == "ReplaceFullPath"@ {
        match path.replace_full_path {
            Some(r) => Some(Rewrite::Exact(r@)),
            None => None,
        }
    } else {
        None
    }
}

/// What a list of Gateway API filters does: header modifiers add up, and the last
/// `URLRewrite` that names a path decides. Filters of other types are ignored.
pub open spec fn filters_of(
    filters: Seq<HttpRouteFilter>,
    matched_prefix: Seq<char>,
) -> (Seq<HeaderModifier>, Seq<HeaderModifier>, Option<Rewrite>)
    decreases filters.len(),
{
    if filters.len() == 0 {
        (Seq::empty(), Seq::empty(), None)
    } else {
        let before = filters_of(filters.drop_last(), matched_prefix);
        let f = filters.last();
        let rewrite = if f.filter_type@ == "URLRewrite"@ && f.url_rewrite is Some
            && f.url_rewrite->0.path is Some {
            path_rewrite(f.url_rewrite->0.path->0, matched_prefix)
        } else {
            before.2
        };
        (before.0 + request_modifiers(f), before.1 + response_modifiers(f), rewrite)
    }
}

/// The filter pipeline of a rule, for the prefix that a match has.
pub open spec fn rule_filters(filters: Seq<HttpRouteFilter>, matched_prefix: Seq<char>) -> Filters {
    let f = filters_of(filters, matched_prefix);
    Filters { request: rules_of(f.0), response: rules_of(f.1), rewrite: f.2 }
}

// ---------------------------------------------------------------------------
// Cluster state snapshot
// ---------------------------------------------------------------------------

/// An `HTTPRoute` of the cluster.
#[derive(Debug)]
pub struct StoredRoute {
    pub namespace: String,
    pub name: String,
    pub spec: HttpRouteSpec,
}

/// A ready endpoint of a Service.
#[derive(Debug)]
pub struct ReadyEndpoint {
    pub address: String,
    pub port: i32,
}

/// The ready endpoints of a Service.
#[derive(Debug)]
pub struct ServiceEndpoints {
    pub namespace: String,
    pub service: String,
    pub endpoints: Vec<ReadyEndpoint>,
}

/// The position of a route in a list, or the length of the list if it holds none
/// of that name.
pub open spec fn route_position(
    routes: Seq<StoredRoute>,
    namespace: Seq<char>,
    name: Seq<char>,
) -> int
    decreases routes.len(),
{
    if routes.len() == 0 || (routes[0].namespace@ == namespace && routes[0].name@ == name) {
        0
    } else {
        1 + route_position(routes.skip(1), namespace, name)
    }
}

/// The position of a Service in a list, or the length of the list if it holds
/// none of that name.
pub open spec fn service_position(
    services: Seq<ServiceEndpoints>,
    namespace: Seq<char>,
    service: Seq<char>,
) -> int
    decreases services.len(),
{
    if services.len() == 0 || (services[0].namespace@ == namespace && services[0].service@
        == service) {
        0
    } else {
        1 + service_position(services.skip(1), namespace, service)
    }
}

/// The weight of a backend reference. Gateway API weights are 0 to 1 000 000; 0
/// means "no traffic".
pub open spec fn ref_weight(backend: BackendRef) -> u32 {
    match backend.weight {
        None => 1,
        Some(w) => if w < 0 {
            0
        } else if w > 1_000_000 {
            1_000_000
        } else {
            w as u32
        },
    }
}

/// The port of a backend reference.
pub open spec fn ref_port(backend: BackendRef) -> i32 {
    match backend.port {
        None => 80,
        Some(p) => p,
    }
}

/// The namespace of a backend reference: by default that of its route.
pub open spec fn ref_namespace(route_ns: Seq<char>, backend: BackendRef) -> Seq<char> {
    match backend.namespace {
        Some(ns) => ns@,
        None => route_ns,
    }
}

/// The endpoints among `eps` that listen on `port`.
pub open spec fn on_port(eps: Seq<ReadyEndpoint>, port: i32, weight: u32) -> Seq<Endpoint>
    decreases eps.len(),
{
    if eps.len() == 0 {
        Seq::empty()
    } else {
        let before = on_port(eps.drop_last(), port, weight);
        if eps.last().port == port {
            before.push(
                Endpoint {
                    address: eps.last().address@ + seq![':'] + int_text(port as int),
                    weight,
                },
            )
        } else {
            before
        }
    }
}

/// The ready endpoints that are known of a Service.
pub open spec fn known_endpoints(
    services: Seq<ServiceEndpoints>,
    namespace: Seq<char>,
    service: Seq<char>,
) -> Seq<ReadyEndpoint> {
    let k = service_position(services, namespace, service);
    if 0 <= k < services.len() {
        services[k].endpoints@
    } else {
        Seq::empty()
    }
}

/// The DNS name of a Service.
pub open spec fn service_dns(service: Seq<char>, namespace: Seq<char>, port: i32) -> Seq<char> {
    service + seq!['.'] + namespace + ".svc.cluster.local:"@ + int_text(port as int)
}

/// The endpoints of a backend reference: those of its Service that are ready on
/// its port, or the Service's DNS name while none is.
pub open spec fn resolved(
    services: Seq<ServiceEndpoints>,
    route_ns: Seq<char>,
    backend: BackendRef,
) -> Seq<Endpoint> {
    let ns = ref_namespace(route_ns, backend);
    let port = ref_port(backend);
    let weight = ref_weight(backend);
    let ready = on_port(known_endpoints(services, ns, backend.name@), port, weight);
    if ready.len() > 0 {
        ready
    } else {
        seq![Endpoint { address: service_dns(backend.name@, ns, port), weight }]
    }
}

/// The endpoints of a list of backend references.
pub open spec fn all_resolved(
    services: Seq<ServiceEndpoints>,
    route_ns: Seq<char>,
    refs: Seq<BackendRef>,
) -> Seq<Endpoint>
    decreases refs.len(),
{
    if refs.len() == 0 {
        Seq::empty()
    } else {
        all_resolved(services, route_ns, refs.drop_last()) + resolved(
            services,
            route_ns,
            refs.last(),
        )
    }
}

/// The path and kind of a match. The root is the default path and a prefix the
/// default kind; a kind that is not supported degrades to a prefix.
pub open spec fn match_of(m: HttpRouteMatch) -> (Seq<char>, PathMatch) {
    match m.path {
        None => ("/"@, PathMatch::Prefix),
        Some(p) => (
            match p.value {
                Some(v) => v@,
                None => "/"@,
            },
            match p.match_type {
                Some(t) => if t@ == "Exact"@ {
                    PathMatch::Exact
                } else {
                    PathMatch::Prefix
                },
                None => PathMatch::Prefix,
            },
        ),
    }
}

/// The matches of a rule. None at all means "match everything".
pub open spec fn matches_of(matches: Seq<HttpRouteMatch>) -> Seq<(Seq<char>, PathMatch)> {
    if matches.len() == 0 {
        seq![("/"@, PathMatch::Prefix)]
    } else {
        Seq::new(matches.len(), |i: int| match_of(matches[i]))
    }
}

/// The hosts of a route. None at all means "any host".
pub open spec fn hosts_of(hostnames: Seq<String>) -> Seq<Option<Seq<char>>> {
    if hostnames.len() == 0 {
        seq![None]
    } else {
        Seq::new(hostnames.len(), |i: int| Some(hostnames[i]@))
    }
}

/// The name of a rule's routes.
pub open spec fn rule_name(stored: StoredRoute, rule: nat) -> Seq<char> {
    stored.namespace@ + seq!['/'] + stored.name@ + seq!['#'] + nat_text(rule)
}

/// The routes of one rule for one host: one for each match, each with the filters
/// compiled for its own prefix.
pub open spec fn host_defs(
    stored: StoredRoute,
    rule: int,
    endpoints: Seq<Endpoint>,
    host: Option<Seq<char>>,
) -> Seq<RouteDef> {
    let r = stored.spec.rules@[rule];
    let matches = matches_of(r.matches@);
    Seq::new(
        matches.len(),
        |j: int|
            RouteDef {
                hostname: host,
                path: matches[j].0,
                kind: matches[j].1,
                endpoints,
                filters: rule_filters(r.filters@, matches[j].0),
                name: rule_name(stored, rule as nat),
            },
    )
}

/// The routes of one rule for the first `n` of its hosts.
pub open spec fn hosts_defs(
    stored: StoredRoute,
    rule: int,
    endpoints: Seq<Endpoint>,
    n: nat,
) -> Seq<RouteDef>
    decreases n,
{
    if n == 0 {
        Seq::empty()
    } else {
        hosts_defs(stored, rule, endpoints, (n - 1) as nat) + host_defs(
            stored,
            rule,
            endpoints,
            hosts_of(stored.spec.hostnames@)[n - 1],
        )
    }
}

/// The routes of one rule; none if it has no backend.
pub open spec fn rule_defs(
    services: Seq<ServiceEndpoints>,
    stored: StoredRoute,
    rule: int,
) -> Seq<RouteDef> {
    let endpoints = all_resolved(
        services,
        stored.namespace@,
        stored.spec.rules@[rule].backend_refs@,
    );
    if endpoints.len() == 0 {
        Seq::empty()
    } else {
        hosts_defs(stored, rule, endpoints, hosts_of(stored.spec.hostnames@).len())
    }
}

/// The routes of the first `n` rules of an `HTTPRoute`.
pub open spec fn route_defs(
    services: Seq<ServiceEndpoints>,
    stored: StoredRoute,
    n: nat,
) -> Seq<RouteDef>
    decreases n,
{
    if n == 0 {
        Seq::empty()
    } else {
        route_defs(services, stored, (n - 1) as nat) + rule_defs(services, stored, n - 1)
    }
}

/// Whether a parent reference names the Gateway that is served. Its namespace
/// defaults to that of the route, and matters where the controller is scoped to
/// one namespace.
pub open spec fn parent_is_ours(
    gateway: Seq<char>,
    scope: Option<Seq<char>>,
    parent: ParentRef,
    route_ns: Seq<char>,
) -> bool {
    parent.name@ == gateway && match scope {
        None => true,
        Some(ours) => match parent.namespace {
            None => ours == route_ns,
            Some(theirs) => ours == theirs@,
        },
    }
}

/// Whether a route attaches to the Gateway that is served. One without any parent
/// is unattached: it is claimed only when the controller is not scoped to a specific
/// namespace.
pub open spec fn is_ours(cfg: ControllerConfig, stored: StoredRoute) -> bool {
    match cfg.gateway_name {
        None => true,
        Some(gateway) => if stored.spec.parent_refs@.len() == 0 {
            cfg.namespace is None
        } else {
            exists|i: int|
                0 <= i < stored.spec.parent_refs@.len() && parent_is_ours(
                    gateway@,
                    optional_text(cfg.namespace),
                    #[trigger] stored.spec.parent_refs@[i],
                    stored.namespace@,
                )
        },
    }
}

/// The routes that the cluster defines for the Gateway that is served.
pub open spec fn cluster_defs(
    cfg: ControllerConfig,
    services: Seq<ServiceEndpoints>,
    routes: Seq<StoredRoute>,
) -> Seq<RouteDef>
    decreases routes.len(),
{
    if routes.len() == 0 {
        Seq::empty()
    } else {
        let before = cluster_defs(cfg, services, routes.drop_last());
        if is_ours(cfg, routes.last()) {
            before + route_defs(services, routes.last(), routes.last().spec.rules@.len())
        } else {
            before
        }
    }
}

/// The observed cluster state that a route table is compiled from.
///
/// Routes are kept by namespace and name, ready endpoints by namespace and
/// Service; no key occurs twice.
#[derive(Debug)]
pub struct ClusterState {
    routes: Vec<StoredRoute>,
    endpoints: Vec<ServiceEndpoints>,
}

/// Whether no two routes of a list have the same key.
pub open spec fn routes_distinct(routes: Seq<StoredRoute>) -> bool {
    forall|i: int, j: int|
        0 <= i < j < routes.len() ==> !(routes[i].namespace@ == routes[j].namespace@
            && routes[i].name@ == routes[j].name@)
}

/// Whether no two Services of a list have the same key.
pub open spec fn services_distinct(services: Seq<ServiceEndpoints>) -> bool {
    forall|i: int, j: int|
        0 <= i < j < services.len() ==> !(services[i].namespace@ == services[j].namespace@
            && services[i].service@ == services[j].service@)
}

pub proof fn lemma_route_position(routes: Seq<StoredRoute>, namespace: Seq<char>, name: Seq<char>)
    ensures
        ({
            let k = route_position(routes, namespace, name);
            &&& 0 <= k <= routes.len()
            &&& k < routes.len() ==> routes[k].namespace@ == namespace && routes[k].name@ == name
            &&& forall|i: int|
                0 <= i < k ==> !((#[trigger] routes[i]).namespace@ == namespace && routes[i].name@
                    == name)
        }),
    decreases routes.len(),
{
    if routes.len() > 0 {
        lemma_route_position(routes.skip(1), namespace, name);
        assert forall|i: int| 0 <= i < route_position(routes, namespace, name) implies !((
        #[trigger] routes[i]).namespace@ == namespace && routes[i].name@ == name) by {
            if i > 0 {
                assert(routes[i] == routes.skip(1)[i - 1]);
            }
        }
    }
}

pub proof fn lemma_service_position(
    services: Seq<ServiceEndpoints>,
    namespace: Seq<char>,
    service: Seq<char>,
)
    ensures
        ({
            let k = service_position(services, namespace, service);
            &&& 0 <= k <= services.len()
            &&& k < services.len() ==> services[k].namespace@ == namespace && services[k].service@
                == service
            &&& forall|i: int|
                0 <= i < k ==> !((#[trigger] services[i]).namespace@ == namespace
                    && services[i].service@ == service)
        }),
    decreases services.len(),
{
    if services.len() > 0 {
        lemma_service_position(services.skip(1), namespace, service);
        assert forall|i: int| 0 <= i < service_position(services, namespace, service) implies !((
        #[trigger] services[i]).namespace@ == namespace && services[i].service@ == service) by {
            if i > 0 {
                assert(services[i] == services.skip(1)[i - 1]);
            }
        }
    }
}

/// A list of routes with `route` in the place of the one of its key, or behind
/// the others if there is none.
pub open spec fn route_put(routes: Seq<StoredRoute>, route: StoredRoute) -> Seq<StoredRoute> {
    let k = route_position(routes, route.namespace@, route.name@);
    if k < routes.len() {
        routes.update(k, route)
    } else {
        routes.push(route)
    }
}

/// A list of routes without the one of the given key.
pub open spec fn route_dropped(
    routes: Seq<StoredRoute>,
    namespace: Seq<char>,
    name: Seq<char>,
) -> Seq<StoredRoute> {
    let k = route_position(routes, namespace, name);
    if k < routes.len() {
        routes.remove(k)
    } else {
        routes
    }
}

/// A list of Services with `service` in the place of the one of its key, or
/// behind the others if there is none.
pub open spec fn service_put(
    services: Seq<ServiceEndpoints>,
    service: ServiceEndpoints,
) -> Seq<ServiceEndpoints> {
    let k = service_position(services, service.namespace@, service.service@);
    if k < services.len() {
        services.update(k, service)
    } else {
        services.push(service)
    }
}

/// A list of Services without the one of the given key.
pub open spec fn service_dropped(
    services: Seq<ServiceEndpoints>,
    namespace: Seq<char>,
    service: Seq<char>,
) -> Seq<ServiceEndpoints> {
    let k = service_position(services, namespace, service);
    if k < services.len() {
        services.remove(k)
    } else {
        services
    }
}

impl Default for ClusterState {
    fn default() -> (r: Self)
        ensures
            r.routes() == Seq::<StoredRoute>::empty(),
            r.services() == Seq::<ServiceEndpoints>::empty(),
    {
        Self::new()
    }
}

impl ClusterState {
    /// The routes of the cluster.
    pub closed spec fn routes(&self) -> Seq<StoredRoute> {
        self.routes@
    }

    /// The Services of the cluster that have endpoints.
    pub closed spec fn services(&self) -> Seq<ServiceEndpoints> {
        self.endpoints@
    }

    #[verifier::type_invariant]
    spec fn well_formed(&self) -> bool {
        routes_distinct(self.routes@) && services_distinct(self.endpoints@)
    }

    /// A state in which nothing has been observed.
    #[must_use]
    pub fn new() -> (r: Self)
        ensures
            r.routes() == Seq::<StoredRoute>::empty(),
            r.services() == Seq::<ServiceEndpoints>::empty(),
    {
        Self { routes: Vec::new(), endpoints: Vec::new() }
    }

    fn find_route(routes: &Vec<StoredRoute>, namespace: &str, name: &str) -> (r: usize)
        ensures
            r == route_position(routes@, namespace@, name@),
    {
        let mut i: usize = 0;
        assert(routes@.skip(0) =~= routes@);
        while i < routes.len()
            invariant
                i <= routes@.len(),
                i + route_position(routes@.skip(i as int), namespace@, name@) == route_position(
                    routes@,
                    namespace@,
                    name@,
                ),
            decreases routes@.len() - i,
        {
            if routes[i].namespace.as_str().eq(namespace) && routes[i].name.as_str().eq(name) {
                return i;
            }
            assert(routes@.skip(i as int).skip(1) =~= routes@.skip(i + 1));
            i = i + 1;
        }
        i
    }

    fn find_service(services: &Vec<ServiceEndpoints>, namespace: &str, service: &str) -> (r: usize)
        ensures
            r == service_position(services@, namespace@, service@),
    {
        let mut i: usize = 0;
        assert(services@.skip(0) =~= services@);
        while i < services.len()
            invariant
                i <= services@.len(),
                i + service_position(services@.skip(i as int), namespace@, service@)
                    == service_position(services@, namespace@, service@),
            decreases services@.len() - i,
        {
            if services[i].namespace.as_str().eq(namespace) && services[i].service.as_str().eq(
                service,
            ) {
                return i;
            }
            assert(services@.skip(i as int).skip(1) =~= services@.skip(i + 1));
            i = i + 1;
        }
        i
    }

    /// Record a route, in the place of the one of the same namespace and name.
    pub fn put_route(self, route: StoredRoute) -> (r: Self)
        ensures
            r.routes() == route_put(self.routes(), route),
            r.services() == self.services(),
    {
        proof {
            use_type_invariant(&self);
        }
        let mut routes = self.routes;
        let k: usize = Self::find_route(&routes, route.namespace.as_str(), route.name.as_str());
        proof {
            lemma_route_position(routes@, route.namespace@, route.name@);
        }
        if k < routes.len() {
            routes.set(k, route);
        } else {
            routes.push(route);
        }
        Self { routes, endpoints: self.endpoints }
    }

    /// Forget a route.
    pub fn drop_route(self, namespace: &str, name: &str) -> (r: Self)
        ensures
            r.routes() == route_dropped(self.routes(), namespace@, name@),
            r.services() == self.services(),
    {
        proof {
            use_type_invariant(&self);
        }
        let mut routes = self.routes;
        let k: usize = Self::find_route(&routes, namespace, name);
        if k < routes.len() {
            routes.remove(k);
        }
        Self { routes, endpoints: self.endpoints }
    }

    /// Forget every route.
    pub fn clear_routes(self) -> (r: Self)
        ensures
            r.routes() == Seq::<StoredRoute>::empty(),
            r.services() == self.services(),
    {
        proof {
            use_type_invariant(&self);
        }
        Self { routes: Vec::new(), endpoints: self.endpoints }
    }

    /// Record the ready endpoints of a Service, in the place of what was known.
    pub fn put_endpoints(self, service: ServiceEndpoints) -> (r: Self)
        ensures
            r.routes() == self.routes(),
            r.services() == service_put(self.services(), service),
    {
        proof {
            use_type_invariant(&self);
        }
        let mut endpoints = self.endpoints;
        let k: usize = Self::find_service(
            &endpoints,
            service.namespace.as_str(),
            service.service.as_str(),
        );
        proof {
            lemma_service_position(endpoints@, service.namespace@, service.service@);
        }
        if k < endpoints.len() {
            endpoints.set(k, service);
        } else {
            endpoints.push(service);
        }
        Self { routes: self.routes, endpoints }
    }

    /// Forget the endpoints of a Service.
    pub fn drop_endpoints(self, namespace: &str, service: &str) -> (r: Self)
        ensures
            r.routes() == self.routes(),
            r.services() == service_dropped(self.services(), namespace@, service@),
    {
        proof {
            use_type_invariant(&self);
        }
        let mut endpoints = self.endpoints;
        let k: usize = Self::find_service(&endpoints, namespace, service);
        if k < endpoints.len() {
            endpoints.remove(k);
        }
        Self { routes: self.routes, endpoints }
    }

    /// Forget every Service's endpoints.
    pub fn clear_endpoints(self) -> (r: Self)
        ensures
            r.routes() == self.routes(),
            r.services() == Seq::<ServiceEndpoints>::empty(),
    {
        proof {
            use_type_invariant(&self);
        }
        Self { routes: self.routes, endpoints: Vec::new() }
    }

    /// Resolve a `backendRef` to concrete `ip:port` endpoints.
    ///
    /// Falls back to the Service DNS name when no EndpointSlice is known yet, so a
    /// route is never silently black-holed during a cold start.
    #[must_use]
    pub fn resolve(&self, route_ns: &str, backend: &BackendRef) -> (r: Vec<BackendEndpoint>)
        ensures
            endpoints_of(r@) == resolved(self.services(), route_ns@, *backend),
    {
        let ns: &str = match &backend.namespace {
            Some(ns) => ns.as_str(),
            None => route_ns,
        };
        let port: i32 = match backend.port {
            Some(p) => p,
            None => 80,
        };
        // Gateway API weights are 0-1_000_000; 0 means "no traffic".
        let weight: u32 = match backend.weight {
            None => 1,
            Some(w) => if w < 0 {
                0
            } else if w > 1_000_000 {
                1_000_000
            } else {
                w as u32
            },
        };
        let port_text = signed_decimal(port as i64);
        let mut out: Vec<BackendEndpoint> = Vec::new();
        assert(endpoints_of(out@) =~= Seq::empty());
        proof {
            lemma_service_position(self.endpoints@, ns@, backend.name@);
            reveal_strlit(":");
            reveal_strlit(".");
            assert(":"@ =~= seq![':']);
            assert("."@ =~= seq!['.']);
        }
        let k: usize = Self::find_service(&self.endpoints, ns, backend.name.as_str());
        let ghost known = known_endpoints(self.services(), ns@, backend.name@);
        if k < self.endpoints.len() {
            let eps = &self.endpoints[k].endpoints;
            let mut i: usize = 0;
            assert(eps@.take(0) =~= Seq::empty());
            while i < eps.len()
                invariant
                    i <= eps@.len(),
                    eps@ == known,
                    port_text@ == int_text(port as int),
                    ":"@ == seq![':'],
                    endpoints_of(out@) == on_port(eps@.take(i as int), port, weight),
                decreases eps@.len() - i,
            {
                assert(eps@.take(i + 1).drop_last() =~= eps@.take(i as int));
                if eps[i].port == port {
                    let ghost before = out@;
                    let mut address = joined(eps[i].address.as_str(), ":");
                    address.append(port_text.as_str());
                    out.push(BackendEndpoint::new(address, weight));
                    assert(endpoints_of(out@) =~= endpoints_of(before).push(
                        Endpoint { address: address@, weight },
                    ));
                }
                i = i + 1;
            }
            assert(eps@.take(i as int) =~= eps@);
        } else {
            assert(on_port(known, port, weight) =~= Seq::empty());
        }
        assert(endpoints_of(out@) == on_port(known, port, weight));
        assert(endpoints_of(out@).len() == out@.len());
        if out.len() == 0 {
            let mut address = joined(backend.name.as_str(), ".");
            address.append(ns);
            address.append(".svc.cluster.local:");
            address.append(port_text.as_str());
            out.push(BackendEndpoint::new(address, weight));
            assert(endpoints_of(out@) =~= seq![
                Endpoint { address: service_dns(backend.name@, ns@, port), weight },
            ]);
        }
        out
    }

    /// The endpoints of a rule's backend references.
    fn resolve_all(&self, route_ns: &str, refs: &Vec<BackendRef>) -> (r: Vec<BackendEndpoint>)
        ensures
            endpoints_of(r@) == all_resolved(self.services(), route_ns@, refs@),
    {
        let mut out: Vec<BackendEndpoint> = Vec::new();
        let mut i: usize = 0;
        assert(refs@.take(0) =~= Seq::empty());
        assert(endpoints_of(out@) =~= Seq::empty());
        while i < refs.len()
            invariant
                i <= refs@.len(),
                endpoints_of(out@) == all_resolved(
                    self.services(),
                    route_ns@,
                    refs@.take(i as int),
                ),
            decreases refs@.len() - i,
        {
            assert(refs@.take(i + 1).drop_last() =~= refs@.take(i as int));
            let ghost before = out@;
            let mut more = self.resolve(route_ns, &refs[i]);
            let ghost added = more@;
            out.append(&mut more);
            assert(endpoints_of(out@) =~= endpoints_of(before) + endpoints_of(added));
            i = i + 1;
        }
        assert(refs@.take(i as int) =~= refs@);
        out
    }

    /// Compile the whole observed state into a fresh route table.
    #[must_use]
    pub fn compile(&self, cfg: &ControllerConfig) -> (r: RouteTable)
        ensures
            r@ == table_for(cluster_defs(*cfg, self.services(), self.routes())),
    {
        let mut builder = RouteTableBuilder::new();
        let mut i: usize = 0;
        assert(self.routes@.take(0) =~= Seq::empty());
        while i < self.routes.len()
            invariant
                i <= self.routes@.len(),
                holds(
                    builder,
                    cluster_defs(*cfg, self.services(), self.routes@.take(i as int)),
                ),
            decreases self.routes@.len() - i,
        {
            let stored = &self.routes[i];
            assert(self.routes@.take(i + 1).drop_last() =~= self.routes@.take(i as int));
            if Self::route_is_ours(cfg, stored) {
                self.add_rules(&mut builder, stored);
            }
            i = i + 1;
        }
        assert(self.routes@.take(i as int) =~= self.routes@);
        match builder.build() {
            Ok(table) => table,
            Err(_) => RouteTable::empty(),
        }
    }

    /// Add the routes of every rule of an `HTTPRoute`.
    fn add_rules(&self, builder: &mut RouteTableBuilder, stored: &StoredRoute)
        ensures
            forall|defs: Seq<RouteDef>| #[trigger]
                holds(*old(builder), defs) ==> holds(
                    *final(builder),
                    defs + route_defs(self.services(), *stored, stored.spec.rules@.len()),
                ),
    {
        let rules = &stored.spec.rules;
        let mut i: usize = 0;
        assert forall|defs: Seq<RouteDef>| #[trigger] holds(*builder, defs) implies holds(
            *builder,
            defs + route_defs(self.services(), *stored, 0),
        ) by {
            assert(defs + route_defs(self.services(), *stored, 0) =~= defs);
        }
        while i < rules.len()
            invariant
                i <= rules@.len(),
                rules == stored.spec.rules,
                forall|defs: Seq<RouteDef>| #[trigger]
                    holds(*old(builder), defs) ==> holds(
                        *builder,
                        defs + route_defs(self.services(), *stored, i as nat),
                    ),
            decreases rules@.len() - i,
        {
            let endpoints = self.resolve_all(stored.namespace.as_str(), &rules[i].backend_refs);
            assert(endpoints_of(endpoints@).len() == endpoints@.len());
            let ghost before = *builder;
            let ghost so_far = route_defs(self.services(), *stored, i as nat);
            let ghost more = rule_defs(self.services(), *stored, i as int);
            if endpoints.len() > 0 {
                add_rule(builder, stored, i, &endpoints);
            } else {
                assert forall|defs: Seq<RouteDef>| #[trigger] holds(before, defs) implies holds(
                    *builder,
                    defs + more,
                ) by {
                    assert(defs + more =~= defs);
                }
            }
            assert forall|defs: Seq<RouteDef>| #[trigger] holds(*old(builder), defs) implies holds(
                *builder,
                defs + route_defs(self.services(), *stored, (i + 1) as nat),
            ) by {
                assert(holds(before, defs + so_far));
                assert(defs + so_far + more =~= defs + (so_far + more));
            }
            i = i + 1;
        }
    }

    /// Whether this route attaches to the Gateway we are serving.
    ///
    /// A `parentRefs` entry may name a Gateway in another namespace; when the
    /// controller is scoped to one namespace, such a reference is not ours.
    #[must_use]
    pub fn route_is_ours(cfg: &ControllerConfig, stored: &StoredRoute) -> (r: bool)
        ensures
            r == is_ours(*cfg, *stored),
    {
        let want: &str = match &cfg.gateway_name {
            Some(want) => want.as_str(),
            None => return true,
        };
        let parents = &stored.spec.parent_refs;
        if parents.len() == 0 {
            // No parentRefs: the route is unattached, so claim it only when the
            // controller is not scoped to a specific namespace.
            return cfg.namespace.is_none();
        }
        let ghost scope = optional_text(cfg.namespace);
        let mut i: usize = 0;
        while i < parents.len()
            invariant
                i <= parents@.len(),
                parents == stored.spec.parent_refs,
                cfg.gateway_name is Some,
                want@ == cfg.gateway_name->0@,
                scope == optional_text(cfg.namespace),
                forall|k: int|
                    0 <= k < i ==> !parent_is_ours(
                        want@,
                        scope,
                        #[trigger] parents@[k],
                        stored.namespace@,
                    ),
            decreases parents@.len() - i,
        {
            let p = &parents[i];
            if p.name.as_str().eq(want) {
                let ours: bool = match (&cfg.namespace, &p.namespace) {
                    // Cluster-scoped controller accepts any Gateway namespace.
                    (None, _) => true,
                    // parentRef namespace defaults to the route's own namespace.
                    (Some(ours), None) => ours.as_str().eq(stored.namespace.as_str()),
                    (Some(ours), Some(theirs)) => ours.as_str().eq(theirs.as_str()),
                };
                if ours {
                    assert(parent_is_ours(want@, scope, parents@[i as int], stored.namespace@));
                    return true;
                }
            }
            i = i + 1;
        }
        false
    }

    /// Translate Gateway API filters, using `matched_prefix` as the prefix a
    /// `ReplacePrefixMatch` rewrite strips.
    #[must_use]
    pub fn compile_filters(filters: &[HttpRouteFilter], matched_prefix: &str) -> (r: RouteFilters)
        ensures
            r@ == rule_filters(filters@, matched_prefix@),
    {
        let mut request: Vec<HeaderModifier> = Vec::new();
        let mut response: Vec<HeaderModifier> = Vec::new();
        let mut rewrite: Option<UrlRewrite> = None;
        let mut i: usize = 0;
        assert(filters@.take(0) =~= Seq::empty());
        while i < filters.len()
            invariant
                i <= filters@.len(),
                request@ == filters_of(filters@.take(i as int), matched_prefix@).0,
                response@ == filters_of(filters@.take(i as int), matched_prefix@).1,
                rewrite_of(rewrite) == filters_of(filters@.take(i as int), matched_prefix@).2,
            decreases filters@.len() - i,
        {
            let f = &filters[i];
            let ghost before = filters_of(filters@.take(i as int), matched_prefix@);
            proof {
                assert(filters@.take(i + 1).drop_last() =~= filters@.take(i as int));
                reveal_strlit("RequestHeaderModifier");
                reveal_strlit("ResponseHeaderModifier");
                reveal_strlit("URLRewrite");
                assert("RequestHeaderModifier"@.len() == 21);
                assert("ResponseHeaderModifier"@.len() == 22);
                assert("URLRewrite"@.len() == 10);
                assert(before.0 + Seq::<HeaderModifier>::empty() =~= before.0);
                assert(before.1 + Seq::<HeaderModifier>::empty() =~= before.1);
            }
            let kind = f.filter_type.as_str();
            if kind.eq("RequestHeaderModifier") {
                if let Some(h) = &f.request_header_modifier {
                    let mut more = h.to_modifiers();
                    request.append(&mut more);
                }
            } else if kind.eq("ResponseHeaderModifier") {
                if let Some(h) = &f.response_header_modifier {
                    let mut more = h.to_modifiers();
                    response.append(&mut more);
                }
            } else if kind.eq("URLRewrite") {
                if let Some(u) = &f.url_rewrite {
                    if let Some(path) = &u.path {
                        rewrite = Self::compile_rewrite(path, matched_prefix);
                    }
                }
            }
            i = i + 1;
        }
        assert(filters@.take(i as int) =~= filters@);
        RouteFilters::new(request.as_slice(), response.as_slice(), rewrite)
    }

    fn compile_rewrite(path: &UrlRewritePath, matched_prefix: &str) -> (r: Option<UrlRewrite>)
        ensures
            rewrite_of(r) == path_rewrite(*path, matched_prefix@),
    {
        let kind = path.path_type.as_str();
        if kind.eq("ReplacePrefixMatch") {
            match &path.replace_prefix_match {
                Some(r) => Some(
                    UrlRewrite::Prefix {
                        prefix: trim_end_matches(matched_prefix, '/'),
                        replacement: r.clone(),
                    },
                ),
                None => None,
            }
        } else if kind.eq("ReplaceFullPath") {
            match &path.replace_full_path {
                Some(r) => Some(UrlRewrite::Exact(r.clone())),
                None => None,
            }
        } else {
            None
        }
    }
}

/// Whether a builder holds exactly the given routes.
spec fn holds(builder: RouteTableBuilder, defs: Seq<RouteDef>) -> bool {
    builder.entries() == all_entries(defs) && builder.count() == capped(defs.len())
}

/// The path and kind of a match.
fn compile_match(m: &HttpRouteMatch) -> (r: (String, PathMatch))
    ensures
        (r.0@, r.1) == match_of(*m),
{
    match &m.path {
        None => ("/".to_owned(), PathMatch::Prefix),
        Some(p) => {
            let value: String = match &p.value {
                Some(v) => v.clone(),
                None => "/".to_owned(),
            };
            let kind: PathMatch = match &p.match_type {
                Some(t) => if t.as_str().eq("Exact") {
                    PathMatch::Exact
                } else {
                    // PathPrefix is the Gateway API default, and
                    // RegularExpression is unsupported here, so it degrades to a
                    // prefix rather than dropping.
                    PathMatch::Prefix
                },
                None => PathMatch::Prefix,
            };
            (value, kind)
        },
    }
}

/// What a list of compiled matches holds.
spec fn match_texts(list: Seq<(String, PathMatch)>) -> Seq<(Seq<char>, PathMatch)> {
    Seq::new(list.len(), |i: int| (list[i].0@, list[i].1))
}

/// What a list of optional hosts holds.
spec fn host_texts(list: Seq<Option<String>>) -> Seq<Option<Seq<char>>> {
    Seq::new(list.len(), |i: int| optional_text(list[i]))
}

/// The matches of a rule. None at all means "match everything".
fn compile_matches(matches: &Vec<HttpRouteMatch>) -> (r: Vec<(String, PathMatch)>)
    ensures
        match_texts(r@) == matches_of(matches@),
{
    let mut out: Vec<(String, PathMatch)> = Vec::new();
    if matches.len() == 0 {
        out.push(("/".to_owned(), PathMatch::Prefix));
    } else {
        let mut i: usize = 0;
        while i < matches.len()
            invariant
                i <= matches@.len(),
                out@.len() == i,
                forall|k: int|
                    0 <= k < i ==> ((#[trigger] out@[k]).0@, out@[k].1) == match_of(matches@[k]),
            decreases matches@.len() - i,
        {
            out.push(compile_match(&matches[i]));
            i = i + 1;
        }
    }
    assert(match_texts(out@) =~= matches_of(matches@));
    out
}

/// The hosts of a route. None at all means "any host".
fn compile_hosts(hostnames: &Vec<String>) -> (r: Vec<Option<String>>)
    ensures
        host_texts(r@) == hosts_of(hostnames@),
{
    let mut out: Vec<Option<String>> = Vec::new();
    if hostnames.len() == 0 {
        out.push(None);
    } else {
        let mut i: usize = 0;
        while i < hostnames.len()
            invariant
                i <= hostnames@.len(),
                out@.len() == i,
                forall|k: int|
                    0 <= k < i ==> optional_text(#[trigger] out@[k]) == Some(hostnames@[k]@),
            decreases hostnames@.len() - i,
        {
            out.push(Some(hostnames[i].clone()));
            i = i + 1;
        }
    }
    assert(host_texts(out@) =~= hosts_of(hostnames@));
    out
}

fn copy_endpoints(list: &Vec<BackendEndpoint>) -> (r: Vec<BackendEndpoint>)
    ensures
        endpoints_of(r@) == endpoints_of(list@),
{
    let mut out: Vec<BackendEndpoint> = Vec::new();
    let mut i: usize = 0;
    while i < list.len()
        invariant
            i <= list@.len(),
            out@.len() == i,
            forall|k: int| 0 <= k < i ==> (#[trigger] out@[k])@ == list@[k]@,
        decreases list@.len() - i,
    {
        out.push(list[i].clone());
        i = i + 1;
    }
    assert(endpoints_of(out@) =~= endpoints_of(list@));
    out
}

/// Add the routes of one rule that has endpoints.
fn add_rule(
    builder: &mut RouteTableBuilder,
    stored: &StoredRoute,
    rule_idx: usize,
    endpoints: &Vec<BackendEndpoint>,
)
    requires
        rule_idx < stored.spec.rules@.len(),
    ensures
        forall|defs: Seq<RouteDef>| #[trigger]
            holds(*old(builder), defs) ==> holds(
                *final(builder),
                defs + hosts_defs(
                    *stored,
                    rule_idx as int,
                    endpoints_of(endpoints@),
                    hosts_of(stored.spec.hostnames@).len(),
                ),
            ),
{
    let rule = &stored.spec.rules[rule_idx];
    let matches = compile_matches(&rule.matches);
    let hostnames = compile_hosts(&stored.spec.hostnames);
    let mut name = stored.namespace.clone();
    name.push('/');
    name.append(stored.name.as_str());
    name.push('#');
    let number = decimal(rule_idx as u64);
    name.append(number.as_str());
    let ghost eps = endpoints_of(endpoints@);
    let ghost hosts = hosts_of(stored.spec.hostnames@);
    assert(name@ =~= rule_name(*stored, rule_idx as nat));
    assert(host_texts(hostnames@).len() == hostnames@.len());
    let mut h: usize = 0;
    assert forall|defs: Seq<RouteDef>| #[trigger] holds(*builder, defs) implies holds(
        *builder,
        defs + hosts_defs(*stored, rule_idx as int, eps, 0),
    ) by {
        assert(defs + hosts_defs(*stored, rule_idx as int, eps, 0) =~= defs);
    }
    while h < hostnames.len()
        invariant
            h <= hostnames@.len(),
            rule_idx < stored.spec.rules@.len(),
            rule == stored.spec.rules@[rule_idx as int],
            match_texts(matches@) == matches_of(rule.matches@),
            host_texts(hostnames@) == hosts,
            hosts == hosts_of(stored.spec.hostnames@),
            hosts.len() == hostnames@.len(),
            eps == endpoints_of(endpoints@),
            name@ == rule_name(*stored, rule_idx as nat),
            forall|defs: Seq<RouteDef>| #[trigger]
                holds(*old(builder), defs) ==> holds(
                    *builder,
                    defs + hosts_defs(*stored, rule_idx as int, eps, h as nat),
                ),
        decreases hostnames@.len() - h,
    {
        let ghost before = *builder;
        let ghost so_far = hosts_defs(*stored, rule_idx as int, eps, h as nat);
        let ghost more = host_defs(*stored, rule_idx as int, eps, hosts[h as int]);
        assert(hosts[h as int] == optional_text(hostnames@[h as int]));
        assert(match_texts(matches@).len() == matches@.len());
        let mut j: usize = 0;
        assert forall|defs: Seq<RouteDef>| #[trigger] holds(before, defs) implies holds(
            *builder,
            defs + more.take(0),
        ) by {
            assert(defs + more.take(0) =~= defs);
        }
        while j < matches.len()
            invariant
                j <= matches@.len(),
                h < hostnames@.len(),
                rule_idx < stored.spec.rules@.len(),
                rule == stored.spec.rules@[rule_idx as int],
                match_texts(matches@) == matches_of(rule.matches@),
                hosts[h as int] == optional_text(hostnames@[h as int]),
                eps == endpoints_of(endpoints@),
                name@ == rule_name(*stored, rule_idx as nat),
                more == host_defs(*stored, rule_idx as int, eps, hosts[h as int]),
                more.len() == matches@.len(),
                forall|defs: Seq<RouteDef>| #[trigger]
                    holds(before, defs) ==> holds(*builder, defs + more.take(j as int)),
            decreases matches@.len() - j,
        {
            let ghost now = *builder;
            let path = matches[j].0.clone();
            let path_match: PathMatch = matches[j].1;
            assert(match_texts(matches@)[j as int] == (path@, path_match));
            // `ReplacePrefixMatch` replaces *this match's* prefix, so filters are
            // compiled per match, not per rule.
            let filters = ClusterState::compile_filters(rule.filters.as_slice(), path.as_str());
            builder.add(
                RouteSpec {
                    hostname: hostnames[h].clone(),
                    path,
                    path_match,
                    endpoints: copy_endpoints(endpoints),
                    filters,
                    route_name: name.clone(),
                },
            );
            assert forall|defs: Seq<RouteDef>| #[trigger] holds(before, defs) implies holds(
                *builder,
                defs + more.take(j + 1),
            ) by {
                assert(holds(now, defs + more.take(j as int)));
                let grown = defs + more.take(j + 1);
                assert(grown.drop_last() =~= defs + more.take(j as int));
                assert(grown.last() == more[j as int]);
            }
            j = j + 1;
        }
        assert(more.take(j as int) =~= more);
        assert forall|defs: Seq<RouteDef>| #[trigger] holds(*old(builder), defs) implies holds(
            *builder,
            defs + hosts_defs(*stored, rule_idx as int, eps, (h + 1) as nat),
        ) by {
            assert(holds(before, defs + so_far));
            assert(defs + so_far + more =~= defs + (so_far + more));
        }
        h = h + 1;
    }
}

// ---------------------------------------------------------------------------
// Watch events
// ---------------------------------------------------------------------------

/// One endpoint of an `EndpointSlice`.
#[derive(Debug)]
pub struct SliceEndpoint {
    pub addresses: Vec<String>,
    /// `conditions.ready`, where the condition is there.
    pub ready: Option<bool>,
}

/// The fields of an `EndpointSlice` that affect routing.
#[derive(Debug)]
pub struct EndpointSlice {
    pub namespace: Option<String>,
    /// The `kubernetes.io/service-name` label.
    pub service_name: Option<String>,
    pub ports: Vec<Option<i32>>,
    pub endpoints: Vec<SliceEndpoint>,
}

/// The ports of a slice that are known.
pub open spec fn known_ports(ports: Seq<Option<i32>>) -> Seq<i32>
    decreases ports.len(),
{
    if ports.len() == 0 {
        Seq::empty()
    } else {
        match ports.last() {
            Some(p) => known_ports(ports.drop_last()).push(p),
            None => known_ports(ports.drop_last()),
        }
    }
}

/// One address and port of a ready endpoint.
pub open spec fn pair(address: Seq<char>, port: i32) -> (Seq<char>, i32) {
    (address, port)
}

/// Every address with every port, ports innermost.
pub open spec fn address_pairs(
    addresses: Seq<String>,
    ports: Seq<i32>,
) -> Seq<(Seq<char>, i32)>
    decreases addresses.len(),
{
    if addresses.len() == 0 {
        Seq::empty()
    } else {
        address_pairs(addresses.drop_last(), ports) + Seq::new(
            ports.len(),
            |i: int| pair(addresses.last()@, ports[i]),
        )
    }
}

/// Whether an endpoint is ready. An absent condition means that it is.
pub open spec fn is_ready(endpoint: SliceEndpoint) -> bool {
    endpoint.ready != Some(false)
}

/// The address and port pairs of the endpoints that are ready.
pub open spec fn ready_pairs(
    endpoints: Seq<SliceEndpoint>,
    ports: Seq<i32>,
) -> Seq<(Seq<char>, i32)>
    decreases endpoints.len(),
{
    if endpoints.len() == 0 {
        Seq::empty()
    } else {
        let before = ready_pairs(endpoints.drop_last(), ports);
        if is_ready(endpoints.last()) {
            before + address_pairs(endpoints.last().addresses@, ports)
        } else {
            before
        }
    }
}

/// What a list of ready endpoints holds.
pub open spec fn pairs_of(list: Seq<ReadyEndpoint>) -> Seq<(Seq<char>, i32)> {
    Seq::new(list.len(), |i: int| pair(list[i].address@, list[i].port))
}

/// Extract ready `ip:port` pairs from an EndpointSlice.
///
/// Endpoints whose `conditions.ready` is explicitly false are excluded; an absent
/// condition means ready per the API contract. A slice without a namespace or
/// without a Service is of no use.
#[must_use]
pub fn parse_endpoint_slice(slice: &EndpointSlice) -> (r: Option<ServiceEndpoints>)
    ensures
        r is Some <==> slice.namespace is Some && slice.service_name is Some,
        r matches Some(s) ==> {
            &&& s.namespace@ == slice.namespace->0@
            &&& s.service@ == slice.service_name->0@
            &&& pairs_of(s.endpoints@) == ready_pairs(
                slice.endpoints@,
                known_ports(slice.ports@),
            )
        },
{
    let namespace: String = match &slice.namespace {
        Some(ns) => ns.clone(),
        None => return None,
    };
    let service: String = match &slice.service_name {
        Some(service) => service.clone(),
        None => return None,
    };
    let mut ports: Vec<i32> = Vec::new();
    let mut i: usize = 0;
    assert(slice.ports@.take(0) =~= Seq::empty());
    while i < slice.ports.len()
        invariant
            i <= slice.ports@.len(),
            ports@ == known_ports(slice.ports@.take(i as int)),
        decreases slice.ports@.len() - i,
    {
        assert(slice.ports@.take(i + 1).drop_last() =~= slice.ports@.take(i as int));
        if let Some(p) = slice.ports[i] {
            ports.push(p);
        }
        i = i + 1;
    }
    assert(slice.ports@.take(i as int) =~= slice.ports@);
    let mut endpoints: Vec<ReadyEndpoint> = Vec::new();
    i = 0;
    assert(slice.endpoints@.take(0) =~= Seq::empty());
    assert(pairs_of(endpoints@) =~= Seq::empty());
    while i < slice.endpoints.len()
        invariant
            i <= slice.endpoints@.len(),
            pairs_of(endpoints@) == ready_pairs(slice.endpoints@.take(i as int), ports@),
        decreases slice.endpoints@.len() - i,
    {
        let endpoint = &slice.endpoints[i];
        assert(slice.endpoints@.take(i + 1).drop_last() =~= slice.endpoints@.take(i as int));
        let ready: bool = match endpoint.ready {
            Some(ready) => ready,
            None => true,
        };
        if ready {
            push_pairs(&mut endpoints, &endpoint.addresses, &ports);
        }
        i = i + 1;
    }
    assert(slice.endpoints@.take(i as int) =~= slice.endpoints@);
    Some(ServiceEndpoints { namespace, service, endpoints })
}

/// Append every address with every port.
fn push_pairs(out: &mut Vec<ReadyEndpoint>, addresses: &Vec<String>, ports: &Vec<i32>)
    ensures
        pairs_of(final(out)@) == pairs_of(old(out)@) + address_pairs(addresses@, ports@),
{
    let ghost start = pairs_of(out@);
    let mut a: usize = 0;
    assert(addresses@.take(0) =~= Seq::empty());
    assert(start + Seq::<(Seq<char>, i32)>::empty() =~= start);
    while a < addresses.len()
        invariant
            a <= addresses@.len(),
            pairs_of(out@) == start + address_pairs(addresses@.take(a as int), ports@),
        decreases addresses@.len() - a,
    {
        let ghost row = Seq::new(ports@.len(), |i: int| pair(addresses@[a as int]@, ports@[i]));
        let ghost before = pairs_of(out@);
        assert(addresses@.take(a + 1).drop_last() =~= addresses@.take(a as int));
        let mut p: usize = 0;
        assert(before + row.take(0) =~= before);
        while p < ports.len()
            invariant
                p <= ports@.len(),
                a < addresses@.len(),
                row == Seq::new(ports@.len(), |i: int| pair(addresses@[a as int]@, ports@[i])),
                pairs_of(out@) == before + row.take(p as int),
            decreases ports@.len() - p,
        {
            let ghost now = pairs_of(out@);
            out.push(ReadyEndpoint { address: addresses[a].clone(), port: ports[p] });
            assert(pairs_of(out@) =~= now.push(row[p as int]));
            p = p + 1;
            assert(pairs_of(out@) =~= before + row.take(p as int));
        }
        assert(row.take(p as int) =~= row);
        assert(pairs_of(out@) =~= start + address_pairs(addresses@.take(a + 1), ports@));
        a = a + 1;
    }
    assert(addresses@.take(a as int) =~= addresses@);
}

/// What a watch on `HTTPRoute`s reports.
#[derive(Debug)]
pub enum RouteEvent {
    /// A route is there or has changed. `spec` is absent where it did not parse.
    Apply { namespace: Option<String>, name: Option<String>, spec: Option<HttpRouteSpec> },
    /// A route is gone.
    Delete { namespace: Option<String>, name: Option<String> },
    /// The watch starts over: what follows is the whole state.
    Init,
    /// The whole state has been reported.
    InitDone,
}

/// What a watch on `EndpointSlice`s reports.
#[derive(Debug)]
pub enum SliceEvent {
    /// A slice is there or has changed.
    Apply(EndpointSlice),
    /// A slice is gone.
    Delete(EndpointSlice),
    /// The watch starts over: what follows is the whole state.
    Init,
    /// The whole state has been reported.
    InitDone,
}

/// The routes after an event, and whether the table must be rebuilt.
pub open spec fn after_route_event(
    routes: Seq<StoredRoute>,
    event: RouteEvent,
) -> (Seq<StoredRoute>, bool) {
    match event {
        RouteEvent::Apply { namespace: Some(namespace), name: Some(name), spec: Some(spec) } => (
            route_put(routes, StoredRoute { namespace, name, spec }),
            true,
        ),
        RouteEvent::Apply { .. } => (routes, false),
        RouteEvent::Delete { namespace: Some(namespace), name: Some(name) } => (
            route_dropped(routes, namespace@, name@),
            true,
        ),
        RouteEvent::Delete { .. } => (routes, false),
        RouteEvent::Init => (Seq::empty(), false),
        RouteEvent::InitDone => (routes, true),
    }
}

/// Whether a slice belongs to a Service.
pub open spec fn slice_is_useful(slice: EndpointSlice) -> bool {
    slice.namespace is Some && slice.service_name is Some
}

/// What happens to the known Services on an event, and whether the table must be
/// rebuilt.
pub open spec fn slice_event_done(
    before: Seq<ServiceEndpoints>,
    after: Seq<ServiceEndpoints>,
    event: SliceEvent,
    dirty: bool,
) -> bool {
    match event {
        SliceEvent::Apply(slice) => if slice_is_useful(slice) {
            &&& dirty
            &&& exists|s: ServiceEndpoints|
                {
                    &&& after == #[trigger] service_put(before, s)
                    &&& s.namespace@ == slice.namespace->0@
                    &&& s.service@ == slice.service_name->0@
                    &&& pairs_of(s.endpoints@) == ready_pairs(
                        slice.endpoints@,
                        known_ports(slice.ports@),
                    )
                }
        } else {
            !dirty && after == before
        },
        SliceEvent::Delete(slice) => if slice_is_useful(slice) {
            dirty && after == service_dropped(
                before,
                slice.namespace->0@,
                slice.service_name->0@,
            )
        } else {
            !dirty && after == before
        },
        SliceEvent::Init => !dirty && after == Seq::<ServiceEndpoints>::empty(),
        SliceEvent::InitDone => dirty && after == before,
    }
}

impl ClusterState {
    /// The state after an event of the `HTTPRoute` watch, and whether the route
    /// table must be rebuilt.
    #[must_use]
    pub fn on_route_event(self, event: RouteEvent) -> (r: (Self, bool))
        ensures
            (r.0.routes(), r.1) == after_route_event(self.routes(), event),
            r.0.services() == self.services(),
    {
        match event {
            RouteEvent::Apply { namespace: Some(namespace), name: Some(name), spec: Some(spec) } => (
                self.put_route(StoredRoute { namespace, name, spec }),
                true,
            ),
            RouteEvent::Apply { .. } => (self, false),
            RouteEvent::Delete { namespace: Some(namespace), name: Some(name) } => (
                self.drop_route(namespace.as_str(), name.as_str()),
                true,
            ),
            RouteEvent::Delete { .. } => (self, false),
            RouteEvent::Init => (self.clear_routes(), false),
            RouteEvent::InitDone => (self, true),
        }
    }

    /// The state after an event of the `EndpointSlice` watch, and whether the
    /// route table must be rebuilt.
    #[must_use]
    pub fn on_slice_event(self, event: SliceEvent) -> (r: (Self, bool))
        ensures
            slice_event_done(self.services(), r.0.services(), event, r.1),
            r.0.routes() == self.routes(),
    {
        match event {
            SliceEvent::Apply(slice) => match parse_endpoint_slice(&slice) {
                Some(service) => (self.put_endpoints(service), true),
                None => (self, false),
            },
            SliceEvent::Delete(slice) => match parse_endpoint_slice(&slice) {
                Some(service) => (
                    self.drop_endpoints(service.namespace.as_str(), service.service.as_str()),
                    true,
                ),
                None => (self, false),
            },
            SliceEvent::Init => (self.clear_endpoints(), false),
            SliceEvent::InitDone => (self, true),
        }
    }
}

/// A recorded route is found under its key, and every other key leads where it
/// led before.
pub proof fn lemma_put_route_is_found(
    routes: Seq<StoredRoute>,
    route: StoredRoute,
    namespace: Seq<char>,
    name: Seq<char>,
)
    ensures
        ({
            let after = route_put(routes, route);
            let k = route_position(after, namespace, name);
            let before = route_position(routes, namespace, name);
            if route.namespace@ == namespace && route.name@ == name {
                k < after.len() && after[k] == route
            } else {
                &&& (k < after.len()) == (before < routes.len())
                &&& before < routes.len() ==> after[k] == routes[before]
            }
        }),
{
    let after = route_put(routes, route);
    lemma_route_position(after, namespace, name);
    lemma_route_position(routes, namespace, name);
    lemma_route_position(routes, route.namespace@, route.name@);
    let p = route_position(routes, route.namespace@, route.name@);
    let k = route_position(after, namespace, name);
    let before = route_position(routes, namespace, name);
    assert(after[p] == route);
    assert(forall|i: int| 0 <= i < routes.len() && i != p ==> after[i] == routes[i]);
    if route.namespace@ == namespace && route.name@ == name {
        assert(k <= p);
    } else {
        if before < routes.len() {
            assert(after[before] == routes[before]);
            assert(k <= before);
            assert(after[k].namespace@ == namespace && after[k].name@ == name);
        }
        if k < after.len() {
            assert(k != p);
            assert(routes[k] == after[k]);
        }
    }
}

/// A forgotten route is not found, and every other key leads where it led before.
pub proof fn lemma_dropped_route_is_gone(
    routes: Seq<StoredRoute>,
    namespace: Seq<char>,
    name: Seq<char>,
    other_ns: Seq<char>,
    other_name: Seq<char>,
)
    requires
        routes_distinct(routes),
    ensures
        ({
            let after = route_dropped(routes, namespace, name);
            let k = route_position(after, other_ns, other_name);
            let before = route_position(routes, other_ns, other_name);
            if other_ns == namespace && other_name == name {
                k == after.len()
            } else {
                &&& (k < after.len()) == (before < routes.len())
                &&& before < routes.len() ==> after[k] == routes[before]
            }
        }),
{
    let after = route_dropped(routes, namespace, name);
    lemma_route_position(after, other_ns, other_name);
    lemma_route_position(routes, other_ns, other_name);
    lemma_route_position(routes, namespace, name);
    let p = route_position(routes, namespace, name);
    let k = route_position(after, other_ns, other_name);
    let before = route_position(routes, other_ns, other_name);
    if p < routes.len() {
        assert(forall|i: int| 0 <= i < p ==> after[i] == routes[i]);
        assert(forall|i: int| p <= i < after.len() ==> after[i] == routes[i + 1]);
        if k < after.len() {
            let at = if k < p {
                k
            } else {
                k + 1
            };
            assert(after[k] == routes[at]);
        }
        if before < routes.len() && before != p {
            let at = if before < p {
                before
            } else {
                before - 1
            };
            assert(after[at] == routes[before]);
        }
    }
}

/// A backend reference always resolves to something, so that a route is never
/// black-holed, and everything it resolves to has the weight of the reference.
pub proof fn lemma_backend_always_resolves(
    services: Seq<ServiceEndpoints>,
    route_ns: Seq<char>,
    backend: BackendRef,
)
    ensures
        resolved(services, route_ns, backend).len() > 0,
        forall|i: int|
            0 <= i < resolved(services, route_ns, backend).len() ==> (#[trigger] resolved(
                services,
                route_ns,
                backend,
            )[i]).weight == ref_weight(backend),
{
    let ns = ref_namespace(route_ns, backend);
    lemma_on_port_weight(
        known_endpoints(services, ns, backend.name@),
        ref_port(backend),
        ref_weight(backend),
    );
}

proof fn lemma_on_port_weight(eps: Seq<ReadyEndpoint>, port: i32, weight: u32)
    ensures
        forall|i: int|
            0 <= i < on_port(eps, port, weight).len() ==> (#[trigger] on_port(
                eps,
                port,
                weight,
            )[i]).weight == weight,
    decreases eps.len(),
{
    if eps.len() > 0 {
        let before = on_port(eps.drop_last(), port, weight);
        lemma_on_port_weight(eps.drop_last(), port, weight);
        assert forall|i: int| 0 <= i < on_port(eps, port, weight).len() implies (
        #[trigger] on_port(eps, port, weight)[i]).weight == weight by {
            if i < before.len() {
                assert(before[i].weight == weight);
            }
        }
    }
}

/// An endpoint that is not ready contributes nothing.
pub proof fn lemma_unready_is_excluded(
    before: Seq<SliceEndpoint>,
    unready: SliceEndpoint,
    after: Seq<SliceEndpoint>,
    ports: Seq<i32>,
)
    requires
        !is_ready(unready),
    ensures
        ready_pairs(before + seq![unready] + after, ports) == ready_pairs(before + after, ports),
    decreases after.len(),
{
    let all = before + seq![unready] + after;
    if after.len() == 0 {
        assert(all.drop_last() =~= before + after);
        assert(all.last() == unready);
    } else {
        lemma_unready_is_excluded(before, unready, after.drop_last(), ports);
        assert(all.drop_last() =~= before + seq![unready] + after.drop_last());
        assert((before + after).drop_last() =~= before + after.drop_last());
        assert(all.last() == after.last());
        assert((before + after).last() == after.last());
    }
}

} // verus!
