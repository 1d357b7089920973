//! What a cluster's routes, Services and endpoints come to, item by item.

use vstd::prelude::*;
use vstd::string::*;

use crate::lb_core::filter::{rewritten, rules_of, HeaderModifier};
use crate::lb_core::gateway::{
    after_route_event, all_resolved, cluster_defs, filters_of, host_defs, hosts_defs, hosts_of,
    is_ours, known_endpoints, known_ports, lemma_service_position, match_of, matches_of,
    modifiers_of, on_port, pairs_of, ready_pairs, resolved, route_defs, rule_defs, service_dropped,
    service_put, services_distinct, slice_event_done, BackendRef, ControllerConfig, HeaderFilter,
    HttpRouteFilter, HttpRouteMatch, HttpRouteRule, ReadyEndpoint, RouteEvent, ServiceEndpoints,
    SliceEndpoint, SliceEvent, StoredRoute, UrlRewritePath,
};
use crate::lb_core::route_table::{PathMatch, RouteDef};
use crate::lb_core::target::Endpoint;
use crate::text::{int_text, nat_text, without_trailing};

verus! {

/// Whether a match asks for a path of a kind: the root by default, and a prefix unless it
/// says `Exact`.
pub open spec fn asks_for(m: HttpRouteMatch, path: Seq<char>, kind: PathMatch) -> bool {
    &&& match m.path {
        Some(p) => match p.value {
            Some(v) => path == v@,
            None => path == "/"@,
        },
        None => path == "/"@,
    }
    &&& kind is Exact <==> m.path is Some && m.path->0.match_type is Some
        && m.path->0.match_type->0@ == "Exact"@
}

/// Whether a rule matches a path of a kind: by one of its matches, or all of them alike
/// where it has none.
pub open spec fn rule_matches(rule: HttpRouteRule, path: Seq<char>, kind: PathMatch) -> bool {
    if rule.matches@.len() == 0 {
        path == "/"@ && kind is Prefix
    } else {
        exists|j: int|
            0 <= j < rule.matches@.len() && asks_for(#[trigger] rule.matches@[j], path, kind)
    }
}

/// Whether a route is for a host: by one of its hostnames, or for any where it has none.
pub open spec fn is_for(stored: StoredRoute, host: Option<Seq<char>>) -> bool {
    if stored.spec.hostnames@.len() == 0 {
        host is None
    } else {
        exists|j: int|
            0 <= j < stored.spec.hostnames@.len() && host == Some(
                (#[trigger] stored.spec.hostnames@[j])@,
            )
    }
}

/// Whether a definition is what a rule of a route asks for, for a host and a match.
pub open spec fn asked_by(
    def: RouteDef,
    services: Seq<ServiceEndpoints>,
    stored: StoredRoute,
    k: int,
) -> bool {
    &&& 0 <= k < stored.spec.rules@.len()
    &&& stored.spec.rules@[k].backend_refs@.len() > 0
    &&& is_for(stored, def.hostname)
    &&& rule_matches(stored.spec.rules@[k], def.path, def.kind)
    &&& def.name == stored.namespace@ + seq!['/'] + stored.name@ + seq!['#'] + nat_text(k as nat)
    &&& def.endpoints == all_resolved(
        services,
        stored.namespace@,
        stored.spec.rules@[k].backend_refs@,
    )
    &&& def.filters.request == rules_of(filters_of(stored.spec.rules@[k].filters@, def.path).0)
    &&& def.filters.response == rules_of(filters_of(stored.spec.rules@[k].filters@, def.path).1)
    &&& def.filters.rewrite == filters_of(stored.spec.rules@[k].filters@, def.path).2
}

// ---------------------------------------------------------------------------
// Backends
// ---------------------------------------------------------------------------

/// The weight that a backend reference asks for, between nought and a million.
pub open spec fn asked_weight(b: BackendRef) -> int {
    match b.weight {
        None => 1,
        Some(w) => if w < 0 {
            0
        } else if w > 1_000_000 {
            1_000_000
        } else {
            w as int
        },
    }
}

/// The port that a backend reference asks for.
pub open spec fn asked_port(b: BackendRef) -> i32 {
    if b.port is Some {
        b.port->0
    } else {
        80
    }
}

/// The namespace that a backend reference is in.
pub open spec fn asked_namespace(route_ns: Seq<char>, b: BackendRef) -> Seq<char> {
    if b.namespace is Some {
        b.namespace->0@
    } else {
        route_ns
    }
}

proof fn lemma_on_port(eps: Seq<ReadyEndpoint>, port: i32, weight: u32)
    ensures
        ({
            let ready = eps.filter(|e: ReadyEndpoint| e.port == port);
            let out = on_port(eps, port, weight);
            &&& out.len() == ready.len()
            &&& forall|i: int|
                0 <= i < out.len() ==> (#[trigger] out[i]).weight == weight && out[i].address
                    == ready[i].address@ + seq![':'] + int_text(port as int)
        }),
    decreases eps.len(),
{
    reveal(Seq::filter);
    let test = |e: ReadyEndpoint| e.port == port;
    if eps.len() > 0 {
        let init = eps.drop_last();
        lemma_on_port(init, port, weight);
        let ready = eps.filter(test);
        let before = init.filter(test);
        let out = on_port(eps, port, weight);
        assert forall|i: int| 0 <= i < out.len() implies (#[trigger] out[i]).weight == weight
            && out[i].address == ready[i].address@ + seq![':'] + int_text(port as int) by {
            if i < before.len() {
                assert(on_port(init, port, weight)[i].weight == weight);
                assert(ready[i] == before[i]);
            }
        }
    }
}

/// A backend reference leads to every endpoint of its Service that is ready on its port,
/// in order and with its weight; where there is none, to the Service's name in the
/// cluster's DNS.
pub proof fn lemma_backend_leads_to_its_ready_endpoints(
    services: Seq<ServiceEndpoints>,
    s: int,
    route_ns: Seq<char>,
    b: BackendRef,
)
    requires
        services_distinct(services),
        0 <= s < services.len(),
        services[s].namespace@ == asked_namespace(route_ns, b),
        services[s].service@ == b.name@,
    ensures
        ({
            let port = asked_port(b);
            let ready = services[s].endpoints@.filter(|e: ReadyEndpoint| e.port == port);
            let out = resolved(services, route_ns, b);
            if ready.len() > 0 {
                &&& out.len() == ready.len()
                &&& forall|i: int|
                    0 <= i < out.len() ==> (#[trigger] out[i]).weight == asked_weight(b)
                        && out[i].address == ready[i].address@ + seq![':'] + int_text(port as int)
            } else {
                &&& out.len() == 1
                &&& out[0].weight == asked_weight(b)
                &&& out[0].address == b.name@ + seq!['.'] + asked_namespace(route_ns, b)
                    + ".svc.cluster.local:"@ + int_text(port as int)
            }
        }),
{
    let ns = asked_namespace(route_ns, b);
    lemma_service_position(services, ns, b.name@);
    let k = crate::lb_core::gateway::service_position(services, ns, b.name@);
    assert(k == s) by {
        if k < s {
            assert(services[k].namespace@ == services[s].namespace@);
        }
    }
    lemma_on_port(services[s].endpoints@, asked_port(b), asked_weight(b) as u32);
}

/// A backend whose Service has no endpoints leads to its name in the cluster's DNS.
pub proof fn lemma_unknown_backend_leads_to_its_name(
    services: Seq<ServiceEndpoints>,
    route_ns: Seq<char>,
    b: BackendRef,
)
    requires
        forall|s: int|
            0 <= s < services.len() ==> !((#[trigger] services[s]).namespace@ == asked_namespace(
                route_ns,
                b,
            ) && services[s].service@ == b.name@),
    ensures
        ({
            let out = resolved(services, route_ns, b);
            &&& out.len() == 1
            &&& out[0].weight == asked_weight(b)
            &&& out[0].address == b.name@ + seq!['.'] + asked_namespace(route_ns, b)
                + ".svc.cluster.local:"@ + int_text(asked_port(b) as int)
        }),
{
    let ns = asked_namespace(route_ns, b);
    lemma_service_position(services, ns, b.name@);
    assert(known_endpoints(services, ns, b.name@) =~= Seq::empty());
    lemma_on_port(Seq::empty(), asked_port(b), asked_weight(b) as u32);
    reveal(Seq::filter);
}

/// The backends of a rule lead, one after another, to what each of them leads to, and a
/// rule that has any leads somewhere.
pub proof fn lemma_backends_add_up(
    services: Seq<ServiceEndpoints>,
    route_ns: Seq<char>,
    a: Seq<BackendRef>,
    b: BackendRef,
    c: Seq<BackendRef>,
)
    ensures
        all_resolved(services, route_ns, a + seq![b] + c) == all_resolved(services, route_ns, a)
            + resolved(services, route_ns, b) + all_resolved(services, route_ns, c),
        resolved(services, route_ns, b).len() > 0,
        all_resolved(services, route_ns, Seq::empty()) == Seq::<Endpoint>::empty(),
    decreases c.len(),
{
    let all = a + seq![b] + c;
    crate::lb_core::gateway::lemma_backend_always_resolves(services, route_ns, b);
    assert(all_resolved(services, route_ns, Seq::empty()) =~= Seq::<Endpoint>::empty());
    if c.len() == 0 {
        assert(all.drop_last() =~= a);
        assert(all.last() == b);
        assert(all_resolved(services, route_ns, all) =~= all_resolved(services, route_ns, a)
            + resolved(services, route_ns, b) + all_resolved(services, route_ns, c));
    } else {
        lemma_backends_add_up(services, route_ns, a, b, c.drop_last());
        assert(all.drop_last() =~= a + seq![b] + c.drop_last());
        assert(all.last() == c.last());
        assert(all_resolved(services, route_ns, all) =~= all_resolved(services, route_ns, a)
            + resolved(services, route_ns, b) + all_resolved(services, route_ns, c));
    }
}

proof fn lemma_some_backend(
    services: Seq<ServiceEndpoints>,
    route_ns: Seq<char>,
    refs: Seq<BackendRef>,
)
    ensures
        all_resolved(services, route_ns, refs).len() > 0 <==> refs.len() > 0,
{
    if refs.len() > 0 {
        crate::lb_core::gateway::lemma_backend_always_resolves(services, route_ns, refs.last());
    }
}

// ---------------------------------------------------------------------------
// Routes
// ---------------------------------------------------------------------------

proof fn lemma_match(m: HttpRouteMatch, path: Seq<char>, kind: PathMatch)
    ensures
        asks_for(m, path, kind) <==> match_of(m) == (path, kind),
{
}

proof fn lemma_matches(rule: HttpRouteRule, path: Seq<char>, kind: PathMatch)
    ensures
        rule_matches(rule, path, kind) <==> matches_of(rule.matches@).contains((path, kind)),
        matches_of(rule.matches@).len() == (if rule.matches@.len() == 0 {
            1
        } else {
            rule.matches@.len()
        }),
{
    let ms = matches_of(rule.matches@);
    if rule.matches@.len() == 0 {
        if rule_matches(rule, path, kind) {
            assert(ms[0] == (path, kind));
        }
    } else {
        if rule_matches(rule, path, kind) {
            let j = choose|j: int|
                0 <= j < rule.matches@.len() && asks_for(#[trigger] rule.matches@[j], path, kind);
            lemma_match(rule.matches@[j], path, kind);
            assert(ms[j] == (path, kind));
        }
        if ms.contains((path, kind)) {
            let j = choose|j: int| 0 <= j < ms.len() && ms[j] == (path, kind);
            lemma_match(rule.matches@[j], path, kind);
            assert(asks_for(rule.matches@[j], path, kind));
        }
    }
}

proof fn lemma_hosts(stored: StoredRoute, host: Option<Seq<char>>)
    ensures
        is_for(stored, host) <==> hosts_of(stored.spec.hostnames@).contains(host),
        hosts_of(stored.spec.hostnames@).len() == (if stored.spec.hostnames@.len() == 0 {
            1
        } else {
            stored.spec.hostnames@.len()
        }),
{
    let hs = hosts_of(stored.spec.hostnames@);
    if stored.spec.hostnames@.len() == 0 {
        if host is None {
            assert(hs[0] == host);
        }
    } else {
        if is_for(stored, host) {
            let j = choose|j: int|
                0 <= j < stored.spec.hostnames@.len() && host == Some(
                    (#[trigger] stored.spec.hostnames@[j])@,
                );
            assert(hs[j] == host);
        }
        if hs.contains(host) {
            let j = choose|j: int| 0 <= j < hs.len() && hs[j] == host;
            assert(host == Some(stored.spec.hostnames@[j]@));
        }
    }
}

/// Whether a definition is the one of a host and a match.
spec fn from_host(
    def: RouteDef,
    stored: StoredRoute,
    k: int,
    eps: Seq<Endpoint>,
    h: int,
    j: int,
) -> bool {
    &&& 0 <= h < hosts_of(stored.spec.hostnames@).len()
    &&& 0 <= j < matches_of(stored.spec.rules@[k].matches@).len()
    &&& def == host_defs(stored, k, eps, hosts_of(stored.spec.hostnames@)[h])[j]
}

spec fn from_some_host(def: RouteDef, stored: StoredRoute, k: int, eps: Seq<Endpoint>) -> bool {
    exists|h: int, j: int| #[trigger] from_host(def, stored, k, eps, h, j)
}

proof fn lemma_in_hosts(stored: StoredRoute, k: int, eps: Seq<Endpoint>, n: nat)
    requires
        n <= hosts_of(stored.spec.hostnames@).len(),
    ensures
        hosts_defs(stored, k, eps, n).len() == n * matches_of(
            stored.spec.rules@[k].matches@,
        ).len(),
        forall|def: RouteDef, h: int, j: int|
            h < n && #[trigger] from_host(def, stored, k, eps, h, j) ==> hosts_defs(
                stored,
                k,
                eps,
                n,
            ).contains(def),
        forall|d: int|
            0 <= d < hosts_defs(stored, k, eps, n).len() ==> from_some_host(
                #[trigger] hosts_defs(stored, k, eps, n)[d],
                stored,
                k,
                eps,
            ),
    decreases n,
{
    let hs = hosts_of(stored.spec.hostnames@);
    let m = matches_of(stored.spec.rules@[k].matches@).len();
    let all = hosts_defs(stored, k, eps, n);
    if n == 0 {
        assert(0 * m == 0) by (nonlinear_arith);
    } else {
        let v = (n - 1) as nat;
        lemma_in_hosts(stored, k, eps, v);
        let before = hosts_defs(stored, k, eps, v);
        let own = host_defs(stored, k, eps, hs[n - 1]);
        assert(own.len() == m);
        assert(n * m == v * m + m) by (nonlinear_arith)
            requires
                n == v + 1,
        ;
        assert forall|def: RouteDef, h: int, j: int|
            h < n && #[trigger] from_host(def, stored, k, eps, h, j) implies all.contains(def) by {
            if h < v {
                assert(before.contains(def));
                let i = choose|i: int| 0 <= i < before.len() && before[i] == def;
                assert(all[i] == def);
            } else {
                assert(all[before.len() + j] == def);
            }
        }
        assert forall|d: int| 0 <= d < all.len() implies from_some_host(
            #[trigger] all[d],
            stored,
            k,
            eps,
        ) by {
            if d < before.len() {
                assert(all[d] == before[d]);
            } else {
                assert(from_host(all[d], stored, k, eps, n - 1, d - before.len()));
            }
        }
    }
}

/// A rule with a backend defines one route for each of its hosts and each of its matches,
/// and one without any defines none: for every host and every match there is a definition
/// with that host, that path and that kind, and there is no other.
pub proof fn lemma_rule_defines_every_host_and_match(
    services: Seq<ServiceEndpoints>,
    stored: StoredRoute,
    k: int,
)
    requires
        0 <= k < stored.spec.rules@.len(),
    ensures
        ({
            let defs = rule_defs(services, stored, k);
            let rule = stored.spec.rules@[k];
            let hosts = if stored.spec.hostnames@.len() == 0 {
                1
            } else {
                stored.spec.hostnames@.len()
            };
            let matches = if rule.matches@.len() == 0 {
                1
            } else {
                rule.matches@.len()
            };
            &&& defs.len() == (if rule.backend_refs@.len() == 0 {
                0
            } else {
                hosts * matches
            })
            &&& forall|d: int| 0 <= d < defs.len() ==> asked_by(#[trigger] defs[d], services, stored, k)
            &&& rule.backend_refs@.len() > 0 ==> forall|
                host: Option<Seq<char>>,
                path: Seq<char>,
                kind: PathMatch,
            | #[trigger]
                is_for(stored, host) && #[trigger] rule_matches(rule, path, kind) ==> exists|d: int|
                    0 <= d < defs.len() && (#[trigger] defs[d]).hostname == host && defs[d].path
                        == path && defs[d].kind == kind
        }),
{
    let rule = stored.spec.rules@[k];
    let eps = all_resolved(services, stored.namespace@, rule.backend_refs@);
    let defs = rule_defs(services, stored, k);
    let hs = hosts_of(stored.spec.hostnames@);
    let ms = matches_of(rule.matches@);
    lemma_some_backend(services, stored.namespace@, rule.backend_refs@);
    lemma_hosts(stored, None);
    lemma_matches(rule, Seq::empty(), PathMatch::Prefix);
    if rule.backend_refs@.len() > 0 {
        lemma_in_hosts(stored, k, eps, hs.len());
        assert forall|d: int| 0 <= d < defs.len() implies asked_by(
            #[trigger] defs[d],
            services,
            stored,
            k,
        ) by {
            let def = defs[d];
            assert(from_some_host(def, stored, k, eps));
            let (h, j) = choose|h: int, j: int| #[trigger] from_host(def, stored, k, eps, h, j);
            assert(hs.contains(hs[h]));
            assert(ms.contains(ms[j]));
            lemma_hosts(stored, hs[h]);
            lemma_matches(rule, ms[j].0, ms[j].1);
        }
        assert forall|host: Option<Seq<char>>, path: Seq<char>, kind: PathMatch| #[trigger]
            is_for(stored, host) && #[trigger] rule_matches(rule, path, kind) implies exists|d: int|
            0 <= d < defs.len() && (#[trigger] defs[d]).hostname == host && defs[d].path == path
                && defs[d].kind == kind by {
            lemma_hosts(stored, host);
            lemma_matches(rule, path, kind);
            let h = choose|h: int| 0 <= h < hs.len() && hs[h] == host;
            let j = choose|j: int| 0 <= j < ms.len() && ms[j] == (path, kind);
            let x = host_defs(stored, k, eps, hs[h])[j];
            assert(from_host(x, stored, k, eps, h, j));
            assert(defs.contains(x));
            let d = choose|d: int| 0 <= d < defs.len() && defs[d] == x;
            assert(defs[d].hostname == host);
        }
    }
}

proof fn lemma_in_rules(services: Seq<ServiceEndpoints>, stored: StoredRoute, n: nat)
    ensures
        forall|k: int, i: int|
            0 <= k < n && 0 <= i < rule_defs(services, stored, k).len() ==> route_defs(
                services,
                stored,
                n,
            ).contains(#[trigger] rule_defs(services, stored, k)[i]),
        forall|d: int|
            0 <= d < route_defs(services, stored, n).len() ==> exists|k: int|
                0 <= k < n && (#[trigger] rule_defs(services, stored, k)).contains(
                    #[trigger] route_defs(services, stored, n)[d],
                ),
    decreases n,
{
    let all = route_defs(services, stored, n);
    if n > 0 {
        let v = (n - 1) as nat;
        lemma_in_rules(services, stored, v);
        let before = route_defs(services, stored, v);
        let own = rule_defs(services, stored, n - 1);
        assert forall|k: int, i: int|
            0 <= k < n && 0 <= i < rule_defs(services, stored, k).len() implies all.contains(
            #[trigger] rule_defs(services, stored, k)[i],
        ) by {
            let x = rule_defs(services, stored, k)[i];
            if k < v {
                assert(before.contains(x));
                let d = choose|d: int| 0 <= d < before.len() && before[d] == x;
                assert(all[d] == x);
            } else {
                assert(all[before.len() + i] == x);
            }
        }
        assert forall|d: int| 0 <= d < all.len() implies exists|k: int|
            0 <= k < n && (#[trigger] rule_defs(services, stored, k)).contains(
                #[trigger] all[d],
            ) by {
            if d < before.len() {
                assert(all[d] == before[d]);
                let k = choose|k: int|
                    0 <= k < v && (#[trigger] rule_defs(services, stored, k)).contains(
                        #[trigger] before[d],
                    );
                assert(rule_defs(services, stored, k).contains(all[d]));
            } else {
                assert(own[d - before.len()] == all[d]);
                assert(rule_defs(services, stored, n - 1).contains(all[d]));
            }
        }
    }
}

/// Every host and every match of every rule with a backend, of every route that attaches
/// to the Gateway that is served, becomes a route of the table: with that host, that path
/// and kind, under the route's name, to the rule's backends.
pub proof fn lemma_every_match_becomes_a_route(
    cfg: ControllerConfig,
    services: Seq<ServiceEndpoints>,
    routes: Seq<StoredRoute>,
    r: int,
    k: int,
    host: Option<Seq<char>>,
    path: Seq<char>,
    kind: PathMatch,
)
    requires
        0 <= r < routes.len(),
        is_ours(cfg, routes[r]),
        0 <= k < routes[r].spec.rules@.len(),
        routes[r].spec.rules@[k].backend_refs@.len() > 0,
        is_for(routes[r], host),
        rule_matches(routes[r].spec.rules@[k], path, kind),
    ensures
        exists|d: int|
            0 <= d < cluster_defs(cfg, services, routes).len() && asked_by(
                #[trigger] cluster_defs(cfg, services, routes)[d],
                services,
                routes[r],
                k,
            ) && cluster_defs(cfg, services, routes)[d].hostname == host && cluster_defs(
                cfg,
                services,
                routes,
            )[d].path == path && cluster_defs(cfg, services, routes)[d].kind == kind,
    decreases routes.len(),
{
    let all = cluster_defs(cfg, services, routes);
    let init = routes.drop_last();
    let before = cluster_defs(cfg, services, init);
    if r < init.len() {
        assert(init[r] == routes[r]);
        lemma_every_match_becomes_a_route(cfg, services, init, r, k, host, path, kind);
        let d = choose|d: int|
            0 <= d < before.len() && asked_by(#[trigger] before[d], services, routes[r], k)
                && before[d].hostname == host && before[d].path == path && before[d].kind == kind;
        assert(all[d] == before[d]);
    } else {
        let stored = routes[r];
        let n = stored.spec.rules@.len();
        lemma_in_rules(services, stored, n);
        lemma_rule_defines_every_host_and_match(services, stored, k);
        let defs = rule_defs(services, stored, k);
        let i = choose|i: int|
            0 <= i < defs.len() && (#[trigger] defs[i]).hostname == host && defs[i].path == path
                && defs[i].kind == kind;
        let own = route_defs(services, stored, n);
        assert(own.contains(rule_defs(services, stored, k)[i]));
        let d = choose|d: int| 0 <= d < own.len() && own[d] == defs[i];
        assert(all[before.len() + d] == defs[i]);
    }
}

/// Nothing else becomes a route: every route of the table was asked for by a rule, with a
/// backend, of a route that attaches to the Gateway that is served.
pub proof fn lemma_every_route_was_asked_for(
    cfg: ControllerConfig,
    services: Seq<ServiceEndpoints>,
    routes: Seq<StoredRoute>,
    d: int,
)
    requires
        0 <= d < cluster_defs(cfg, services, routes).len(),
    ensures
        exists|r: int, k: int|
            0 <= r < routes.len() && is_ours(cfg, routes[r]) && #[trigger] asked_by(
                cluster_defs(cfg, services, routes)[d],
                services,
                routes[r],
                k,
            ),
    decreases routes.len(),
{
    let all = cluster_defs(cfg, services, routes);
    let init = routes.drop_last();
    let before = cluster_defs(cfg, services, init);
    if d < before.len() {
        lemma_every_route_was_asked_for(cfg, services, init, d);
        let (r, k) = choose|r: int, k: int|
            0 <= r < init.len() && is_ours(cfg, init[r]) && #[trigger] asked_by(
                before[d],
                services,
                init[r],
                k,
            );
        assert(routes[r] == init[r]);
        assert(all[d] == before[d]);
    } else {
        let stored = routes.last();
        let n = stored.spec.rules@.len();
        lemma_in_rules(services, stored, n);
        let own = route_defs(services, stored, n);
        assert(all[d] == own[d - before.len()]);
        let k = choose|k: int|
            0 <= k < n && (#[trigger] rule_defs(services, stored, k)).contains(
                #[trigger] own[d - before.len()],
            );
        let defs = rule_defs(services, stored, k);
        let i = choose|i: int| 0 <= i < defs.len() && defs[i] == all[d];
        lemma_rule_defines_every_host_and_match(services, stored, k);
        assert(asked_by(defs[i], services, stored, k));
        assert(routes[routes.len() - 1] == stored);
    }
}

/// A route attaches to the Gateway that is served where one of its parents is that
/// Gateway, in the namespace that the controller is scoped to if it is scoped to one. One
/// without parents attaches where the controller is not scoped, and every route does where
/// no Gateway is named.
pub proof fn lemma_routes_attach_by_their_parents(cfg: ControllerConfig, stored: StoredRoute)
    ensures
        cfg.gateway_name is None ==> is_ours(cfg, stored),
        cfg.gateway_name is Some && stored.spec.parent_refs@.len() == 0 ==> is_ours(cfg, stored)
            == (cfg.namespace is None),
        cfg.gateway_name is Some && (forall|i: int|
            0 <= i < stored.spec.parent_refs@.len() ==> (
            #[trigger] stored.spec.parent_refs@[i]).name@ != cfg.gateway_name->0@)
            && stored.spec.parent_refs@.len() > 0 ==> !is_ours(cfg, stored),
        forall|i: int|
            0 <= i < stored.spec.parent_refs@.len() && cfg.gateway_name is Some && (
            #[trigger] stored.spec.parent_refs@[i]).name@ == cfg.gateway_name->0@ && (
            cfg.namespace is None || cfg.namespace->0@ == (
            if stored.spec.parent_refs@[i].namespace is Some {
                stored.spec.parent_refs@[i].namespace->0@
            } else {
                stored.namespace@
            })) ==> is_ours(cfg, stored),
        cfg.gateway_name is Some && cfg.namespace is Some && (forall|i: int|
            0 <= i < stored.spec.parent_refs@.len() ==> (if (
            #[trigger] stored.spec.parent_refs@[i]).namespace is Some {
                stored.spec.parent_refs@[i].namespace->0@
            } else {
                stored.namespace@
            }) != cfg.namespace->0@) ==> !is_ours(cfg, stored),
{
    assert forall|i: int|
        0 <= i < stored.spec.parent_refs@.len() && cfg.gateway_name is Some && (
        #[trigger] stored.spec.parent_refs@[i]).name@ == cfg.gateway_name->0@ && (
        cfg.namespace is None || cfg.namespace->0@ == (
        if stored.spec.parent_refs@[i].namespace is Some {
            stored.spec.parent_refs@[i].namespace->0@
        } else {
            stored.namespace@
        })) implies is_ours(cfg, stored) by {
        assert(crate::lb_core::gateway::parent_is_ours(
            cfg.gateway_name->0@,
            crate::lb_core::route_table::optional_text(cfg.namespace),
            stored.spec.parent_refs@[i],
            stored.namespace@,
        ));
    }
}

// ---------------------------------------------------------------------------
// Filters
// ---------------------------------------------------------------------------

/// Whether modifiers are those of a header filter: one for each header that it sets, then
/// one for each that it adds, then one for each that it removes.
pub open spec fn spells(mods: Seq<HeaderModifier>, h: HeaderFilter) -> bool {
    let (s, a, r) = (h.set@.len(), h.add@.len(), h.remove@.len());
    &&& mods.len() == s + a + r
    &&& forall|i: int|
        0 <= i < s ==> (#[trigger] mods[i]) == (HeaderModifier::Put {
            name: h.set@[i].name,
            value: h.set@[i].value,
        })
    &&& forall|i: int|
        s <= i < s + a ==> (#[trigger] mods[i]) == (HeaderModifier::Add {
            name: h.add@[i - s].name,
            value: h.add@[i - s].value,
        })
    &&& forall|i: int|
        s + a <= i < s + a + r ==> (#[trigger] mods[i]) == (HeaderModifier::Remove {
            name: h.remove@[i - s - a],
        })
}

/// A header filter becomes one modifier for each header that it sets, adds or removes.
pub proof fn lemma_header_filter_is_spelled_out(h: HeaderFilter)
    ensures
        spells(modifiers_of(h), h),
{
}

/// Each filter of a rule adds what its type says and nothing else, in its place: a request
/// header modifier to what is done to requests, a response header modifier to what is done
/// to responses, and any other to neither.
pub proof fn lemma_each_filter_counts(
    a: Seq<HttpRouteFilter>,
    f: HttpRouteFilter,
    c: Seq<HttpRouteFilter>,
    prefix: Seq<char>,
)
    ensures
        ({
            let all = filters_of(a + seq![f] + c, prefix);
            let (x, y) = (filters_of(a, prefix), filters_of(c, prefix));
            &&& f.filter_type@ == "RequestHeaderModifier"@ && f.request_header_modifier is Some
                ==> all.0 == x.0 + modifiers_of(f.request_header_modifier->0) + y.0
            &&& f.filter_type@ != "RequestHeaderModifier"@ ==> all.0 == x.0 + y.0
            &&& f.filter_type@ == "ResponseHeaderModifier"@ && f.response_header_modifier is Some
                ==> all.1 == x.1 + modifiers_of(f.response_header_modifier->0) + y.1
            &&& f.filter_type@ != "ResponseHeaderModifier"@ ==> all.1 == x.1 + y.1
            &&& f.filter_type@ != "URLRewrite"@ ==> all.2 == filters_of(a + c, prefix).2
        }),
    decreases c.len(),
{
    let all = a + seq![f] + c;
    if c.len() == 0 {
        assert(all.drop_last() =~= a);
        assert(all.last() == f);
        assert(a + c =~= a);
        let (x, y) = (filters_of(a, prefix), filters_of(c, prefix));
        assert(x.0 + y.0 =~= x.0);
        assert(x.1 + y.1 =~= x.1);
        assert(x.0 + Seq::<HeaderModifier>::empty() =~= x.0);
        assert(x.1 + Seq::<HeaderModifier>::empty() =~= x.1);
        if f.request_header_modifier is Some {
            let own = modifiers_of(f.request_header_modifier->0);
            assert(x.0 + own + y.0 =~= x.0 + own);
        }
        if f.response_header_modifier is Some {
            let own = modifiers_of(f.response_header_modifier->0);
            assert(x.1 + own + y.1 =~= x.1 + own);
        }
    } else {
        let init = c.drop_last();
        lemma_each_filter_counts(a, f, init, prefix);
        assert(all.drop_last() =~= a + seq![f] + init);
        assert(all.last() == c.last());
        assert((a + c).drop_last() =~= a + init);
        let (x, y, z) = (
            filters_of(a, prefix),
            filters_of(init, prefix),
            filters_of(c, prefix),
        );
        let (p, q) = (
            crate::lb_core::gateway::request_modifiers(c.last()),
            crate::lb_core::gateway::response_modifiers(c.last()),
        );
        assert(x.0 + y.0 + p =~= x.0 + z.0);
        assert(x.1 + y.1 + q =~= x.1 + z.1);
        if f.request_header_modifier is Some {
            let own = modifiers_of(f.request_header_modifier->0);
            assert(x.0 + own + y.0 + p =~= x.0 + own + z.0);
        }
        if f.response_header_modifier is Some {
            let own = modifiers_of(f.response_header_modifier->0);
            assert(x.1 + own + y.1 + q =~= x.1 + own + z.1);
        }
    }
}

/// A rewrite of the matched prefix puts its replacement in the place of what the route
/// matched and leaves the rest of the path alone; one of the full path puts its replacement
/// in the place of all of it. The last rewrite of a rule decides.
pub proof fn lemma_rewrites_do_what_they_say(
    a: Seq<HttpRouteFilter>,
    f: HttpRouteFilter,
    prefix: Seq<char>,
    rest: Seq<char>,
    path: Seq<char>,
    p: UrlRewritePath,
)
    requires
        f.filter_type@ == "URLRewrite"@,
        f.url_rewrite is Some,
        f.url_rewrite->0.path == Some(p),
        rest.len() > 0 ==> rest[0] == '/',
    ensures
        ({
            let rewrite = filters_of(a.push(f), prefix).2;
            &&& p.path_type@ == "ReplacePrefixMatch"@ && p.replace_prefix_match is Some ==> ({
                let base = without_trailing(p.replace_prefix_match->0@, '/');
                rewritten(rewrite, without_trailing(prefix, '/') + rest) == (if base.len() == 0
                    && rest.len() == 0 {
                    seq!['/']
                } else {
                    base + rest
                })
            })
            &&& p.path_type@ == "ReplaceFullPath"@ && p.replace_full_path is Some ==> rewritten(
                rewrite,
                path,
            ) == p.replace_full_path->0@
        }),
{
    let all = a.push(f);
    assert(all.drop_last() =~= a);
    reveal_strlit("ReplacePrefixMatch");
    reveal_strlit("ReplaceFullPath");
    assert("ReplacePrefixMatch"@.len() != "ReplaceFullPath"@.len());
    let bare = without_trailing(prefix, '/');
    let whole = bare + rest;
    assert(whole.take(bare.len() as int) =~= bare);
    assert(whole.skip(bare.len() as int) =~= rest);
    if p.path_type@ == "ReplacePrefixMatch"@ && p.replace_prefix_match is Some {
        let base = without_trailing(p.replace_prefix_match->0@, '/');
        assert(base + rest =~= if rest.len() == 0 {
            base
        } else {
            base + rest
        });
        assert(Seq::<char>::empty() + seq!['/'] =~= seq!['/']);
        if base.len() == 0 {
            assert(base =~= Seq::empty());
        }
    }
}

// ---------------------------------------------------------------------------
// Events
// ---------------------------------------------------------------------------

/// A route that is reported is known under its key from then on, with what was reported of
/// it; one that is gone is not known any more; all others stay as they were. Either way the
/// table must be rebuilt.
pub proof fn lemma_route_events_take_effect(
    routes: Seq<StoredRoute>,
    event: RouteEvent,
    namespace: Seq<char>,
    name: Seq<char>,
)
    requires
        crate::lb_core::gateway::routes_distinct(routes),
    ensures
        ({
            let (after, dirty) = after_route_event(routes, event);
            let k = crate::lb_core::gateway::route_position(after, namespace, name);
            let before = crate::lb_core::gateway::route_position(routes, namespace, name);
            let same = (k < after.len()) == (before < routes.len()) && (before < routes.len()
                ==> after[k] == routes[before]);
            match event {
                RouteEvent::Apply { namespace: Some(ns), name: Some(n), spec: Some(spec) } => {
                    &&& dirty
                    &&& if ns@ == namespace && n@ == name {
                        k < after.len() && after[k].spec == spec && after[k].namespace == ns
                            && after[k].name == n
                    } else {
                        same
                    }
                },
                RouteEvent::Delete { namespace: Some(ns), name: Some(n) } => {
                    &&& dirty
                    &&& if ns@ == namespace && n@ == name {
                        k == after.len()
                    } else {
                        same
                    }
                },
                RouteEvent::Init => !dirty && after.len() == 0,
                RouteEvent::InitDone => dirty && same,
                _ => !dirty && same,
            }
        }),
{
    match event {
        RouteEvent::Apply { namespace: Some(ns), name: Some(n), spec: Some(spec) } => {
            crate::lb_core::gateway::lemma_put_route_is_found(
                routes,
                StoredRoute { namespace: ns, name: n, spec },
                namespace,
                name,
            );
        },
        RouteEvent::Delete { namespace: Some(ns), name: Some(n) } => {
            crate::lb_core::gateway::lemma_dropped_route_is_gone(
                routes,
                ns@,
                n@,
                namespace,
                name,
            );
        },
        _ => {},
    }
}

/// What is reported of a Service's endpoints is known from then on, and what is known of
/// other Services stays as it was.
pub proof fn lemma_reported_endpoints_are_known(
    services: Seq<ServiceEndpoints>,
    service: ServiceEndpoints,
    namespace: Seq<char>,
    name: Seq<char>,
)
    ensures
        known_endpoints(service_put(services, service), namespace, name) == (
        if service.namespace@ == namespace && service.service@ == name {
            service.endpoints@
        } else {
            known_endpoints(services, namespace, name)
        }),
{
    let after = service_put(services, service);
    lemma_service_position(after, namespace, name);
    lemma_service_position(services, namespace, name);
    lemma_service_position(services, service.namespace@, service.service@);
    let p = crate::lb_core::gateway::service_position(
        services,
        service.namespace@,
        service.service@,
    );
    let k = crate::lb_core::gateway::service_position(after, namespace, name);
    let before = crate::lb_core::gateway::service_position(services, namespace, name);
    assert(after[p] == service);
    assert(forall|i: int| 0 <= i < services.len() && i != p ==> after[i] == services[i]);
    if service.namespace@ == namespace && service.service@ == name {
        assert(k <= p);
    } else {
        if before < services.len() {
            assert(after[before] == services[before]);
            assert(k <= before);
            assert(after[k].namespace@ == namespace && after[k].service@ == name);
        }
        if k < after.len() {
            assert(k != p);
            assert(services[k] == after[k]);
        }
    }
}

/// The endpoints of a Service that is gone are not known any more, and what is known of
/// other Services stays as it was.
pub proof fn lemma_gone_endpoints_are_forgotten(
    services: Seq<ServiceEndpoints>,
    gone_ns: Seq<char>,
    gone: Seq<char>,
    namespace: Seq<char>,
    name: Seq<char>,
)
    requires
        services_distinct(services),
    ensures
        known_endpoints(service_dropped(services, gone_ns, gone), namespace, name) == (
        if gone_ns == namespace && gone == name {
            Seq::empty()
        } else {
            known_endpoints(services, namespace, name)
        }),
{
    let after = service_dropped(services, gone_ns, gone);
    lemma_service_position(after, namespace, name);
    lemma_service_position(services, namespace, name);
    lemma_service_position(services, gone_ns, gone);
    let p = crate::lb_core::gateway::service_position(services, gone_ns, gone);
    let k = crate::lb_core::gateway::service_position(after, namespace, name);
    let before = crate::lb_core::gateway::service_position(services, namespace, name);
    if p < services.len() {
        assert(forall|i: int| 0 <= i < p ==> after[i] == services[i]);
        assert(forall|i: int| p <= i < after.len() ==> after[i] == services[i + 1]);
        if k < after.len() {
            let at = if k < p {
                k
            } else {
                k + 1
            };
            assert(after[k] == services[at]);
        }
        if before < services.len() && before != p {
            let at = if before < p {
                before
            } else {
                before - 1
            };
            assert(after[at] == services[before]);
        }
    }
}

/// A slice that is reported makes its Service's ready endpoints known, and one that is gone
/// makes them unknown; what is known of other Services stays as it was. Either way the
/// table must be rebuilt.
pub proof fn lemma_slice_events_take_effect(
    before: Seq<ServiceEndpoints>,
    after: Seq<ServiceEndpoints>,
    event: SliceEvent,
    dirty: bool,
    namespace: Seq<char>,
    name: Seq<char>,
)
    requires
        services_distinct(before),
        slice_event_done(before, after, event, dirty),
    ensures
        ({
            let now = known_endpoints(after, namespace, name);
            let same = now == known_endpoints(before, namespace, name);
            match event {
                SliceEvent::Apply(s) => if s.namespace is Some && s.service_name is Some {
                    &&& dirty
                    &&& if s.namespace->0@ == namespace && s.service_name->0@ == name {
                        now.len() == ready_pairs(s.endpoints@, known_ports(s.ports@)).len()
                            && forall|i: int|
                            0 <= i < now.len() ==> ready_pairs(
                                s.endpoints@,
                                known_ports(s.ports@),
                            )[i] == ((#[trigger] now[i]).address@, now[i].port)
                    } else {
                        same
                    }
                } else {
                    !dirty && same
                },
                SliceEvent::Delete(s) => if s.namespace is Some && s.service_name is Some {
                    &&& dirty
                    &&& if s.namespace->0@ == namespace && s.service_name->0@ == name {
                        now.len() == 0
                    } else {
                        same
                    }
                } else {
                    !dirty && same
                },
                SliceEvent::Init => !dirty && after.len() == 0,
                SliceEvent::InitDone => dirty && same,
            }
        }),
{
    match event {
        SliceEvent::Apply(s) => if s.namespace is Some && s.service_name is Some {
            let service = choose|x: ServiceEndpoints|
                {
                    &&& after == #[trigger] service_put(before, x)
                    &&& x.namespace@ == s.namespace->0@
                    &&& x.service@ == s.service_name->0@
                    &&& pairs_of(x.endpoints@) == ready_pairs(s.endpoints@, known_ports(s.ports@))
                };
            lemma_reported_endpoints_are_known(before, service, namespace, name);
            let all = pairs_of(service.endpoints@);
            assert forall|i: int| 0 <= i < service.endpoints@.len() implies all[i] == (
                (#[trigger] service.endpoints@[i]).address@,
                service.endpoints@[i].port,
            ) by {}
        },
        SliceEvent::Delete(s) => if s.namespace is Some && s.service_name is Some {
            lemma_gone_endpoints_are_forgotten(
                before,
                s.namespace->0@,
                s.service_name->0@,
                namespace,
                name,
            );
        },
        _ => {},
    }
}

/// Whether a slice lists an address and a port, at a ready endpoint.
pub open spec fn lists(
    endpoints: Seq<SliceEndpoint>,
    ports: Seq<Option<i32>>,
    address: Seq<char>,
    port: i32,
) -> bool {
    &&& ports.contains(Some(port))
    &&& exists|e: int, a: int|
        0 <= e < endpoints.len() && endpoints[e].ready != Some(false) && 0 <= a
            < endpoints[e].addresses@.len() && (#[trigger] endpoints[e].addresses@[a])@ == address
}

proof fn lemma_ports(ports: Seq<Option<i32>>, port: i32)
    ensures
        known_ports(ports).contains(port) <==> ports.contains(Some(port)),
    decreases ports.len(),
{
    let out = known_ports(ports);
    if ports.len() > 0 {
        let init = ports.drop_last();
        let before = known_ports(init);
        lemma_ports(init, port);
        if out.contains(port) {
            let i = choose|i: int| 0 <= i < out.len() && out[i] == port;
            if i < before.len() {
                assert(before[i] == port);
                let k = choose|k: int| 0 <= k < init.len() && init[k] == Some(port);
                assert(ports[k] == Some(port));
            } else {
                assert(ports[ports.len() - 1] == Some(port));
            }
        }
        if ports.contains(Some(port)) {
            let k = choose|k: int| 0 <= k < ports.len() && ports[k] == Some(port);
            if k < init.len() {
                assert(init[k] == Some(port));
                let i = choose|i: int| 0 <= i < before.len() && before[i] == port;
                assert(out[i] == port);
            } else {
                assert(out[out.len() - 1] == port);
            }
        }
    }
}

proof fn lemma_addresses(addresses: Seq<String>, ports: Seq<i32>, address: Seq<char>, port: i32)
    ensures
        crate::lb_core::gateway::address_pairs(addresses, ports).contains((address, port)) <==>
            ports.contains(port) && exists|a: int|
            0 <= a < addresses.len() && (#[trigger] addresses[a])@ == address,
    decreases addresses.len(),
{
    let out = crate::lb_core::gateway::address_pairs(addresses, ports);
    if addresses.len() > 0 {
        let init = addresses.drop_last();
        let before = crate::lb_core::gateway::address_pairs(init, ports);
        lemma_addresses(init, ports, address, port);
        let goal = (address, port);
        if out.contains(goal) {
            let i = choose|i: int| 0 <= i < out.len() && out[i] == goal;
            if i < before.len() {
                assert(before[i] == goal);
                let a = choose|a: int| 0 <= a < init.len() && (#[trigger] init[a])@ == address;
                assert(addresses[a]@ == address);
            } else {
                assert(ports[i - before.len()] == port);
                assert(addresses[addresses.len() - 1]@ == address);
            }
        }
        if ports.contains(port) && exists|a: int|
            0 <= a < addresses.len() && (#[trigger] addresses[a])@ == address {
            let a = choose|a: int| 0 <= a < addresses.len() && (#[trigger] addresses[a])@ == address;
            if a < init.len() {
                assert(init[a]@ == address);
                let i = choose|i: int| 0 <= i < before.len() && before[i] == goal;
                assert(out[i] == goal);
            } else {
                let p = choose|p: int| 0 <= p < ports.len() && ports[p] == port;
                assert(out[before.len() + p] == goal);
            }
        }
    }
}

/// What is known of a slice's endpoints is every address of every ready one with every
/// port that is known, and nothing else.
pub proof fn lemma_ready_endpoints_are_listed(
    endpoints: Seq<SliceEndpoint>,
    ports: Seq<Option<i32>>,
    address: Seq<char>,
    port: i32,
)
    ensures
        ready_pairs(endpoints, known_ports(ports)).contains((address, port)) <==> lists(
            endpoints,
            ports,
            address,
            port,
        ),
    decreases endpoints.len(),
{
    let known = known_ports(ports);
    let out = ready_pairs(endpoints, known);
    let goal = (address, port);
    lemma_ports(ports, port);
    if endpoints.len() > 0 {
        let init = endpoints.drop_last();
        let before = ready_pairs(init, known);
        lemma_ready_endpoints_are_listed(init, ports, address, port);
        let last = endpoints.last();
        lemma_addresses(last.addresses@, known, address, port);
        let own = crate::lb_core::gateway::address_pairs(last.addresses@, known);
        if out.contains(goal) {
            let i = choose|i: int| 0 <= i < out.len() && out[i] == goal;
            if i < before.len() {
                assert(before[i] == goal);
                let (e, a) = choose|e: int, a: int|
                    0 <= e < init.len() && init[e].ready != Some(false) && 0 <= a
                        < init[e].addresses@.len() && (#[trigger] init[e].addresses@[a])@ == address;
                assert(endpoints[e].addresses@[a]@ == address);
            } else {
                assert(own[i - before.len()] == goal);
                let a = choose|a: int|
                    0 <= a < last.addresses@.len() && (#[trigger] last.addresses@[a])@ == address;
                assert(endpoints[endpoints.len() - 1].addresses@[a]@ == address);
            }
        }
        if lists(endpoints, ports, address, port) {
            let (e, a) = choose|e: int, a: int|
                0 <= e < endpoints.len() && endpoints[e].ready != Some(false) && 0 <= a
                    < endpoints[e].addresses@.len() && (#[trigger] endpoints[e].addresses@[a])@
                    == address;
            if e < init.len() {
                assert(init[e].addresses@[a]@ == address);
                let i = choose|i: int| 0 <= i < before.len() && before[i] == goal;
                assert(out[i] == goal);
            } else {
                assert(last.addresses@[a]@ == address);
                let i = choose|i: int| 0 <= i < own.len() && own[i] == goal;
                assert(out[before.len() + i] == goal);
            }
        }
    }
}

} // verus!
