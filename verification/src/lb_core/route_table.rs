//! Gateway API route table.
//!
//! Layout mirrors how a request is actually matched:
//!
//! ```text
//!   Host header ──lowercase+port strip──> exact map ──> path router ──> RouteAction
//!                                      └> wildcard suffix walk ──┘
//!                                      └> default router ────────┘
//! ```
//!
//! The control plane publishes a whole new table on every reconcile, so a route
//! churn burst never blocks or even slows a request thread.

use matchit::Router;
use vstd::hash_map::StringHashMap;
use vstd::prelude::*;
use vstd::string::*;
use vstd::utf8::encode_utf8;

use crate::lb_core::filter::{Filters, RouteFilters};
use crate::lb_core::matcher::{
    all_plain, is_best, lemma_best_is_unique, new_router, param_count, pattern_matched, patterns_of,
    router_at, router_attempts, router_insert, MAX_PARAMS, MAX_PATTERNS,
};
use crate::lb_core::simd::{host_without_port, without_port};
use crate::lb_core::target::{
    cycle_of, endpoints_of, members_of, weights_of, BackendEndpoint, Endpoint, TargetGroup,
};
use crate::text::{
    begins_with, chars_of, ends_with, find_char, joined, lemma_position, lower_text, position_of,
    starts_with, string_of, strip_suffix, texts, to_lower, trim_end_matches, without_trailing,
};

verus! {

/// Longest hostname, in bytes, that is matched case-insensitively. RFC 1035 caps
/// a DNS name at 253 octets, so this never bites in practice; longer values match
/// case-sensitively.
pub const MAX_HOST_LEN: usize = 256;

/// What a route does with a request: the members of its backend group, the order
/// in which they take turns, its filters and its name.
pub struct Action {
    pub members: Seq<Endpoint>,
    pub cycle: Seq<int>,
    pub filters: Filters,
    pub name: Seq<char>,
}

/// Routes in the order in which they were installed: pattern and what it leads to.
pub type RoutesTo<A> = Seq<(Seq<char>, A)>;

/// Routes that lead to actions.
pub type Routes = RoutesTo<Action>;

/// A matched routing action.
#[derive(Debug)]
pub struct RouteAction {
    /// Upstream load balancing target group.
    pub target_group: TargetGroup,
    /// Pipeline of request and response filters, pre-compiled at build time.
    pub filters: RouteFilters,
    /// Route identifier, for logging and churn attribution.
    pub route_name: String,
}

impl View for RouteAction {
    type V = Action;

    open spec fn view(&self) -> Action {
        Action {
            members: self.target_group.members(),
            cycle: self.target_group.cycle(),
            filters: self.filters@,
            name: self.route_name@,
        }
    }
}

impl Clone for RouteAction {
    fn clone(&self) -> (r: Self)
        ensures
            r == *self,
    {
        Self {
            target_group: self.target_group.clone(),
            filters: self.filters.clone(),
            route_name: self.route_name.clone(),
        }
    }
}

/// The patterns of a list of routes.
pub open spec fn route_patterns<A>(routes: RoutesTo<A>) -> Seq<Seq<char>> {
    Seq::new(routes.len(), |i: int| routes[i].0)
}

/// What the route that the path router picks for a path leads to.
pub open spec fn route_found<A>(routes: RoutesTo<A>, path: Seq<char>) -> Option<A> {
    match pattern_matched(route_patterns(routes), path) {
        Some(i) => if 0 <= i < routes.len() {
            Some(routes[i].1)
        } else {
            None
        },
        None => None,
    }
}

/// What the route that a path belongs to leads to, where all patterns are plain: the
/// route that reaches furthest into the path, and of equal ones the first.
pub open spec fn plain_route<A>(routes: RoutesTo<A>, path: Seq<char>) -> Option<A> {
    if exists|i: int| is_best(route_patterns(routes), path, i) {
        Some(routes[choose|i: int| is_best(route_patterns(routes), path, i)].1)
    } else {
        None
    }
}

/// Whether the router takes a pattern at all.
pub open spec fn installable(pattern: Seq<char>) -> bool {
    param_count(pattern) <= MAX_PARAMS
}

/// The routes of a list that are installed.
pub open spec fn installed<A>(routes: RoutesTo<A>) -> RoutesTo<A>
    decreases routes.len(),
{
    if routes.len() == 0 {
        Seq::empty()
    } else {
        let before = installed(routes.drop_last());
        if installable(routes.last().0) && before.len() < MAX_PATTERNS {
            before.push(routes.last())
        } else {
            before
        }
    }
}

/// [`param_count`], as far as it matters.
fn is_installable(pattern: &str) -> (r: bool)
    ensures
        r == installable(pattern@),
{
    let chars = chars_of(pattern);
    let n: usize = chars.len();
    let mut count: usize = 0;
    let mut i: usize = 0;
    assert(pattern@.skip(0) =~= pattern@);
    while i < n
        invariant
            i <= n == chars@.len(),
            chars@ == pattern@,
            count <= i,
            count + param_count(pattern@.skip(i as int)) == param_count(pattern@),
        decreases n - i,
    {
        let ghost rest = pattern@.skip(i as int);
        assert(rest.skip(1) =~= pattern@.skip(i + 1));
        if i + 1 < n && chars[i] == chars[i + 1] && (chars[i] == '{' || chars[i] == '}') {
            assert(rest.skip(2) =~= pattern@.skip(i + 2));
            i = i + 2;
        } else if n - i > 2 && chars[i] == '}' && chars[i + 1] == '{' && chars[i + 2] == '{' {
            assert(rest.skip(3) =~= pattern@.skip(i + 3));
            count = count + 1;
            i = i + 3;
        } else {
            if chars[i] == '{' && !(i + 1 < n && chars[i + 1] == '*') {
                count = count + 1;
            }
            i = i + 1;
        }
    }
    count <= MAX_PARAMS
}

/// A per-host path router.
#[derive(Debug)]
pub struct HostRouter {
    /// Radix-tree router from pattern to position in `actions`.
    router: Router<usize>,
    /// The action of each pattern that was offered to the router.
    actions: Vec<RouteAction>,
}

impl View for HostRouter {
    type V = Routes;

    closed spec fn view(&self) -> Routes {
        Seq::new(
            self.actions@.len(),
            |i: int| (router_attempts(self.router)[i].0, self.actions@[i]@),
        )
    }
}

impl HostRouter {
    /// The group that each pattern draws its backends from.
    pub closed spec fn groups(&self) -> RoutesTo<TargetGroup> {
        Seq::new(
            self.actions@.len(),
            |i: int| (router_attempts(self.router)[i].0, self.actions@[i].target_group),
        )
    }

    /// Every pattern offered to the router leads to its own action.
    pub closed spec fn wf(&self) -> bool {
        &&& router_attempts(self.router).len() == self.actions@.len()
        &&& self.actions@.len() <= MAX_PATTERNS
        &&& forall|i: int|
            0 <= i < self.actions@.len() ==> (#[trigger] router_attempts(self.router)[i]).1 == i
    }

    fn new() -> (r: Self)
        ensures
            r.wf(),
            r@ == Seq::<(Seq<char>, Action)>::empty(),
            r.groups() == Seq::<(Seq<char>, TargetGroup)>::empty(),
    {
        let r = Self { router: new_router(), actions: Vec::new() };
        assert(r@ =~= Seq::<(Seq<char>, Action)>::empty());
        assert(r.groups() =~= Seq::<(Seq<char>, TargetGroup)>::empty());
        r
    }

    /// Install a route. A pattern that the router cannot hold is passed over; one
    /// that conflicts with an earlier one leaves that in place.
    fn insert(&mut self, pattern: &str, action: RouteAction)
        requires
            old(self).wf(),
        ensures
            final(self).wf(),
            final(self)@ == (if installable(pattern@) && old(self)@.len() < MAX_PATTERNS {
                old(self)@.push((pattern@, action@))
            } else {
                old(self)@
            }),
            final(self).groups() == (if installable(pattern@) && old(self)@.len() < MAX_PATTERNS {
                old(self).groups().push((pattern@, action.target_group))
            } else {
                old(self).groups()
            }),
            old(self).groups().len() == old(self)@.len(),
    {
        let ghost before = self@;
        let ghost drawn = self.groups();
        if is_installable(pattern) && self.actions.len() < MAX_PATTERNS {
            let value: usize = self.actions.len();
            router_insert(&mut self.router, pattern, value);
            self.actions.push(action);
            assert(self@ =~= before.push((pattern@, action@)));
            assert(self.groups() =~= drawn.push((pattern@, action.target_group)));
        }
    }

    fn at(&self, path: &str) -> (r: Option<&RouteAction>)
        requires
            self.wf(),
        ensures
            r is Some <==> route_found(self@, path@) is Some,
            r matches Some(action) ==> Some(action@) == route_found(self@, path@),
            group_in(r) == route_found(self.groups(), path@),
            all_plain(route_patterns(self@)) ==> {
                &&& r is Some <==> plain_route(self@, path@) is Some
                &&& r matches Some(action) ==> Some(action@) == plain_route(self@, path@)
            },
    {
        let ghost patterns = patterns_of(router_attempts(self.router));
        assert(patterns =~= route_patterns(self@));
        assert(patterns =~= route_patterns(self.groups()));
        match router_at(&self.router, path) {
            Some(i) => {
                proof {
                    if all_plain(patterns) {
                        let k = choose|k: int|
                            #[trigger] is_best(patterns, path@, k) && i == router_attempts(
                                self.router,
                            )[k].1;
                        let chosen = choose|k: int| is_best(patterns, path@, k);
                        lemma_best_is_unique(patterns, path@, k, chosen);
                    }
                }
                Some(&self.actions[i])
            },
            None => {
                proof {
                    if all_plain(patterns) {
                        assert forall|k: int| !is_best(patterns, path@, k) by {
                            if 0 <= k < patterns.len() {
                                assert(patterns[k] == router_attempts(self.router)[k].0);
                            }
                        }
                    }
                }
                None
            },
        }
    }
}

/// The group that an action draws its backends from.
pub open spec fn group_in(action: Option<&RouteAction>) -> Option<TargetGroup> {
    match action {
        Some(action) => Some(action.target_group),
        None => None,
    }
}

/// The host that a route is for.
pub enum Host {
    /// This host, in lower case.
    Exact(Seq<char>),
    /// Every host that ends in this, which starts with a dot.
    Wildcard(Seq<char>),
    /// Any host.
    Any,
}

/// What a route table holds: for each host that has any, its routes.
pub struct TableOf<A> {
    pub exact: Map<Seq<char>, RoutesTo<A>>,
    pub wildcard: Map<Seq<char>, RoutesTo<A>>,
    pub fallback: RoutesTo<A>,
    pub count: nat,
}

/// A table of routes that lead to actions.
pub type Table = TableOf<Action>;

/// A table without routes.
pub open spec fn empty_table() -> Table {
    TableOf { exact: Map::empty(), wildcard: Map::empty(), fallback: Seq::empty(), count: 0 }
}

/// The form in which a `Host` value is looked up.
pub open spec fn normal_host(host: Seq<char>) -> Seq<char> {
    if encode_utf8(without_port(host)).len() <= MAX_HOST_LEN {
        lower_text(without_port(host))
    } else {
        without_port(host)
    }
}

/// The path that is matched: an empty one is the root.
pub open spec fn normal_path(path: Seq<char>) -> Seq<char> {
    if path.len() == 0 {
        seq!['/']
    } else {
        path
    }
}

/// The route of a host, if the host has routes and one of them matches.
/// `plain` tells which account of path matching to go by.
pub open spec fn host_route<A>(
    hosts: Map<Seq<char>, RoutesTo<A>>,
    host: Seq<char>,
    path: Seq<char>,
    plain: bool,
) -> Option<A> {
    if !hosts.contains_key(host) {
        None
    } else if plain {
        plain_route(hosts[host], path)
    } else {
        route_found(hosts[host], path)
    }
}

/// The route of the longest wildcard that `rest` falls under: the suffixes that
/// begin at a dot are tried from the longest on.
pub open spec fn wildcard_route<A>(
    hosts: Map<Seq<char>, RoutesTo<A>>,
    rest: Seq<char>,
    path: Seq<char>,
    plain: bool,
) -> Option<A>
    decreases rest.len(),
{
    let dot = position_of(rest, '.');
    if !(0 <= dot < rest.len()) {
        None
    } else {
        match host_route(hosts, rest.skip(dot), path, plain) {
            Some(action) => Some(action),
            None => wildcard_route(hosts, rest.skip(dot + 1), path, plain),
        }
    }
}

/// The route for a host and a path: that of the exact host, else that of the
/// longest wildcard, else that of the routes without a host. A host that matches
/// but has no route for the path does not end the search.
pub open spec fn table_route<A>(
    table: TableOf<A>,
    host: Option<Seq<char>>,
    path: Seq<char>,
    plain: bool,
) -> Option<A> {
    let p = normal_path(path);
    let last = if plain {
        plain_route(table.fallback, p)
    } else {
        route_found(table.fallback, p)
    };
    match host {
        None => last,
        Some(h) => match host_route(table.exact, normal_host(h), p, plain) {
            Some(action) => Some(action),
            None => match wildcard_route(table.wildcard, normal_host(h), p, plain) {
                Some(action) => Some(action),
                None => last,
            },
        },
    }
}

/// Whether every pattern of a table is literal text with at most the wildcard at
/// its end.
pub open spec fn table_is_plain<A>(table: TableOf<A>) -> bool {
    &&& forall|h: Seq<char>| #[trigger]
        table.exact.contains_key(h) ==> all_plain(route_patterns(table.exact[h]))
    &&& forall|h: Seq<char>| #[trigger]
        table.wildcard.contains_key(h) ==> all_plain(route_patterns(table.wildcard[h]))
    &&& all_plain(route_patterns(table.fallback))
}

/// The compiled routing table. Immutable once built; replaced wholesale.
pub struct RouteTable {
    /// Position of each exact hostname's router, keys in lower case.
    exact_hosts: StringHashMap<usize>,
    /// Position of each wildcard's router (`".example.com"` serves
    /// `*.example.com`).
    wildcard_hosts: StringHashMap<usize>,
    /// The routers of all hostnames.
    routers: Vec<HostRouter>,
    /// Fallback router used when no hostname matches.
    default_router: HostRouter,
    /// Number of routes across all hosts, for reconcile logging.
    route_count: usize,
}

spec fn hosts_of(index: Map<Seq<char>, usize>, routers: Seq<HostRouter>) -> Map<Seq<char>, Routes> {
    Map::new(|h: Seq<char>| index.contains_key(h), |h: Seq<char>| routers[index[h] as int]@)
}

spec fn groups_of(
    index: Map<Seq<char>, usize>,
    routers: Seq<HostRouter>,
) -> Map<Seq<char>, RoutesTo<TargetGroup>> {
    Map::new(
        |h: Seq<char>| index.contains_key(h),
        |h: Seq<char>| routers[index[h] as int].groups(),
    )
}

spec fn index_ok(index: Map<Seq<char>, usize>, routers: Seq<HostRouter>) -> bool {
    forall|h: Seq<char>| #[trigger] index.contains_key(h) ==> index[h] < routers.len()
}

impl View for RouteTable {
    type V = Table;

    closed spec fn view(&self) -> Table {
        TableOf {
            exact: hosts_of(self.exact_hosts@, self.routers@),
            wildcard: hosts_of(self.wildcard_hosts@, self.routers@),
            fallback: self.default_router@,
            count: self.route_count as nat,
        }
    }
}

impl Default for RouteTable {
    fn default() -> (r: Self)
        ensures
            r@ == empty_table(),
    {
        Self::empty()
    }
}

impl RouteTable {
    /// The group that each route draws its backends from. Routes that draw from the
    /// same group take turns on one cursor.
    pub closed spec fn groups(&self) -> TableOf<TargetGroup> {
        TableOf {
            exact: groups_of(self.exact_hosts@, self.routers@),
            wildcard: groups_of(self.wildcard_hosts@, self.routers@),
            fallback: self.default_router.groups(),
            count: self.route_count as nat,
        }
    }

    #[verifier::type_invariant]
    spec fn well_formed(&self) -> bool {
        &&& index_ok(self.exact_hosts@, self.routers@)
        &&& index_ok(self.wildcard_hosts@, self.routers@)
        &&& forall|i: int| 0 <= i < self.routers@.len() ==> (#[trigger] self.routers@[i]).wf()
        &&& self.default_router.wf()
    }

    /// A table without routes.
    #[must_use]
    pub fn empty() -> (r: Self)
        ensures
            r@ == empty_table(),
    {
        let r = Self {
            exact_hosts: StringHashMap::new(),
            wildcard_hosts: StringHashMap::new(),
            routers: Vec::new(),
            default_router: HostRouter::new(),
            route_count: 0,
        };
        assert(r@.exact =~= Map::<Seq<char>, Routes>::empty());
        assert(r@.wildcard =~= Map::<Seq<char>, Routes>::empty());
        r
    }

    /// Look up a route for a `Host` header and request path.
    ///
    /// Precedence follows the Gateway API spec: exact hostname, then the longest
    /// matching wildcard, then the hostname-less default. A host that matches but
    /// whose path does not falls through to the next tier rather than 404-ing, so
    /// a catch-all default route still applies.
    #[must_use]
    pub fn lookup(&self, host: Option<&str>, path: &str) -> (r: Option<&RouteAction>)
        ensures
            r is Some <==> table_route(self@, host_text(host), path@, false) is Some,
            r matches Some(action) ==> Some(action@) == table_route(
                self@,
                host_text(host),
                path@,
                false,
            ),
            group_in(r) == table_route(self.groups(), host_text(host), path@, false),
            table_is_plain(self@) ==> {
                &&& r is Some <==> table_route(self@, host_text(host), path@, true) is Some
                &&& r matches Some(action) ==> Some(action@) == table_route(
                    self@,
                    host_text(host),
                    path@,
                    true,
                )
            },
    {
        proof {
            use_type_invariant(self);
            reveal_strlit("/");
            assert("/"@ =~= seq!['/']);
        }
        let clean_path: &str = if path.is_empty() {
            "/"
        } else {
            path
        };
        assert(clean_path@ == normal_path(path@));
        let ghost plain = table_is_plain(self@);

        if let Some(raw_host) = host {
            // `Host` is case-insensitive.
            let stripped = host_without_port(raw_host);
            let normalized: String = if stripped.as_bytes().len() <= MAX_HOST_LEN {
                to_lower(stripped)
            } else {
                stripped.to_owned()
            };
            assert(normalized@ == normal_host(raw_host@));

            // 1. Exact hostname.
            let exact = self.route_at(&self.exact_hosts, normalized.as_str(), clean_path);
            if exact.is_some() {
                return exact;
            }

            // 2. Wildcard suffixes, most specific first:
            //    "a.b.example.com" tries ".b.example.com", then ".example.com",
            //    then ".com".
            if !self.wildcard_hosts.is_empty() {
                let chars = chars_of(normalized.as_str());
                let mut from: usize = 0;
                assert(normalized@.skip(0) =~= normalized@);
                loop
                    invariant_except_break
                        wildcard_route(
                            self@.wildcard,
                            normalized@.skip(from as int),
                            clean_path@,
                            false,
                        ) == wildcard_route(self@.wildcard, normalized@, clean_path@, false),
                        wildcard_route(
                            self.groups().wildcard,
                            normalized@.skip(from as int),
                            clean_path@,
                            false,
                        ) == wildcard_route(
                            self.groups().wildcard,
                            normalized@,
                            clean_path@,
                            false,
                        ),
                        plain ==> wildcard_route(
                            self@.wildcard,
                            normalized@.skip(from as int),
                            clean_path@,
                            true,
                        ) == wildcard_route(self@.wildcard, normalized@, clean_path@, true),
                    invariant
                        from <= chars@.len(),
                        chars@ == normalized@,
                        plain == table_is_plain(self@),
                        self.well_formed(),
                        host == Some(raw_host),
                        clean_path@ == normal_path(path@),
                        normalized@ == normal_host(raw_host@),
                        host_route(self@.exact, normalized@, clean_path@, false) is None,
                        host_route(self.groups().exact, normalized@, clean_path@, false) is None,
                        plain ==> host_route(self@.exact, normalized@, clean_path@, true) is None,
                    ensures
                        wildcard_route(self@.wildcard, normalized@, clean_path@, false) is None,
                        wildcard_route(
                            self.groups().wildcard,
                            normalized@,
                            clean_path@,
                            false,
                        ) is None,
                        plain ==> wildcard_route(
                            self@.wildcard,
                            normalized@,
                            clean_path@,
                            true,
                        ) is None,
                    decreases chars@.len() - from,
                {
                    let ghost rest = normalized@.skip(from as int);
                    proof {
                        lemma_position(rest, '.');
                    }
                    let dot: usize = find_char(&chars, '.', from);
                    if dot >= chars.len() {
                        break;
                    }
                    let suffix = string_of(&chars, dot, chars.len());
                    assert(suffix@ =~= rest.skip(dot - from));
                    let wildcard = self.route_at(
                        &self.wildcard_hosts,
                        suffix.as_str(),
                        clean_path,
                    );
                    if wildcard.is_some() {
                        return wildcard;
                    }
                    assert(rest.skip(dot - from + 1) =~= normalized@.skip(dot + 1));
                    from = dot + 1;
                }
            } else {
                proof {
                    lemma_no_wildcards(self@.wildcard, normalized@, clean_path@, false);
                    lemma_no_wildcards(self@.wildcard, normalized@, clean_path@, true);
                    lemma_no_wildcards(self.groups().wildcard, normalized@, clean_path@, false);
                }
            }
        }

        // 3. Hostname-less default routes.
        self.default_router.at(clean_path)
    }

    /// The route of a host, if the host has routes and one of them matches.
    fn route_at(&self, index: &StringHashMap<usize>, host: &str, path: &str) -> (r: Option<
        &RouteAction,
    >)
        requires
            self.well_formed(),
            index_ok(index@, self.routers@),
        ensures
            ({
                let hosts = hosts_of(index@, self.routers@);
                &&& r is Some <==> host_route(hosts, host@, path@, false) is Some
                &&& r matches Some(action) ==> Some(action@) == host_route(
                    hosts,
                    host@,
                    path@,
                    false,
                )
                &&& group_in(r) == host_route(
                    groups_of(index@, self.routers@),
                    host@,
                    path@,
                    false,
                )
                &&& hosts.contains_key(host@) && all_plain(route_patterns(hosts[host@])) ==> {
                    &&& r is Some <==> host_route(hosts, host@, path@, true) is Some
                    &&& r matches Some(action) ==> Some(action@) == host_route(
                        hosts,
                        host@,
                        path@,
                        true,
                    )
                }
            }),
    {
        match index.get(host) {
            Some(i) => self.routers[*i].at(path),
            None => None,
        }
    }

    /// Total number of routes installed.
    #[must_use]
    pub fn len(&self) -> (r: usize)
        ensures
            r == self@.count,
    {
        self.route_count
    }

    #[must_use]
    pub fn is_empty(&self) -> (r: bool)
        ensures
            r == (self@.count == 0),
    {
        self.route_count == 0
    }
}

/// The text of an optional `Host` value.
pub open spec fn host_text(host: Option<&str>) -> Option<Seq<char>> {
    match host {
        Some(h) => Some(h@),
        None => None,
    }
}

/// A table without wildcard hosts has no wildcard route.
pub proof fn lemma_no_wildcards<A>(
    hosts: Map<Seq<char>, RoutesTo<A>>,
    rest: Seq<char>,
    path: Seq<char>,
    plain: bool,
)
    requires
        forall|h: Seq<char>| !hosts.contains_key(h),
    ensures
        wildcard_route(hosts, rest, path, plain) is None,
    decreases rest.len(),
{
    let dot = position_of(rest, '.');
    if 0 <= dot < rest.len() {
        lemma_no_wildcards(hosts, rest.skip(dot + 1), path, plain);
    }
}

/// How a path pattern from the control plane should be matched.
#[derive(Debug, Clone, Copy, PartialEq, Eq, Structural)]
pub enum PathMatch {
    /// Gateway API `PathPrefix`: matches the prefix and everything below it.
    Prefix,
    /// Gateway API `Exact`: matches only this path.
    Exact,
}

/// What precedes the shorthand (`/*`, `/*path` or `/*catchall`) at the end of a
/// path, if it has one.
pub open spec fn before_shorthand(path: Seq<char>) -> Option<Seq<char>> {
    if ends_with(path, "/*catchall"@) {
        Some(path.take(path.len() - "/*catchall"@.len()))
    } else if ends_with(path, "/*path"@) {
        Some(path.take(path.len() - "/*path"@.len()))
    } else if ends_with(path, "/*"@) {
        Some(path.take(path.len() - "/*"@.len()))
    } else {
        None
    }
}

/// The patterns of a prefix: the bare prefix, the prefix with a trailing slash,
/// and everything below it. The root is its own trailing slash.
pub open spec fn prefix_patterns(base: Seq<char>) -> Seq<Seq<char>> {
    let bare = without_trailing(base, '/');
    if bare.len() == 0 {
        seq![seq!['/'], seq!['/'] + "{*catchall}"@]
    } else {
        seq![bare, bare + seq!['/'], bare + seq!['/'] + "{*catchall}"@]
    }
}

/// The patterns that a control-plane path stands for. A shorthand at its end
/// makes it a prefix, and an empty path is the root.
pub open spec fn expanded(path: Seq<char>, kind: PathMatch) -> Seq<Seq<char>> {
    match before_shorthand(path) {
        Some(base) => prefix_patterns(normal_path(base)),
        None => if kind is Exact {
            seq![normal_path(path)]
        } else {
            prefix_patterns(normal_path(path))
        },
    }
}

/// Translate a control-plane path pattern into the router patterns it needs.
///
/// A `PathPrefix` of `/api` must match `/api`, `/api/`, and `/api/v1/x`, which
/// takes several patterns, because the wildcard of the last one requires at least
/// one character. The historical shorthands (`/*`, `/*path`, `/*catchall`) are
/// prefix matches.
pub fn expand_pattern(path: &str, kind: PathMatch) -> (r: Vec<String>)
    ensures
        texts(r@) == expanded(path@, kind),
{
    proof {
        reveal_strlit("/");
        reveal_strlit("{*catchall}");
        reveal_strlit("/{*catchall}");
        assert("/"@ =~= seq!['/']);
        assert("/{*catchall}"@ =~= seq!['/'] + "{*catchall}"@);
    }
    let mut shorthand: Option<String> = strip_suffix(path, "/*catchall");
    if shorthand.is_none() {
        shorthand = strip_suffix(path, "/*path");
    }
    if shorthand.is_none() {
        shorthand = strip_suffix(path, "/*");
    }
    let forced_prefix = shorthand.is_some();
    let mut base: String = match shorthand {
        Some(stripped) => stripped,
        None => path.to_owned(),
    };
    if base.as_str().is_empty() {
        base = "/".to_owned();
    }
    assert(forced_prefix ==> base@ == normal_path(before_shorthand(path@)->0));
    assert(!forced_prefix ==> base@ == normal_path(path@));
    let mut out: Vec<String> = Vec::new();
    if kind == PathMatch::Exact && !forced_prefix {
        out.push(base);
        assert(texts(out@) =~= expanded(path@, kind));
        return out;
    }
    let bare = trim_end_matches(base.as_str(), '/');
    if bare.as_str().is_empty() {
        // Root prefix: the bare "/" plus everything under it.
        out.push("/".to_owned());
        out.push("/{*catchall}".to_owned());
    } else {
        //   /api               the bare prefix
        //   /api/              the prefix with a trailing slash
        //   /api/{*catchall}   everything below it
        let below = joined(bare.as_str(), "/{*catchall}");
        let slash = joined(bare.as_str(), "/");
        assert(below@ =~= bare@ + seq!['/'] + "{*catchall}"@);
        out.push(bare);
        out.push(slash);
        out.push(below);
    }
    assert(texts(out@) =~= prefix_patterns(base@));
    out
}

/// One route as supplied by the control plane, before compilation.
#[derive(Debug)]
pub struct RouteSpec {
    pub hostname: Option<String>,
    pub path: String,
    pub path_match: PathMatch,
    pub endpoints: Vec<BackendEndpoint>,
    pub filters: RouteFilters,
    pub route_name: String,
}

/// What the text of an optional string is.
pub open spec fn optional_text(s: Option<String>) -> Option<Seq<char>> {
    match s {
        Some(text) => Some(text@),
        None => None,
    }
}

/// The host that a hostname of the control plane stands for.
pub open spec fn host_of(hostname: Option<Seq<char>>) -> Host {
    match hostname {
        None => Host::Any,
        Some(h) => if h == "*"@ {
            Host::Any
        } else if begins_with(h, "*."@) {
            Host::Wildcard(lower_text(h.skip(1)))
        } else {
            Host::Exact(lower_text(h))
        },
    }
}

/// The action of a route that spreads over the given endpoints.
pub open spec fn action_for(
    endpoints: Seq<Endpoint>,
    filters: Filters,
    name: Seq<char>,
) -> Action {
    Action {
        members: members_of(endpoints),
        cycle: cycle_of(weights_of(members_of(endpoints))),
        filters,
        name,
    }
}

/// A route on its way into a table: host, pattern and what it leads to.
pub type EntryTo<A> = (Host, Seq<char>, A);

/// A route that leads to an action.
pub type Entry = EntryTo<Action>;

/// One entry for each pattern, all of which lead to the same.
pub open spec fn entries_for<A>(host: Host, patterns: Seq<Seq<char>>, to: A) -> Seq<EntryTo<A>> {
    Seq::new(patterns.len(), |i: int| (host, patterns[i], to))
}

/// The entries that a route specification adds.
pub open spec fn spec_entries(spec: RouteSpec) -> Seq<Entry> {
    def_entries(
        RouteDef {
            hostname: optional_text(spec.hostname),
            path: spec.path@,
            kind: spec.path_match,
            endpoints: endpoints_of(spec.endpoints@),
            filters: spec.filters@,
            name: spec.route_name@,
        },
    )
}

/// A route as the control plane defines it.
pub struct RouteDef {
    pub hostname: Option<Seq<char>>,
    pub path: Seq<char>,
    pub kind: PathMatch,
    pub endpoints: Seq<Endpoint>,
    pub filters: Filters,
    pub name: Seq<char>,
}

/// The entries that a route adds.
pub open spec fn def_entries(def: RouteDef) -> Seq<Entry> {
    entries_for(
        host_of(def.hostname),
        expanded(def.path, def.kind),
        action_for(def.endpoints, def.filters, def.name),
    )
}

/// The entries that a list of routes adds.
pub open spec fn all_entries(defs: Seq<RouteDef>) -> Seq<Entry>
    decreases defs.len(),
{
    if defs.len() == 0 {
        Seq::empty()
    } else {
        all_entries(defs.drop_last()) + def_entries(defs.last())
    }
}

/// Whether a route was added whose patterns, for a host, all draw from one group.
pub open spec fn one_group_more(
    before: Seq<EntryTo<TargetGroup>>,
    after: Seq<EntryTo<TargetGroup>>,
    host: Host,
    patterns: Seq<Seq<char>>,
) -> bool {
    exists|group: TargetGroup| after == before + #[trigger] entries_for(host, patterns, group)
}

/// A count, as far as a machine word holds it.
pub open spec fn capped(n: nat) -> nat {
    if n <= usize::MAX {
        n
    } else {
        usize::MAX as nat
    }
}

/// The table that a list of routes makes up.
pub open spec fn table_for(defs: Seq<RouteDef>) -> Table {
    table_of(all_entries(defs), capped(defs.len()))
}

/// Lists of routes add their entries one list after the other.
pub proof fn lemma_all_entries_concat(a: Seq<RouteDef>, b: Seq<RouteDef>)
    ensures
        all_entries(a + b) == all_entries(a) + all_entries(b),
    decreases b.len(),
{
    if b.len() == 0 {
        assert(a + b =~= a);
        assert(all_entries(a) + all_entries(b) =~= all_entries(a));
    } else {
        lemma_all_entries_concat(a, b.drop_last());
        assert((a + b).drop_last() =~= a + b.drop_last());
        assert(all_entries(a + b) =~= all_entries(a) + all_entries(b));
    }
}

/// The routes of one host among the entries, in order.
pub open spec fn routes_for<A>(entries: Seq<EntryTo<A>>, host: Host) -> RoutesTo<A>
    decreases entries.len(),
{
    if entries.len() == 0 {
        Seq::empty()
    } else {
        let before = routes_for(entries.drop_last(), host);
        if entries.last().0 == host {
            before.push((entries.last().1, entries.last().2))
        } else {
            before
        }
    }
}

/// Whether any entry is for the host.
pub open spec fn mentions<A>(entries: Seq<EntryTo<A>>, host: Host) -> bool {
    exists|i: int| 0 <= i < entries.len() && (#[trigger] entries[i]).0 == host
}

/// The table that entries make up.
pub open spec fn table_of<A>(entries: Seq<EntryTo<A>>, count: nat) -> TableOf<A> {
    TableOf {
        exact: Map::new(
            |h: Seq<char>| mentions(entries, Host::Exact(h)),
            |h: Seq<char>| installed(routes_for(entries, Host::Exact(h))),
        ),
        wildcard: Map::new(
            |h: Seq<char>| mentions(entries, Host::Wildcard(h)),
            |h: Seq<char>| installed(routes_for(entries, Host::Wildcard(h))),
        ),
        fallback: installed(routes_for(entries, Host::Any)),
        count,
    }
}

#[derive(Debug)]
enum HostKey {
    Exact(String),
    Wildcard(String),
    Any,
}

impl View for HostKey {
    type V = Host;

    closed spec fn view(&self) -> Host {
        match *self {
            HostKey::Exact(h) => Host::Exact(h@),
            HostKey::Wildcard(h) => Host::Wildcard(h@),
            HostKey::Any => Host::Any,
        }
    }
}

impl HostKey {
    fn copy(&self) -> (r: Self)
        ensures
            r@ == self@,
    {
        match self {
            HostKey::Exact(h) => HostKey::Exact(h.clone()),
            HostKey::Wildcard(h) => HostKey::Wildcard(h.clone()),
            HostKey::Any => HostKey::Any,
        }
    }
}

#[derive(Debug)]
struct Pending {
    host: HostKey,
    pattern: String,
    action: RouteAction,
}

impl View for Pending {
    type V = Entry;

    closed spec fn view(&self) -> Entry {
        (self.host@, self.pattern@, self.action@)
    }
}

/// Builder that compiles [`RouteSpec`]s into an immutable [`RouteTable`].
#[derive(Debug)]
pub struct RouteTableBuilder {
    pending: Vec<Pending>,
    route_count: usize,
}

impl Default for RouteTableBuilder {
    fn default() -> (r: Self)
        ensures
            r.entries() == Seq::<Entry>::empty(),
            r.groups() == Seq::<EntryTo<TargetGroup>>::empty(),
            r.count() == 0,
    {
        Self::new()
    }
}

impl RouteTableBuilder {
    /// The entries added so far.
    pub closed spec fn entries(&self) -> Seq<Entry> {
        Seq::new(self.pending@.len(), |i: int| self.pending@[i]@)
    }

    /// The groups that the entries added so far draw their backends from.
    pub closed spec fn groups(&self) -> Seq<EntryTo<TargetGroup>> {
        Seq::new(
            self.pending@.len(),
            |i: int|
                (
                    self.pending@[i].host@,
                    self.pending@[i].pattern@,
                    self.pending@[i].action.target_group,
                ),
        )
    }

    /// The number of routes added so far.
    pub closed spec fn count(&self) -> nat {
        self.route_count as nat
    }

    /// A builder without routes.
    #[must_use]
    pub fn new() -> (r: Self)
        ensures
            r.entries() == Seq::<Entry>::empty(),
            r.groups() == Seq::<EntryTo<TargetGroup>>::empty(),
            r.count() == 0,
    {
        let r = Self { pending: Vec::new(), route_count: 0 };
        assert(r.entries() =~= Seq::<Entry>::empty());
        assert(r.groups() =~= Seq::<EntryTo<TargetGroup>>::empty());
        r
    }

    /// Add a prefix-matched route. Convenience wrapper over [`Self::add`].
    pub fn add_route(
        &mut self,
        hostname: Option<&str>,
        path_pattern: &str,
        endpoints: Vec<BackendEndpoint>,
        filters: RouteFilters,
        route_name: &str,
    ) -> (r: &mut Self)
        ensures
            (*r).entries() == old(self).entries() + entries_for(
                host_of(host_text(hostname)),
                expanded(path_pattern@, PathMatch::Prefix),
                action_for(endpoints_of(endpoints@), filters@, route_name@),
            ),
            one_group_more(
                old(self).groups(),
                (*r).groups(),
                host_of(host_text(hostname)),
                expanded(path_pattern@, PathMatch::Prefix),
            ),
            (*r).count() == capped(old(self).count() + 1),
            *final(self) == *final(r),
    {
        let hostname: Option<String> = match hostname {
            Some(h) => Some(h.to_owned()),
            None => None,
        };
        self.add(
            RouteSpec {
                hostname,
                path: path_pattern.to_owned(),
                path_match: PathMatch::Prefix,
                endpoints,
                filters,
                route_name: route_name.to_owned(),
            },
        )
    }

    /// Add a fully specified route.
    pub fn add(&mut self, spec: RouteSpec) -> (r: &mut Self)
        ensures
            (*r).entries() == old(self).entries() + spec_entries(spec),
            one_group_more(
                old(self).groups(),
                (*r).groups(),
                host_of(optional_text(spec.hostname)),
                expanded(spec.path@, spec.path_match),
            ),
            (*r).count() == capped(old(self).count() + 1),
            *final(self) == *final(r),
    {
        let patterns = expand_pattern(spec.path.as_str(), spec.path_match);
        let ghost shown = texts(patterns@);
        proof {
            reveal_strlit("*.");
        }
        let host: HostKey = match &spec.hostname {
            None => HostKey::Any,
            Some(h) => if h.as_str().eq("*") {
                HostKey::Any
            } else if starts_with(h.as_str(), "*.") {
                let chars = chars_of(h.as_str());
                let suffix = string_of(&chars, 1, chars.len());
                assert(suffix@ =~= h@.skip(1));
                HostKey::Wildcard(to_lower(suffix.as_str()))
            } else {
                HostKey::Exact(to_lower(h.as_str()))
            },
        };
        assert(host@ == host_of(optional_text(spec.hostname)));

        // The patterns of one route share one action: both `TargetGroup` and
        // `RouteFilters` are `Arc`-backed, so cloning them shares the round-robin
        // cursor and the pre-compiled header set rather than duplicating either.
        let ghost action = action_for(
            endpoints_of(spec.endpoints@),
            spec.filters@,
            spec.route_name@,
        );
        let group = TargetGroup::from_endpoints(spec.endpoints);
        let filters = spec.filters;
        let route_name = spec.route_name;

        let ghost before = self.entries();
        let ghost drawn = self.groups();
        let mut i: usize = 0;
        assert(entries_for(host@, shown.take(0), action) =~= Seq::empty());
        assert(before + Seq::<Entry>::empty() =~= before);
        assert(entries_for(host@, shown.take(0), group) =~= Seq::empty());
        assert(drawn + Seq::<EntryTo<TargetGroup>>::empty() =~= drawn);
        while i < patterns.len()
            invariant
                i <= patterns@.len(),
                shown == texts(patterns@),
                group.members() == action.members,
                group.cycle() == action.cycle,
                filters@ == action.filters,
                route_name@ == action.name,
                self.entries() == before + entries_for(host@, shown.take(i as int), action),
                self.groups() == drawn + entries_for(host@, shown.take(i as int), group),
                self.count() == old(self).count(),
            decreases patterns@.len() - i,
        {
            let ghost now = self.entries();
            let ghost now_drawn = self.groups();
            self.pending.push(
                Pending {
                    host: host.copy(),
                    pattern: patterns[i].clone(),
                    action: RouteAction {
                        target_group: group.clone(),
                        filters: filters.clone(),
                        route_name: route_name.clone(),
                    },
                },
            );
            assert(self.entries() =~= now.push((host@, shown[i as int], action)));
            assert(self.groups() =~= now_drawn.push((host@, shown[i as int], group)));
            i = i + 1;
            assert(self.entries() =~= before + entries_for(host@, shown.take(i as int), action));
            assert(self.groups() =~= drawn + entries_for(host@, shown.take(i as int), group));
        }
        assert(shown.take(i as int) =~= shown);
        self.route_count = self.route_count.saturating_add(1);
        assert(self.entries() == before + entries_for(host@, shown, action));
        assert(self.groups() == drawn + entries_for(host@, shown, group));
        self
    }

    /// Compile into an immutable table.
    ///
    /// Duplicate patterns within one hostname are resolved first-wins rather than
    /// failing the whole reconcile: a single malformed `HTTPRoute` must not take
    /// down routing for every other route in the cluster.
    pub fn build(self) -> (r: Result<RouteTable, matchit::InsertError>)
        ensures
            r is Ok,
            r->Ok_0@ == table_of(self.entries(), self.count()),
            r->Ok_0.groups() == table_of(self.groups(), self.count()),
    {
        let ghost all = self.entries();
        let ghost drawn = self.groups();
        let mut exact: StringHashMap<usize> = StringHashMap::new();
        let mut wildcard: StringHashMap<usize> = StringHashMap::new();
        let mut routers: Vec<HostRouter> = Vec::new();
        let mut fallback: HostRouter = HostRouter::new();
        let ghost mut owners: Seq<Host> = Seq::empty();
        let mut i: usize = 0;
        while i < self.pending.len()
            invariant
                i <= self.pending@.len(),
                all == self.entries(),
                drawn == self.groups(),
                fallback.wf(),
                fallback@ == installed(routes_for(all.take(i as int), Host::Any)),
                fallback.groups() == installed(routes_for(drawn.take(i as int), Host::Any)),
                owners.len() == routers@.len(),
                forall|k: int| 0 <= k < routers@.len() ==> (#[trigger] routers@[k]).wf(),
                forall|k: int|
                    0 <= k < routers@.len() ==> (#[trigger] routers@[k])@ == installed(
                        routes_for(all.take(i as int), owners[k]),
                    ),
                forall|k: int|
                    0 <= k < routers@.len() ==> (#[trigger] routers@[k]).groups() == installed(
                        routes_for(drawn.take(i as int), owners[k]),
                    ),
                forall|h: Seq<char>| #[trigger]
                    exact@.contains_key(h) <==> mentions(all.take(i as int), Host::Exact(h)),
                forall|h: Seq<char>| #[trigger]
                    wildcard@.contains_key(h) <==> mentions(all.take(i as int), Host::Wildcard(h)),
                forall|h: Seq<char>| #[trigger]
                    exact@.contains_key(h) ==> exact@[h] < routers@.len() && owners[exact@[h] as int]
                        == Host::Exact(h),
                forall|h: Seq<char>| #[trigger]
                    wildcard@.contains_key(h) ==> wildcard@[h] < routers@.len()
                        && owners[wildcard@[h] as int] == Host::Wildcard(h),
                forall|j: int, k: int|
                    0 <= j < owners.len() && 0 <= k < owners.len() && owners[j] == owners[k] ==> j
                        == k,
                forall|k: int| 0 <= k < owners.len() ==> !((#[trigger] owners[k]) is Any),
                forall|k: int|
                    0 <= k < owners.len() ==> mentions(all.take(i as int), #[trigger] owners[k]),
            decreases self.pending@.len() - i,
        {
            let p = &self.pending[i];
            let ghost old_part = all.take(i as int);
            let ghost part = all.take(i + 1);
            let ghost old_drawn = drawn.take(i as int);
            let ghost drawn_part = drawn.take(i + 1);
            proof {
                assert(part.drop_last() =~= old_part);
                assert(part.last() == p@);
                lemma_mentions_grow(old_part, p@);
                assert(part =~= old_part.push(p@));
                assert(drawn_part.drop_last() =~= old_drawn);
                assert(drawn_part.last() == (p.host@, p.pattern@, p.action.target_group));
            }
            let slot: Option<usize> = match &p.host {
                HostKey::Any => None,
                HostKey::Exact(h) => match exact.get(h.as_str()) {
                    Some(k) => Some(*k),
                    None => {
                        let fresh: usize = routers.len();
                        exact.insert(h.clone(), fresh);
                        proof {
                            lemma_no_routes(old_part, p@.0);
                            lemma_same_mentions(old_part, old_drawn, p@.0);
                            lemma_no_routes(old_drawn, p@.0);
                            owners = owners.push(p@.0);
                        }
                        routers.push(HostRouter::new());
                        Some(fresh)
                    },
                },
                HostKey::Wildcard(h) => match wildcard.get(h.as_str()) {
                    Some(k) => Some(*k),
                    None => {
                        let fresh: usize = routers.len();
                        wildcard.insert(h.clone(), fresh);
                        proof {
                            lemma_no_routes(old_part, p@.0);
                            lemma_same_mentions(old_part, old_drawn, p@.0);
                            lemma_no_routes(old_drawn, p@.0);
                            owners = owners.push(p@.0);
                        }
                        routers.push(HostRouter::new());
                        Some(fresh)
                    },
                },
            };
            assert(slot matches Some(k) ==> k < routers@.len() && owners[k as int] == p@.0);
            assert(slot is None <==> p@.0 is Any);
            assert forall|k: int| 0 <= k < routers@.len() implies (#[trigger] routers@[k])@
                == installed(routes_for(old_part, owners[k])) && routers@[k].wf()
                && routers@[k].groups() == installed(routes_for(old_drawn, owners[k])) by {}
            assert forall|j: int, k: int|
                0 <= j < owners.len() && 0 <= k < owners.len() && owners[j] == owners[k] implies j
                == k by {}
            let ghost held = routers@;
            match slot {
                None => {
                    fallback.insert(p.pattern.as_str(), p.action.clone());
                },
                Some(k) => {
                    let ghost before = routers@;
                    routers[k].insert(p.pattern.as_str(), p.action.clone());
                    assert(routers@ =~= before.update(k as int, routers@[k as int]));
                },
            }
            proof {
                assert forall|k: int| 0 <= k < routers@.len() implies (
                #[trigger] routers@[k])@ == installed(routes_for(part, owners[k]))
                    && routers@[k].groups() == installed(routes_for(drawn_part, owners[k])) by {
                    assert(held[k]@ == installed(routes_for(old_part, owners[k])));
                    assert(held[k].groups() == installed(routes_for(old_drawn, owners[k])));
                    if owners[k] == p@.0 {
                        assert(routes_for(drawn_part, owners[k]).drop_last() =~= routes_for(
                            old_drawn,
                            owners[k],
                        ));
                        assert(routes_for(part, owners[k]).drop_last() =~= routes_for(
                            old_part,
                            owners[k],
                        ));
                        assert(slot == Some(k as usize));
                    } else {
                        assert(routes_for(part, owners[k]) == routes_for(old_part, owners[k]));
                        assert(routes_for(drawn_part, owners[k]) == routes_for(
                            old_drawn,
                            owners[k],
                        ));
                        assert(routers@[k] == held[k]);
                    }
                }
                if p@.0 is Any {
                    assert(routes_for(part, Host::Any).drop_last() =~= routes_for(
                        old_part,
                        Host::Any,
                    ));
                    assert(routes_for(drawn_part, Host::Any).drop_last() =~= routes_for(
                        old_drawn,
                        Host::Any,
                    ));
                }
            }
            i = i + 1;
        }
        assert(all.take(i as int) =~= all);
        assert(drawn.take(i as int) =~= drawn);
        let table = RouteTable {
            exact_hosts: exact,
            wildcard_hosts: wildcard,
            routers,
            default_router: fallback,
            route_count: self.route_count,
        };
        proof {
            let goal = table_of(all, self.count());
            assert(table@.exact =~= goal.exact);
            assert(table@.wildcard =~= goal.wildcard);
            let shared = table_of(drawn, self.count());
            assert forall|host: Host| #[trigger] mentions(all, host) == mentions(drawn, host) by {
                lemma_same_mentions(all, drawn, host);
            }
            assert(table.groups().exact =~= shared.exact);
            assert(table.groups().wildcard =~= shared.wildcard);
        }
        Ok(table)
    }
}

proof fn lemma_mentions_grow<A>(entries: Seq<EntryTo<A>>, more: EntryTo<A>)
    ensures
        forall|host: Host| #[trigger]
            mentions(entries.push(more), host) <==> mentions(entries, host) || host == more.0,
{
    assert forall|host: Host| #[trigger] mentions(entries.push(more), host) <==> mentions(
        entries,
        host,
    ) || host == more.0 by {
        let grown = entries.push(more);
        if mentions(entries, host) {
            let i = choose|i: int| 0 <= i < entries.len() && (#[trigger] entries[i]).0 == host;
            assert(grown[i].0 == host);
        }
        if host == more.0 {
            assert(grown[entries.len() as int].0 == host);
        }
        if mentions(grown, host) && host != more.0 {
            let i = choose|i: int| 0 <= i < grown.len() && (#[trigger] grown[i]).0 == host;
            assert(entries[i].0 == host);
        }
    }
}

/// Entries for the same hosts mention the same hosts.
proof fn lemma_same_mentions<A, B>(a: Seq<EntryTo<A>>, b: Seq<EntryTo<B>>, host: Host)
    requires
        a.len() == b.len(),
        forall|i: int| #![trigger a[i]] #![trigger b[i]] 0 <= i < a.len() ==> a[i].0 == b[i].0,
    ensures
        mentions(a, host) == mentions(b, host),
{
    if mentions(a, host) {
        let i = choose|i: int| 0 <= i < a.len() && (#[trigger] a[i]).0 == host;
        assert(b[i].0 == host);
    }
    if mentions(b, host) {
        let i = choose|i: int| 0 <= i < b.len() && (#[trigger] b[i]).0 == host;
        assert(a[i].0 == host);
    }
}

proof fn lemma_no_routes<A>(entries: Seq<EntryTo<A>>, host: Host)
    requires
        !mentions(entries, host),
    ensures
        routes_for(entries, host) == Seq::<(Seq<char>, A)>::empty(),
    decreases entries.len(),
{
    if entries.len() > 0 {
        assert(entries[entries.len() - 1].0 != host);
        assert(!mentions(entries.drop_last(), host)) by {
            if mentions(entries.drop_last(), host) {
                let i = choose|i: int|
                    0 <= i < entries.drop_last().len() && (#[trigger] entries.drop_last()[i]).0
                        == host;
                assert(entries[i].0 == host);
            }
        }
        lemma_no_routes(entries.drop_last(), host);
    }
}

} // verus!
