//! What route lookup promises as a whole.

use vstd::prelude::*;
use vstd::utf8::encode_utf8;

use crate::lb_core::matcher::{
    catch_all, covers, has_brace, is_best, is_plain, is_prefix_pattern, lemma_best_exists,
    param_count, reach, MAX_PATTERNS,
};
use crate::lb_core::filter::no_filters;
use crate::lb_core::route_table::{
    action_for, all_entries, def_entries, entries_for, expanded, host_route, installable, installed,
    lemma_no_wildcards, mentions, normal_host, normal_path, one_group_more, plain_route, prefix_patterns,
    route_found, route_patterns, routes_for, table_for, table_is_plain, table_of, table_route,
    wildcard_route, Action, Entry, EntryTo, Host, PathMatch, RouteDef, Routes, RoutesTo, Table,
    MAX_HOST_LEN,
};
use crate::lb_core::target::{Endpoint, TargetGroup};
use crate::lb_core::simd::{lemma_port_is_stripped_once, without_port};
use crate::text::{begins_with, position_of, same_ignoring_case, without_trailing};

verus! {

/// Whether a path is the prefix `bare` itself or lies below it, by whole
/// segments. Everything lies below the empty prefix.
pub open spec fn below(bare: Seq<char>, path: Seq<char>) -> bool {
    path == bare && bare.len() > 0 || begins_with(path, bare + seq!['/'])
}

/// An exact host comes first, then the longest wildcard, then the routes without
/// a host; a tier without a route for the path passes the request on.
pub proof fn lemma_precedence(table: Table, host: Seq<char>, path: Seq<char>, plain: bool)
    ensures
        ({
            let p = normal_path(path);
            let exact = host_route(table.exact, normal_host(host), p, plain);
            let wildcard = wildcard_route(table.wildcard, normal_host(host), p, plain);
            let found = table_route(table, Some(host), path, plain);
            &&& exact is Some ==> found == exact
            &&& exact is None && wildcard is Some ==> found == wildcard
            &&& exact is None && wildcard is None ==> found == table_route(
                table,
                None,
                path,
                plain,
            )
        }),
{
}

/// Of the wildcards that a host falls under, the longest that has a route wins.
pub proof fn lemma_longest_wildcard_wins(
    hosts: Map<Seq<char>, Routes>,
    host: Seq<char>,
    path: Seq<char>,
    plain: bool,
    dot: int,
)
    requires
        0 <= dot < host.len(),
        host[dot] == '.',
        host_route(hosts, host.skip(dot), path, plain) is Some,
        forall|d: int|
            0 <= d < dot && #[trigger] host[d] == '.' ==> host_route(
                hosts,
                host.skip(d),
                path,
                plain,
            ) is None,
    ensures
        wildcard_route(hosts, host, path, plain) == host_route(hosts, host.skip(dot), path, plain),
    decreases host.len(),
{
    crate::text::lemma_position(host, '.');
    let k = position_of(host, '.');
    if k != dot {
        assert(k < dot);
        assert(host[k] == '.');
        let rest = host.skip(k + 1);
        assert forall|d: int| 0 <= d < dot - k - 1 && #[trigger] rest[d] == '.' implies host_route(
            hosts,
            rest.skip(d),
            path,
            plain,
        ) is None by {
            assert(host[k + 1 + d] == '.');
            assert(rest.skip(d) =~= host.skip(k + 1 + d));
        }
        assert(rest.skip(dot - k - 1) =~= host.skip(dot));
        lemma_longest_wildcard_wins(hosts, rest, path, plain, dot - k - 1);
    }
}

/// Host matching ignores case and port: hosts that differ in nothing else find
/// the same route.
pub proof fn lemma_host_case_and_port_do_not_matter(
    table: Table,
    a: Seq<char>,
    b: Seq<char>,
    path: Seq<char>,
    plain: bool,
)
    requires
        same_ignoring_case(without_port(a), without_port(b)),
        encode_utf8(without_port(a)).len() <= MAX_HOST_LEN,
        encode_utf8(without_port(b)).len() <= MAX_HOST_LEN,
    ensures
        table_route(table, Some(a), path, plain) == table_route(table, Some(b), path, plain),
{
}

/// A port changes nothing, however long the host is.
pub proof fn lemma_port_does_not_matter(
    table: Table,
    host: Seq<char>,
    path: Seq<char>,
    plain: bool,
)
    ensures
        table_route(table, Some(host), path, plain) == table_route(
            table,
            Some(without_port(host)),
            path,
            plain,
        ),
{
    lemma_port_is_stripped_once(host);
}

/// An empty path is the root.
pub proof fn lemma_empty_path_is_root(table: Table, host: Option<Seq<char>>, plain: bool)
    ensures
        table_route(table, host, Seq::empty(), plain) == table_route(
            table,
            host,
            seq!['/'],
            plain,
        ),
{
}

/// Of routes with the same pattern the first wins: the route that a path belongs
/// to has no equal before it.
pub proof fn lemma_first_wins(patterns: Seq<Seq<char>>, path: Seq<char>, i: int, j: int)
    requires
        is_best(patterns, path, i),
        0 <= j < patterns.len(),
        patterns[j] == patterns[i],
    ensures
        i <= j,
{
    assert(covers(patterns[j], path));
}

proof fn lemma_literal(pattern: Seq<char>)
    requires
        !has_brace(pattern),
    ensures
        !is_prefix_pattern(pattern),
        reach(pattern) == pattern.len(),
{
    reveal_strlit("{*catchall}");
    if is_prefix_pattern(pattern) {
        let k = pattern.len() - catch_all().len();
        assert(pattern.skip(k)[0] == catch_all()[0]);
        assert(pattern[k] == '{');
        assert(pattern.contains('{'));
    }
}

proof fn lemma_wildcard(base: Seq<char>)
    requires
        base.len() > 0,
    ensures
        is_prefix_pattern(base + catch_all()),
        reach(base + catch_all()) == base.len(),
        (base + catch_all()).take(base.len() as int) == base,
{
    let pattern = base + catch_all();
    assert(pattern.skip(base.len() as int) =~= catch_all());
    assert(pattern.take(base.len() as int) =~= base);
}

proof fn lemma_no_brace_parts(base: Seq<char>)
    requires
        !has_brace(base),
    ensures
        !has_brace(without_trailing(base, '/')),
        !has_brace(without_trailing(base, '/') + seq!['/']),
    decreases base.len(),
{
    if base.len() > 0 && base.last() == '/' {
        let init = base.drop_last();
        assert(!has_brace(init)) by {
            if has_brace(init) {
                let i = choose|i: int|
                    0 <= i < init.len() && (init[i] == '{' || init[i] == '}');
                assert(base[i] == init[i]);
            }
        }
        lemma_no_brace_parts(init);
    } else {
        let longer = base + seq!['/'];
        assert(!has_brace(longer)) by {
            if has_brace(longer) {
                let i = choose|i: int|
                    0 <= i < longer.len() && (longer[i] == '{' || longer[i] == '}');
                if i < base.len() {
                    assert(base[i] == longer[i]);
                }
            }
        }
    }
}

/// Which paths the patterns of a prefix match: the prefix itself and what lies
/// below it, by whole segments.
pub proof fn lemma_prefix_patterns_cover(base: Seq<char>, path: Seq<char>)
    requires
        !has_brace(base),
    ensures
        (exists|i: int|
            0 <= i < prefix_patterns(base).len() && covers(#[trigger] prefix_patterns(base)[i], path))
            <==> below(without_trailing(base, '/'), path),
        forall|i: int|
            0 <= i < prefix_patterns(base).len() ==> is_plain(#[trigger] prefix_patterns(base)[i]),
{
    let bare = without_trailing(base, '/');
    let slash = bare + seq!['/'];
    let ps = prefix_patterns(base);
    lemma_no_brace_parts(base);
    lemma_literal(bare);
    lemma_literal(slash);
    lemma_wildcard(slash);
    assert(bare.take(bare.len() as int) =~= bare);
    assert(slash.take(slash.len() as int) =~= slash);
    if bare.len() == 0 {
        assert(slash =~= seq!['/']);
        assert(ps[0] == slash && ps[1] == slash + catch_all());
    } else {
        assert(ps[0] == bare && ps[1] == slash && ps[2] == slash + catch_all());
    }
    if below(bare, path) {
        if path == bare && bare.len() > 0 {
            assert(covers(ps[0], path));
        } else if path == slash {
            assert(covers(ps[ps.len() - 2], path));
        } else {
            assert(path.len() > slash.len()) by {
                if path.len() == slash.len() {
                    assert(path.take(slash.len() as int) =~= path);
                }
            }
            assert(covers(ps[ps.len() - 1], path));
        }
    }
    if exists|i: int| 0 <= i < ps.len() && covers(#[trigger] ps[i], path) {
        let i = choose|i: int| 0 <= i < ps.len() && covers(#[trigger] ps[i], path);
        if path == slash {
            assert(path.take(slash.len() as int) =~= slash);
        }
    }
}

/// A table whose routes include a prefix serves the prefix itself, the prefix
/// with a trailing slash, and everything below it.
pub proof fn lemma_prefix_serves_everything_below(
    routes: Routes,
    base: Seq<char>,
    path: Seq<char>,
)
    requires
        !has_brace(base),
        forall|i: int|
            0 <= i < prefix_patterns(base).len() ==> route_patterns(routes).contains(
                #[trigger] prefix_patterns(base)[i],
            ),
        below(without_trailing(base, '/'), path),
    ensures
        plain_route(routes, path) is Some,
{
    lemma_prefix_patterns_cover(base, path);
    let i = choose|i: int|
        0 <= i < prefix_patterns(base).len() && covers(#[trigger] prefix_patterns(base)[i], path);
    let ps = route_patterns(routes);
    assert(ps.contains(prefix_patterns(base)[i]));
    let k = choose|k: int| 0 <= k < ps.len() && ps[k] == prefix_patterns(base)[i];
    let best = lemma_best_exists(ps, path, k);
    assert(is_best(ps, path, best));
}

/// A table whose only route is a prefix serves nothing else: matching is by
/// whole segments.
pub proof fn lemma_prefix_is_segment_aligned(routes: Routes, base: Seq<char>, path: Seq<char>)
    requires
        !has_brace(base),
        route_patterns(routes) == prefix_patterns(base),
    ensures
        plain_route(routes, path) is Some <==> below(without_trailing(base, '/'), path),
{
    lemma_prefix_patterns_cover(base, path);
    let ps = route_patterns(routes);
    if below(without_trailing(base, '/'), path) {
        let i = choose|i: int| 0 <= i < ps.len() && covers(#[trigger] ps[i], path);
        let best = lemma_best_exists(ps, path, i);
        assert(is_best(ps, path, best));
    }
    if plain_route(routes, path) is Some {
        let i = choose|i: int| is_best(ps, path, i);
        assert(covers(ps[i], path));
    }
}

/// A table whose only route is an exact path serves that path alone.
pub proof fn lemma_exact_serves_itself_alone(routes: Routes, exact: Seq<char>, path: Seq<char>)
    requires
        !has_brace(exact),
        route_patterns(routes) == seq![exact],
    ensures
        plain_route(routes, path) is Some <==> path == exact,
{
    lemma_literal(exact);
    let ps = route_patterns(routes);
    if path == exact {
        assert(covers(ps[0], path));
        let best = lemma_best_exists(ps, path, 0);
        assert(is_best(ps, path, best));
    }
    if plain_route(routes, path) is Some {
        let i = choose|i: int| is_best(ps, path, i);
        assert(covers(ps[i], path));
        assert(ps[i] == exact);
    }
}

/// The root prefix serves every path that starts with a slash.
pub proof fn lemma_root_prefix_serves_all(path: Seq<char>)
    requires
        path.len() > 0,
        path[0] == '/',
    ensures
        below(without_trailing(seq!['/'], '/'), path),
{
    let root = seq!['/'];
    assert(root.drop_last() =~= Seq::empty());
    assert(without_trailing(root, '/') == without_trailing(Seq::empty(), '/'));
    let slash = Seq::<char>::empty() + seq!['/'];
    assert(path.take(1) =~= slash);
}

proof fn lemma_params_bounded(pattern: Seq<char>)
    requires
        forall|i: int|
            0 <= i < pattern.len() && #[trigger] pattern[i] == '{' ==> i + 1 < pattern.len()
                && pattern[i + 1] == '*',
    ensures
        param_count(pattern) == 0,
    decreases pattern.len(),
{
    if pattern.len() > 0 {
        let step: int = if pattern.len() > 1 && pattern[0] == '}' && pattern[1] == '}' {
            2
        } else {
            1
        };
        let rest = pattern.skip(step);
        assert forall|i: int| 0 <= i < rest.len() && #[trigger] rest[i] == '{' implies i + 1
            < rest.len() && rest[i + 1] == '*' by {
            assert(pattern[i + step] == '{');
        }
        if pattern.len() > 1 {
            assert(pattern[1] == '{' ==> pattern.len() > 2 && pattern[2] == '*');
        }
        lemma_params_bounded(rest);
    }
}

/// A plain pattern is always installed.
pub proof fn lemma_plain_is_installable(pattern: Seq<char>)
    requires
        is_plain(pattern),
    ensures
        installable(pattern),
{
    reveal_strlit("{*catchall}");
    let k = reach(pattern);
    assert forall|i: int| 0 <= i < pattern.len() && #[trigger] pattern[i] == '{' implies i + 1
        < pattern.len() && pattern[i + 1] == '*' by {
        if i < k {
            assert(pattern.take(k)[i] == '{');
            assert(pattern.take(k).contains('{'));
        } else {
            assert(pattern.skip(k) == catch_all());
            assert(pattern[i] == catch_all()[i - k]);
            assert(pattern.skip(k)[i - k + 1] == catch_all()[i - k + 1]);
        }
    }
    lemma_params_bounded(pattern);
}

/// Plain routes are all installed, in order.
pub proof fn lemma_plain_routes_installed(routes: Routes)
    requires
        routes.len() <= MAX_PATTERNS,
        forall|i: int| 0 <= i < routes.len() ==> is_plain((#[trigger] routes[i]).0),
    ensures
        installed(routes) == routes,
    decreases routes.len(),
{
    if routes.len() > 0 {
        let init = routes.drop_last();
        assert forall|i: int| 0 <= i < init.len() implies is_plain((#[trigger] init[i]).0) by {
            assert(init[i] == routes[i]);
        }
        lemma_plain_routes_installed(init);
        assert(is_plain(routes[routes.len() - 1].0));
        lemma_plain_is_installable(routes.last().0);
        assert(installed(routes) =~= routes);
    } else {
        assert(installed(routes) =~= routes);
    }
}

proof fn lemma_routes_for_concat(a: Seq<Entry>, b: Seq<Entry>, host: Host)
    ensures
        routes_for(a + b, host) == routes_for(a, host) + routes_for(b, host),
    decreases b.len(),
{
    if b.len() == 0 {
        assert(a + b =~= a);
        assert(routes_for(a, host) + routes_for(b, host) =~= routes_for(a, host));
    } else {
        lemma_routes_for_concat(a, b.drop_last(), host);
        assert((a + b).drop_last() =~= a + b.drop_last());
        assert(routes_for(a + b, host) =~= routes_for(a, host) + routes_for(b, host));
    }
}

proof fn lemma_routes_for_own(host: Host, patterns: Seq<Seq<char>>, action: Action)
    ensures
        routes_for(entries_for(host, patterns, action), host) == Seq::new(
            patterns.len(),
            |i: int| (patterns[i], action),
        ),
    decreases patterns.len(),
{
    let es = entries_for(host, patterns, action);
    if patterns.len() > 0 {
        lemma_routes_for_own(host, patterns.drop_last(), action);
        assert(es.drop_last() =~= entries_for(host, patterns.drop_last(), action));
    }
    assert(routes_for(es, host) =~= Seq::new(patterns.len(), |i: int| (patterns[i], action)));
}

/// A prefix route that was added for any host serves every request below its
/// prefix that no host-specific route takes, whatever else was added.
pub proof fn lemma_added_prefix_is_served(
    before: Seq<Entry>,
    after: Seq<Entry>,
    base: Seq<char>,
    action: Action,
    count: nat,
    host: Option<Seq<char>>,
    path: Seq<char>,
)
    requires
        !has_brace(base),
        path.len() > 0,
        below(without_trailing(base, '/'), path),
        ({
            let all = routes_for(
                before + entries_for(Host::Any, prefix_patterns(base), action) + after,
                Host::Any,
            );
            &&& all.len() <= MAX_PATTERNS
            &&& forall|i: int| 0 <= i < all.len() ==> is_plain((#[trigger] all[i]).0)
        }),
    ensures
        table_route(
            table_of(before + entries_for(Host::Any, prefix_patterns(base), action) + after, count),
            host,
            path,
            true,
        ) is Some,
{
    let own = entries_for(Host::Any, prefix_patterns(base), action);
    let all = routes_for(before + own + after, Host::Any);
    lemma_routes_for_concat(before + own, after, Host::Any);
    lemma_routes_for_concat(before, own, Host::Any);
    lemma_routes_for_own(Host::Any, prefix_patterns(base), action);
    lemma_plain_routes_installed(all);
    let first = routes_for(before, Host::Any).len() as int;
    assert forall|i: int| 0 <= i < prefix_patterns(base).len() implies route_patterns(all).contains(
        #[trigger] prefix_patterns(base)[i],
    ) by {
        assert(all[first + i].0 == prefix_patterns(base)[i]);
        assert(route_patterns(all)[first + i] == prefix_patterns(base)[i]);
    }
    lemma_prefix_serves_everything_below(all, base, path);
}

/// The one route of a table of a single upstream.
pub open spec fn catch_all_def(upstream: Seq<char>) -> RouteDef {
    RouteDef {
        hostname: None,
        path: "/"@,
        kind: PathMatch::Prefix,
        endpoints: seq![Endpoint { address: upstream, weight: 1 }],
        filters: no_filters(),
        name: "default-catchall"@,
    }
}

/// A table of a single upstream sends every host and every path to it.
pub proof fn lemma_single_upstream_serves_all(
    upstream: Seq<char>,
    host: Option<Seq<char>>,
    path: Seq<char>,
)
    requires
        path.len() == 0 || path[0] == '/',
    ensures
        table_is_plain(table_for(seq![catch_all_def(upstream)])),
        table_route(table_for(seq![catch_all_def(upstream)]), host, path, true) == Some(
            action_for(
                seq![Endpoint { address: upstream, weight: 1 }],
                no_filters(),
                "default-catchall"@,
            ),
        ),
{
    let def = catch_all_def(upstream);
    let defs = seq![def];
    let action = action_for(def.endpoints, def.filters, def.name);
    let entries = all_entries(defs);
    let base = seq!['/'];
    let table = table_for(defs);
    assert(defs.drop_last() =~= Seq::empty());
    assert(all_entries(Seq::empty()) == Seq::<Entry>::empty());
    assert(entries =~= def_entries(def));
    reveal_strlit("/");
    reveal_strlit("/*");
    reveal_strlit("/*path");
    reveal_strlit("/*catchall");
    assert("/"@ =~= base);
    assert(expanded("/"@, PathMatch::Prefix) == prefix_patterns(base));
    assert(entries == entries_for(Host::Any, prefix_patterns(base), action));
    lemma_routes_for_own(Host::Any, prefix_patterns(base), action);
    let routes = routes_for(entries, Host::Any);
    assert(!has_brace(base)) by {
        if has_brace(base) {
            let i = choose|i: int| 0 <= i < base.len() && (base[i] == '{' || base[i] == '}');
            assert(base[0] == '/');
        }
    }
    lemma_prefix_patterns_cover(base, normal_path(path));
    lemma_root_prefix_serves_all(normal_path(path));
    assert forall|i: int| 0 <= i < routes.len() implies is_plain((#[trigger] routes[i]).0) by {
        assert(is_plain(prefix_patterns(base)[i]));
    }
    assert(prefix_patterns(base).len() == 2) by {
        assert(base.drop_last() =~= Seq::empty());
        assert(without_trailing(base, '/') == without_trailing(Seq::empty(), '/'));
    }
    lemma_plain_routes_installed(routes);
    assert(table.fallback == routes);
    assert(route_patterns(routes) =~= prefix_patterns(base));
    lemma_prefix_is_segment_aligned(routes, base, normal_path(path));
    let best = choose|i: int| is_best(route_patterns(routes), normal_path(path), i);
    assert(routes[best].1 == action);
    assert forall|h: Seq<char>| !table.exact.contains_key(h) by {
        assert(!mentions(entries, Host::Exact(h)));
    }
    assert forall|h: Seq<char>| !table.wildcard.contains_key(h) by {
        assert(!mentions(entries, Host::Wildcard(h)));
    }
    match host {
        Some(h) => {
            lemma_no_wildcards(table.wildcard, normal_host(h), normal_path(path), true);
        },
        None => {},
    }
}

/// Entries that lead elsewhere: `f` says where.
pub open spec fn led_to<A, B>(entries: Seq<EntryTo<A>>, f: spec_fn(A) -> B) -> Seq<EntryTo<B>> {
    Seq::new(entries.len(), |i: int| (entries[i].0, entries[i].1, f(entries[i].2)))
}

spec fn routes_led_to<A, B>(routes: RoutesTo<A>, f: spec_fn(A) -> B) -> RoutesTo<B> {
    Seq::new(routes.len(), |i: int| (routes[i].0, f(routes[i].1)))
}

spec fn option_led_to<A, B>(found: Option<A>, f: spec_fn(A) -> B) -> Option<B> {
    match found {
        Some(a) => Some(f(a)),
        None => None,
    }
}

proof fn lemma_routes_led_to<A, B>(entries: Seq<EntryTo<A>>, f: spec_fn(A) -> B, host: Host)
    ensures
        routes_for(led_to(entries, f), host) == routes_led_to(routes_for(entries, host), f),
        mentions(led_to(entries, f), host) == mentions(entries, host),
    decreases entries.len(),
{
    let there = led_to(entries, f);
    if entries.len() > 0 {
        lemma_routes_led_to(entries.drop_last(), f, host);
        assert(there.drop_last() =~= led_to(entries.drop_last(), f));
    }
    assert(routes_for(there, host) =~= routes_led_to(routes_for(entries, host), f));
    if mentions(entries, host) {
        let i = choose|i: int| 0 <= i < entries.len() && (#[trigger] entries[i]).0 == host;
        assert(there[i].0 == host);
    }
    if mentions(there, host) {
        let i = choose|i: int| 0 <= i < there.len() && (#[trigger] there[i]).0 == host;
        assert(entries[i].0 == host);
    }
}

proof fn lemma_installed_led_to<A, B>(routes: RoutesTo<A>, f: spec_fn(A) -> B)
    ensures
        installed(routes_led_to(routes, f)) == routes_led_to(installed(routes), f),
    decreases routes.len(),
{
    if routes.len() > 0 {
        lemma_installed_led_to(routes.drop_last(), f);
        assert(routes_led_to(routes, f).drop_last() =~= routes_led_to(routes.drop_last(), f));
    }
    assert(installed(routes_led_to(routes, f)) =~= routes_led_to(installed(routes), f));
}

proof fn lemma_found_led_to<A, B>(routes: RoutesTo<A>, f: spec_fn(A) -> B, path: Seq<char>)
    ensures
        route_found(routes_led_to(routes, f), path) == option_led_to(route_found(routes, path), f),
{
    assert(route_patterns(routes_led_to(routes, f)) =~= route_patterns(routes));
}

proof fn lemma_wildcard_led_to<A, B>(
    hosts: Map<Seq<char>, RoutesTo<A>>,
    there: Map<Seq<char>, RoutesTo<B>>,
    f: spec_fn(A) -> B,
    rest: Seq<char>,
    path: Seq<char>,
)
    requires
        forall|h: Seq<char>| #[trigger] there.contains_key(h) <==> hosts.contains_key(h),
        forall|h: Seq<char>| #[trigger]
            hosts.contains_key(h) ==> there[h] == routes_led_to(hosts[h], f),
    ensures
        host_route(there, rest, path, false) == option_led_to(
            host_route(hosts, rest, path, false),
            f,
        ),
        wildcard_route(there, rest, path, false) == option_led_to(
            wildcard_route(hosts, rest, path, false),
            f,
        ),
    decreases rest.len(),
{
    assert(there.contains_key(rest) <==> hosts.contains_key(rest));
    if hosts.contains_key(rest) {
        lemma_found_led_to(hosts[rest], f, path);
    }
    let dot = position_of(rest, '.');
    if 0 <= dot < rest.len() {
        let suffix = rest.skip(dot);
        assert(there.contains_key(suffix) <==> hosts.contains_key(suffix));
        if hosts.contains_key(suffix) {
            lemma_found_led_to(hosts[suffix], f, path);
        }
        lemma_wildcard_led_to(hosts, there, f, rest.skip(dot + 1), path);
    }
}

/// Which route a request takes rests on the hosts and patterns alone, and not on what
/// the routes lead to.
pub proof fn lemma_routes_are_found_by_their_patterns<A, B>(
    entries: Seq<EntryTo<A>>,
    f: spec_fn(A) -> B,
    count: nat,
    host: Option<Seq<char>>,
    path: Seq<char>,
)
    ensures
        table_route(table_of(led_to(entries, f), count), host, path, false) == (match table_route(
            table_of(entries, count),
            host,
            path,
            false,
        ) {
            Some(a) => Some(f(a)),
            None => None,
        }),
{
    let here = table_of(entries, count);
    let there = table_of(led_to(entries, f), count);
    let p = normal_path(path);
    lemma_routes_led_to(entries, f, Host::Any);
    lemma_installed_led_to(routes_for(entries, Host::Any), f);
    lemma_found_led_to(here.fallback, f, p);
    if let Some(h) = host {
        assert forall|n: Seq<char>| #[trigger]
            there.exact.contains_key(n) <==> here.exact.contains_key(n) by {
            lemma_routes_led_to(entries, f, Host::Exact(n));
        }
        assert forall|n: Seq<char>| #[trigger] here.exact.contains_key(n) implies there.exact[n]
            == routes_led_to(here.exact[n], f) by {
            lemma_routes_led_to(entries, f, Host::Exact(n));
            lemma_installed_led_to(routes_for(entries, Host::Exact(n)), f);
        }
        assert forall|n: Seq<char>| #[trigger]
            there.wildcard.contains_key(n) <==> here.wildcard.contains_key(n) by {
            lemma_routes_led_to(entries, f, Host::Wildcard(n));
        }
        assert forall|n: Seq<char>| #[trigger]
            here.wildcard.contains_key(n) implies there.wildcard[n] == routes_led_to(
            here.wildcard[n],
            f,
        ) by {
            lemma_routes_led_to(entries, f, Host::Wildcard(n));
            lemma_installed_led_to(routes_for(entries, Host::Wildcard(n)), f);
        }
        lemma_wildcard_led_to(here.exact, there.exact, f, normal_host(h), p);
        lemma_wildcard_led_to(here.wildcard, there.wildcard, f, normal_host(h), p);
    }
}

/// The patterns that one route expands into share one cursor: where the routes of a
/// table are numbered, and each draws from a group of its own, two requests that take
/// the same route draw from the same group, whichever of its patterns they match.
pub proof fn lemma_one_route_one_cursor(
    numbered: Seq<EntryTo<int>>,
    groups: spec_fn(int) -> TargetGroup,
    count: nat,
    host: Option<Seq<char>>,
    path: Seq<char>,
    other_host: Option<Seq<char>>,
    other_path: Seq<char>,
)
    requires
        table_route(table_of(numbered, count), host, path, false) == table_route(
            table_of(numbered, count),
            other_host,
            other_path,
            false,
        ),
    ensures
        table_route(table_of(led_to(numbered, groups), count), host, path, false) == table_route(
            table_of(led_to(numbered, groups), count),
            other_host,
            other_path,
            false,
        ),
{
    lemma_routes_are_found_by_their_patterns(numbered, groups, count, host, path);
    lemma_routes_are_found_by_their_patterns(numbered, groups, count, other_host, other_path);
}

/// Adding a route to a builder gives its patterns a number, and that number a group;
/// the routes before it keep theirs.
pub proof fn lemma_added_route_draws_from_one_group(
    numbered: Seq<EntryTo<int>>,
    groups: spec_fn(int) -> TargetGroup,
    after: Seq<EntryTo<TargetGroup>>,
    host: Host,
    patterns: Seq<Seq<char>>,
    number: int,
) -> (more: spec_fn(int) -> TargetGroup)
    requires
        one_group_more(led_to(numbered, groups), after, host, patterns),
        forall|i: int| 0 <= i < numbered.len() ==> (#[trigger] numbered[i]).2 != number,
    ensures
        after == led_to(numbered + entries_for(host, patterns, number), more),
        forall|n: int| n != number ==> #[trigger] more(n) == groups(n),
{
    let before = led_to(numbered, groups);
    let group = choose|group: TargetGroup|
        after == before + #[trigger] entries_for(host, patterns, group);
    let more = |n: int|
        if n == number {
            group
        } else {
            groups(n)
        };
    let all = numbered + entries_for(host, patterns, number);
    assert(after =~= led_to(all, more)) by {
        assert forall|i: int| 0 <= i < all.len() implies after[i] == led_to(all, more)[i] by {
            if i < numbered.len() {
                assert(all[i] == numbered[i]);
                assert(numbered[i].2 != number);
                assert(before[i] == (numbered[i].0, numbered[i].1, groups(numbered[i].2)));
            }
        }
    }
    more
}

/// Every request that a table of one route serves draws from that route's group.
pub proof fn lemma_sole_route_has_one_cursor(
    of: Host,
    patterns: Seq<Seq<char>>,
    group: TargetGroup,
    count: nat,
    host: Option<Seq<char>>,
    path: Seq<char>,
)
    ensures
        table_route(table_of(entries_for(of, patterns, group), count), host, path, false) matches
            Some(drawn) ==> drawn == group,
{
    let blank = entries_for(of, patterns, ());
    let f = |x: ()| group;
    lemma_routes_are_found_by_their_patterns(blank, f, count, host, path);
    assert(led_to(blank, f) =~= entries_for(of, patterns, group));
}

} // verus!
