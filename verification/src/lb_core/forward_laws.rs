//! What of a request reaches the upstream, and what of a response reaches the client.

use vstd::prelude::*;
use vstd::string::*;
use vstd::utf8::encode_utf8;

use crate::lb_core::filter::{
    lemma_other_headers_untouched, rewritten, rule_name, rules_applied, Filters, HeaderRule, Rewrite,
};
use crate::lb_core::forward::{
    outcome_by, path_and_query_of, path_part, query_part, request_host, rewritten_target,
    target_path, target_query, turn, upstream_headers, BadRewrite, Head, Outcome, Target,
    UpstreamProtocol, Version,
};
use crate::lb_core::headers::{
    ascii_text, canonical_name, is_header_name, is_visible_value, values_of,
};
use crate::lb_core::proxy::{
    nominated_by, nominated_by_all, nominated_tokens, nominates, stays_behind, stripped, with_forwarded_for,
    HOP_BY_HOP,
};
use crate::lb_core::route_table::{table_route, Table};
use crate::lb_core::target::authority_is_valid;
use crate::text::{lemma_position, lower_text, pieces, position_of, trimmed};

verus! {

/// Whether a header is for one hop alone.
pub open spec fn ends_here(name: Seq<char>) -> bool {
    ||| name == "connection"@
    ||| name == "keep-alive"@
    ||| name == "proxy-authenticate"@
    ||| name == "proxy-authorization"@
    ||| name == "proxy-connection"@
    ||| name == "te"@
    ||| name == "trailer"@
    ||| name == "upgrade"@
}

/// Whether a token of a `Connection` value is a header's name.
pub open spec fn token_is(token: Seq<char>, name: Seq<char>) -> bool {
    canonical_name(encode_utf8(trimmed(token))) == name
}

/// Whether some token of some `Connection` value is a header's name.
pub open spec fn is_nominated(headers: Map<Seq<char>, Seq<Seq<u8>>>, name: Seq<char>) -> bool {
    exists|v: int, t: int|
        0 <= v < values_of(headers, "connection"@).len() && 0 <= t < pieces(
            ascii_text(values_of(headers, "connection"@)[v]),
            ',',
        ).len() && token_is(
            #[trigger] pieces(ascii_text(values_of(headers, "connection"@)[v]), ',')[t],
            name,
        )
}

/// Whether no rule speaks of a header.
pub open spec fn is_unruled(rules: Seq<HeaderRule>, name: Seq<char>) -> bool {
    forall|i: int|
        0 <= i < rules.len() ==> match #[trigger] rules[i] {
            HeaderRule::Put(n, _) => n != name,
            HeaderRule::Add(n, _) => n != name,
            HeaderRule::Remove(n) => n != name,
        }
}

proof fn lemma_unruled(rules: Seq<HeaderRule>, name: Seq<char>)
    requires
        is_unruled(rules, name),
    ensures
        forall|i: int| 0 <= i < rules.len() ==> rule_name(#[trigger] rules[i]) != name,
{
    assert forall|i: int| 0 <= i < rules.len() implies rule_name(#[trigger] rules[i]) != name by {
        let r = rules[i];
    }
}

proof fn lemma_tokens(tokens: Seq<Seq<char>>, name: Seq<char>)
    requires
        nominated_tokens(tokens).contains(name),
    ensures
        exists|t: int| 0 <= t < tokens.len() && token_is(#[trigger] tokens[t], name),
    decreases tokens.len(),
{
    let all = nominated_tokens(tokens);
    let i = choose|i: int| 0 <= i < all.len() && all[i] == name;
    let init = tokens.drop_last();
    let before = nominated_tokens(init);
    if i < before.len() {
        assert(before[i] == name);
        lemma_tokens(init, name);
        let t = choose|t: int| 0 <= t < init.len() && token_is(#[trigger] init[t], name);
        assert(token_is(tokens[t], name));
    } else {
        assert(token_is(tokens[tokens.len() - 1], name));
    }
}

proof fn lemma_values(values: Seq<Seq<u8>>, name: Seq<char>)
    requires
        nominated_by_all(values).contains(name),
    ensures
        exists|v: int, t: int|
            0 <= v < values.len() && 0 <= t < pieces(ascii_text(values[v]), ',').len() && token_is(
                #[trigger] pieces(ascii_text(values[v]), ',')[t],
                name,
            ),
    decreases values.len(),
{
    let all = nominated_by_all(values);
    let i = choose|i: int| 0 <= i < all.len() && all[i] == name;
    let init = values.drop_last();
    let before = nominated_by_all(init);
    if i < before.len() {
        assert(before[i] == name);
        lemma_values(init, name);
        let (v, t) = choose|v: int, t: int|
            0 <= v < init.len() && 0 <= t < pieces(ascii_text(init[v]), ',').len() && token_is(
                #[trigger] pieces(ascii_text(init[v]), ',')[t],
                name,
            );
        assert(token_is(pieces(ascii_text(values[v]), ',')[t], name));
    } else {
        let v = values.len() - 1;
        let own = nominated_by(ascii_text(values[v]));
        assert(own[i - before.len()] == name);
        let tokens = pieces(ascii_text(values[v]), ',');
        lemma_tokens(tokens, name);
        let t = choose|t: int| 0 <= t < tokens.len() && token_is(#[trigger] tokens[t], name);
        assert(token_is(pieces(ascii_text(values[v]), ',')[t], name));
    }
}

/// What is for one hop alone stays behind, and what no `Connection` value names besides
/// goes on.
proof fn lemma_stays(headers: Map<Seq<char>, Seq<Seq<u8>>>, name: Seq<char>)
    ensures
        ends_here(name) ==> stays_behind(headers, name),
        stays_behind(headers, name) ==> ends_here(name) || is_nominated(headers, name),
{
    assert(HOP_BY_HOP@[0]@ == "keep-alive"@);
    assert(HOP_BY_HOP@[1]@ == "proxy-authenticate"@);
    assert(HOP_BY_HOP@[2]@ == "proxy-authorization"@);
    assert(HOP_BY_HOP@[3]@ == "proxy-connection"@);
    assert(HOP_BY_HOP@[4]@ == "te"@);
    assert(HOP_BY_HOP@[5]@ == "trailer"@);
    assert(HOP_BY_HOP@[6]@ == "upgrade"@);
    let values = values_of(headers, "connection"@);
    if nominated_by_all(values).contains(name) {
        lemma_values(values, name);
        let (v, t) = choose|v: int, t: int|
            0 <= v < values.len() && 0 <= t < pieces(ascii_text(values[v]), ',').len() && token_is(
                #[trigger] pieces(ascii_text(values[v]), ',')[t],
                name,
            );
        assert(token_is(pieces(ascii_text(values_of(headers, "connection"@)[v]), ',')[t], name));
    }
}

/// A header of a request that is neither for this hop alone, nor named by `Connection`, nor
/// the proxy's own, and of which the route says nothing, goes upstream with the values that
/// it came with; one that is for this hop alone does not.
pub proof fn lemma_request_headers_go_on_or_end_here(
    headers: Map<Seq<char>, Seq<Seq<u8>>>,
    peer: Seq<char>,
    forwarded: bool,
    filters: Filters,
    authority: Seq<char>,
    protocol: UpstreamProtocol,
    name: Seq<char>,
)
    requires
        is_unruled(filters.request, name),
        name != "host"@,
        name != "x-forwarded-for"@,
        name != "x-forwarded-proto"@,
    ensures
        ({
            let out = upstream_headers(headers, peer, forwarded, filters, authority, protocol);
            &&& !ends_here(name) && !is_nominated(headers, name) ==> values_of(out, name)
                == values_of(headers, name) && out.contains_key(name) == headers.contains_key(name)
            &&& ends_here(name) ==> !out.contains_key(name)
        }),
{
    lemma_stays(headers, name);
    lemma_unruled(filters.request, name);
    let clean = stripped(headers);
    let marked = if forwarded {
        with_forwarded_for(clean, peer).insert(
            "x-forwarded-proto"@,
            seq![crate::lb_core::forward::plain_http()],
        )
    } else {
        clean
    };
    lemma_other_headers_untouched(marked, filters.request, name);
}

proof fn lemma_token_counts(tokens: Seq<Seq<char>>, t: int)
    requires
        0 <= t < tokens.len(),
        nominates(trimmed(tokens[t])),
    ensures
        nominated_tokens(tokens).contains(canonical_name(encode_utf8(trimmed(tokens[t])))),
    decreases tokens.len(),
{
    let all = nominated_tokens(tokens);
    let init = tokens.drop_last();
    let before = nominated_tokens(init);
    if t < init.len() {
        assert(init[t] == tokens[t]);
        lemma_token_counts(init, t);
        let i = choose|i: int|
            0 <= i < before.len() && before[i] == canonical_name(encode_utf8(trimmed(tokens[t])));
        assert(all[i] == before[i]);
    } else {
        assert(all[all.len() - 1] == canonical_name(encode_utf8(trimmed(tokens[t]))));
    }
}

proof fn lemma_value_counts(values: Seq<Seq<u8>>, v: int, t: int)
    requires
        0 <= v < values.len(),
        is_visible_value(values[v]),
        0 <= t < pieces(ascii_text(values[v]), ',').len(),
        nominates(trimmed(pieces(ascii_text(values[v]), ',')[t])),
    ensures
        nominated_by_all(values).contains(
            canonical_name(encode_utf8(trimmed(pieces(ascii_text(values[v]), ',')[t]))),
        ),
    decreases values.len(),
{
    let goal = canonical_name(encode_utf8(trimmed(pieces(ascii_text(values[v]), ',')[t])));
    let all = nominated_by_all(values);
    let init = values.drop_last();
    let before = nominated_by_all(init);
    if v < init.len() {
        assert(init[v] == values[v]);
        lemma_value_counts(init, v, t);
        let i = choose|i: int| 0 <= i < before.len() && before[i] == goal;
        assert(all[i] == goal);
    } else {
        let own = nominated_by(ascii_text(values[v]));
        lemma_token_counts(pieces(ascii_text(values[v]), ','), t);
        let i = choose|i: int| 0 <= i < own.len() && own[i] == goal;
        assert(all[before.len() + i] == goal);
    }
}

/// A header that `Connection` names ends here too, on either way: `close` and `keep-alive`
/// name none.
pub proof fn lemma_named_headers_end_here(
    headers: Map<Seq<char>, Seq<Seq<u8>>>,
    v: int,
    t: int,
    name: Seq<char>,
)
    requires
        0 <= v < values_of(headers, "connection"@).len(),
        is_visible_value(values_of(headers, "connection"@)[v]),
        0 <= t < pieces(ascii_text(values_of(headers, "connection"@)[v]), ',').len(),
        ({
            let token = trimmed(pieces(ascii_text(values_of(headers, "connection"@)[v]), ',')[t]);
            &&& token.len() > 0
            &&& is_header_name(encode_utf8(token))
            &&& canonical_name(encode_utf8(token)) == name
            &&& lower_text(token) != lower_text("close"@)
            &&& lower_text(token) != lower_text("keep-alive"@)
        }),
    ensures
        !stripped(headers).contains_key(name),
{
    lemma_value_counts(values_of(headers, "connection"@), v, t);
}

/// To an upstream that is to be told of the client, the peer's address goes behind the
/// chain that the request brought, or starts one, and the scheme goes with it.
pub proof fn lemma_peer_is_told_of(
    headers: Map<Seq<char>, Seq<Seq<u8>>>,
    peer: Seq<char>,
    filters: Filters,
    authority: Seq<char>,
    protocol: UpstreamProtocol,
)
    requires
        is_unruled(filters.request, "x-forwarded-for"@),
        is_unruled(filters.request, "x-forwarded-proto"@),
        is_visible_value(encode_utf8(peer)),
        !is_nominated(headers, "x-forwarded-for"@),
    ensures
        ({
            let out = upstream_headers(headers, peer, true, filters, authority, protocol);
            let came = values_of(headers, "x-forwarded-for"@);
            &&& values_of(out, "x-forwarded-for"@) == seq![
                if came.len() > 0 && is_visible_value(came[0]) {
                    came[0] + seq![44u8, 32u8] + encode_utf8(peer)
                } else {
                    encode_utf8(peer)
                },
            ]
            &&& values_of(out, "x-forwarded-proto"@) == seq![encode_utf8("http"@)]
        }),
{
    lemma_stays(headers, "x-forwarded-for"@);
    lemma_unruled(filters.request, "x-forwarded-for"@);
    lemma_unruled(filters.request, "x-forwarded-proto"@);
    lemma_names_apart();
    crate::lb_core::forward::lemma_forwarded_chain_is_extended(
        headers,
        peer,
        filters,
        authority,
        protocol,
    );
    let clean = stripped(headers);
    assert(values_of(clean, "x-forwarded-for"@) =~= values_of(headers, "x-forwarded-for"@));
    let marked = with_forwarded_for(clean, peer).insert(
        "x-forwarded-proto"@,
        seq![crate::lb_core::forward::plain_http()],
    );
    lemma_other_headers_untouched(marked, filters.request, "x-forwarded-proto"@);
}

proof fn lemma_names_apart()
    ensures
        "x-forwarded-for"@ != "host"@,
        "x-forwarded-proto"@ != "host"@,
        "x-forwarded-for"@ != "x-forwarded-proto"@,
        !ends_here("x-forwarded-for"@),
{
    reveal_strlit("x-forwarded-for");
    reveal_strlit("x-forwarded-proto");
    reveal_strlit("host");
    reveal_strlit("connection");
    reveal_strlit("keep-alive");
    reveal_strlit("proxy-authenticate");
    reveal_strlit("proxy-authorization");
    reveal_strlit("proxy-connection");
    reveal_strlit("te");
    reveal_strlit("trailer");
    reveal_strlit("upgrade");
    assert("x-forwarded-for"@.len() == 15);
    assert("x-forwarded-proto"@.len() == 17);
    assert("host"@.len() == 4);
    assert("connection"@.len() == 10);
    assert("keep-alive"@.len() == 10);
    assert("proxy-authenticate"@.len() == 18);
    assert("proxy-authorization"@.len() == 19);
    assert("proxy-connection"@.len() == 16);
    assert("te"@.len() == 2);
    assert("trailer"@.len() == 7);
    assert("upgrade"@.len() == 7);
}

/// A header of a response that is neither for this hop alone nor named by `Connection`, and
/// of which the route says nothing, goes back to the client with the values that it came
/// with; one that is for this hop alone does not.
pub proof fn lemma_response_headers_go_on_or_end_here(
    headers: Map<Seq<char>, Seq<Seq<u8>>>,
    rules: Seq<HeaderRule>,
    name: Seq<char>,
)
    requires
        is_unruled(rules, name),
    ensures
        ({
            let out = rules_applied(stripped(headers), rules);
            &&& !ends_here(name) && !is_nominated(headers, name) ==> values_of(out, name)
                == values_of(headers, name) && out.contains_key(name) == headers.contains_key(name)
            &&& ends_here(name) ==> !out.contains_key(name)
        }),
{
    lemma_stays(headers, name);
    lemma_unruled(rules, name);
    lemma_other_headers_untouched(stripped(headers), rules, name);
}

// ---------------------------------------------------------------------------
// Targets
// ---------------------------------------------------------------------------

proof fn lemma_mark(p: Seq<char>, q: Seq<char>)
    requires
        !p.contains('?'),
    ensures
        position_of(p + seq!['?'] + q, '?') == p.len(),
        position_of(p, '?') == p.len(),
{
    let s = p + seq!['?'] + q;
    lemma_position(s, '?');
    lemma_position(p, '?');
    let k = position_of(s, '?');
    assert(s[p.len() as int] == '?');
    if k < p.len() {
        assert(p[k] == '?');
    }
    let j = position_of(p, '?');
    if j < p.len() {
        assert(p[j] == '?');
    }
}

/// A path and query is read as the path before the first question mark and the query
/// behind it; without a question mark there is no query.
pub proof fn lemma_path_and_query_read_back(p: Seq<char>, q: Seq<char>)
    requires
        p.len() > 0,
        !p.contains('?'),
    ensures
        path_part(p + seq!['?'] + q) == p,
        query_part(p + seq!['?'] + q) == Some(q),
        path_part(p) == p,
        query_part(p) is None,
{
    let s = p + seq!['?'] + q;
    lemma_mark(p, q);
    assert(s.take(p.len() as int) =~= p);
    assert(s.skip((p.len() + 1) as int) =~= q);
    assert(p.take(p.len() as int) =~= p);
}

/// A rewrite changes the path alone: the query of the request, where it has one, is the
/// query of what goes upstream, and the path of what goes upstream is the rewritten path.
/// Replacements that hold a question mark of their own are another matter.
pub proof fn lemma_rewrite_keeps_the_query(filters: Filters, uri: Target)
    requires
        rewritten(filters.rewrite, target_path(uri)).len() > 0,
        !rewritten(filters.rewrite, target_path(uri)).contains('?'),
    ensures
        query_part(rewritten_target(filters, uri)) == target_query(uri),
        path_part(rewritten_target(filters, uri)) == rewritten(filters.rewrite, target_path(uri)),
{
    let path = rewritten(filters.rewrite, target_path(uri));
    match target_query(uri) {
        Some(q) => lemma_path_and_query_read_back(path, q),
        None => lemma_path_and_query_read_back(path, Seq::empty()),
    }
}

/// The path and the query of a request are those of its target.
pub proof fn lemma_target_reads_back(uri: Target, p: Seq<char>, q: Seq<char>)
    requires
        p.len() > 0,
        !p.contains('?'),
    ensures
        uri.path_and_query == Some(p + seq!['?'] + q) ==> target_path(uri) == p && target_query(
            uri,
        ) == Some(q),
        uri.path_and_query == Some(p) ==> target_path(uri) == p && target_query(uri) is None,
        uri.path_and_query is None ==> target_path(uri).len() == 0 && target_query(uri) is None,
{
    lemma_path_and_query_read_back(p, q);
}

/// A request names its host in its target's authority, apart from a user and a port, and
/// otherwise in its `Host` header.
pub proof fn lemma_request_names_its_host(head: Head, host: Seq<char>, port: Seq<char>)
    requires
        host.len() > 0,
        host[0] != '[',
        !host.contains('@'),
        !host.contains(':'),
        !port.contains('@'),
    ensures
        head.uri.authority == Some(host) ==> request_host(head) == Some(host),
        head.uri.authority == Some(host + seq![':'] + port) ==> request_host(head) == Some(host),
        head.uri.authority is None && values_of(head.headers, "host"@).len() > 0
            && is_visible_value(values_of(head.headers, "host"@)[0]) ==> request_host(head)
            == Some(ascii_text(values_of(head.headers, "host"@)[0])),
{
    let long = host + seq![':'] + port;
    lemma_position(host, '@');
    lemma_position(long, '@');
    lemma_position(host, ':');
    lemma_position(long, ':');
    let a = position_of(host, '@');
    if a < host.len() {
        assert(host[a] == '@');
    }
    let b = position_of(long, '@');
    if b < long.len() {
        if b < host.len() {
            assert(host[b] == '@');
        } else if b > host.len() {
            assert(port[b - host.len() - 1] == '@');
        }
    }
    let c = position_of(host, ':');
    if c < host.len() {
        assert(host[c] == ':');
    }
    let d = position_of(long, ':');
    assert(long[host.len() as int] == ':');
    if d < host.len() {
        assert(host[d] == ':');
    }
    assert(long.take(host.len() as int) =~= host);
    assert(host.take(host.len() as int) =~= host);
}

// ---------------------------------------------------------------------------
// Outcomes
// ---------------------------------------------------------------------------

/// A request is rejected with 404 exactly where no route takes it, with 502 exactly where
/// the backend whose turn it is has no valid address, and with 500 exactly where the route
/// rewrites its path to something that is none. In every other case it goes to that
/// backend: over plain HTTP, in the upstream's version, with the path and query that it came
/// with unless the route rewrites it.
pub proof fn lemma_outcomes_are_told_apart(
    head: Head,
    peer: Seq<char>,
    table: Table,
    ticket: int,
    forwarded: bool,
    protocol: UpstreamProtocol,
)
    ensures
        ({
            let o = outcome_by(
                head,
                peer,
                table,
                ticket,
                forwarded,
                protocol,
                BadRewrite::Reject,
            );
            let route = table_route(table, request_host(head), target_path(head.uri), false);
            &&& o == Outcome::Reject(404) <==> route is None
            &&& route matches Some(action) ==> ({
                let n = action.cycle.len() as int;
                let backend = action.members[action.cycle[ticket % n]].address;
                let text = rewritten_target(action.filters, head.uri);
                &&& o == Outcome::Reject(502) <==> !authority_is_valid(backend)
                &&& o == Outcome::Reject(500) <==> authority_is_valid(backend)
                    && action.filters.rewrite is Some && path_and_query_of(text) is None
                &&& o is Forward <==> authority_is_valid(backend) && (action.filters.rewrite is None
                    || path_and_query_of(text) is Some)
                &&& o matches Outcome::Forward { head: sent, filters, address } ==> {
                    &&& address == backend
                    &&& filters == action.filters
                    &&& sent.uri.scheme == Some("http"@)
                    &&& sent.uri.authority == Some(backend)
                    &&& sent.version == (if protocol is Http1 {
                        Version::Http11
                    } else {
                        Version::Http2
                    })
                    &&& sent.headers == upstream_headers(
                        head.headers,
                        peer,
                        forwarded,
                        action.filters,
                        backend,
                        protocol,
                    )
                    &&& action.filters.rewrite is Some ==> sent.uri.path_and_query
                        == path_and_query_of(text)
                    &&& action.filters.rewrite is None && head.uri.path_and_query is Some
                        ==> sent.uri.path_and_query == head.uri.path_and_query
                    &&& action.filters.rewrite is None && head.uri.path_and_query is None
                        ==> sent.uri.path_and_query == Some(seq!['/'])
                }
            })
        }),
{
}

/// What a route's rewrite makes of a path: without one nothing, with one of the whole path
/// its replacement, and with one of a prefix nothing where the path does not begin with it.
pub proof fn lemma_rewrites_apply_where_they_should(
    path: Seq<char>,
    exact: Seq<char>,
    prefix: Seq<char>,
    replacement: Seq<char>,
)
    ensures
        rewritten(None, path) == path,
        rewritten(Some(Rewrite::Exact(exact)), path) == exact,
        !(prefix.len() <= path.len() && path.take(prefix.len() as int) == prefix) ==> rewritten(
            Some(Rewrite::Prefix(prefix, replacement)),
            path,
        ) == path,
{
}

} // verus!
