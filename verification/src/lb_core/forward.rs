//! Turning a received request into an upstream-addressed one.
//!
//! Every proxy must do *exactly* this much work per request, or a throughput
//! difference between them measures the handler rather than the runtime. Keeping
//! the whole sequence (route lookup, backend selection, URI reassembly, header
//! hygiene) in one place is what makes the comparison a comparison.

use http::header::HeaderMap;
use vstd::prelude::*;
use vstd::string::*;
use vstd::utf8::encode_utf8;

use crate::lb_core::filter::{
    lemma_names_after_rules, lemma_other_headers_untouched, rewritten, rule_name, rules_applied,
    Filters, RouteFilters,
};
use crate::lb_core::headers::{
    ascii_text, has_room, header_copy, header_count, header_entries, header_get, header_insert,
    header_remove,
    is_header_value, is_valid_header_value, is_value_byte, is_visible, is_visible_value, value_text,
    values_of, MAX_HEADER_NAMES,
};
use crate::lb_core::proxy::{
    forwarded_chain, lemma_own_names, stays_behind, strip_hop_by_hop, stripped, try_forwarded_for,
    try_forwarded_proto, with_forwarded_for, FORWARDED_FOR, FORWARDED_PROTO,
};
use crate::lb_core::route_table::{table_route, Action, RouteTable, Table, TableOf};
use crate::lb_core::shared_table::{was_in_force, SharedRouteTable};
use crate::lb_core::simd::{host_without_port, without_port};
use crate::lb_core::target::{
    authority_is_valid, drawn_from, BackendEndpoint, Endpoint, TargetGroup,
};
use crate::text::{chars_of, find_char, lemma_position, position_of, string_of};

verus! {

/// Version of HTTP that a message speaks.
#[derive(Debug, Clone, Copy, PartialEq, Eq, Structural)]
pub enum Version {
    Http09,
    Http10,
    Http11,
    Http2,
    Http3,
}

/// A request target, by its components.
#[derive(Debug)]
pub struct RequestTarget {
    pub scheme: Option<String>,
    pub authority: Option<String>,
    /// Path and query; absent when the target is a bare authority.
    pub path_and_query: Option<String>,
}

/// The head of a request, apart from its method.
#[derive(Debug)]
pub struct RequestParts {
    pub uri: RequestTarget,
    pub version: Version,
    pub headers: HeaderMap,
}

/// A request target's components.
pub struct Target {
    pub scheme: Option<Seq<char>>,
    pub authority: Option<Seq<char>>,
    pub path_and_query: Option<Seq<char>>,
}

/// What the head of a request holds.
pub struct Head {
    pub uri: Target,
    pub version: Version,
    pub headers: Map<Seq<char>, Seq<Seq<u8>>>,
}

impl View for RequestTarget {
    type V = Target;

    open spec fn view(&self) -> Target {
        Target {
            scheme: optional(self.scheme),
            authority: optional(self.authority),
            path_and_query: optional(self.path_and_query),
        }
    }
}

impl View for RequestParts {
    type V = Head;

    open spec fn view(&self) -> Head {
        Head { uri: self.uri@, version: self.version, headers: header_entries(self.headers) }
    }
}

/// What follows the last `@` of an authority, where it has a user part.
pub open spec fn after_user(authority: Seq<char>) -> Seq<char>
    decreases authority.len(),
{
    let at = position_of(authority, '@');
    if 0 <= at < authority.len() {
        after_user(authority.skip(at + 1))
    } else {
        authority
    }
}

/// The host of an authority: no user part and no port.
pub open spec fn authority_host(authority: Seq<char>) -> Seq<char> {
    without_port(after_user(authority))
}

/// The path of a path and query: what precedes the first question mark, and the
/// root if nothing does.
pub open spec fn path_part(path_and_query: Seq<char>) -> Seq<char> {
    let path = path_and_query.take(position_of(path_and_query, '?'));
    if path.len() == 0 {
        seq!['/']
    } else {
        path
    }
}

/// The query of a path and query: what follows the first question mark.
pub open spec fn query_part(path_and_query: Seq<char>) -> Option<Seq<char>> {
    let mark = position_of(path_and_query, '?');
    if 0 <= mark < path_and_query.len() {
        Some(path_and_query.skip(mark + 1))
    } else {
        None
    }
}

/// The path of a request target, empty for a bare authority.
pub open spec fn target_path(uri: Target) -> Seq<char> {
    match uri.path_and_query {
        Some(pq) => path_part(pq),
        None => Seq::empty(),
    }
}

/// The query of a request target.
pub open spec fn target_query(uri: Target) -> Option<Seq<char>> {
    match uri.path_and_query {
        Some(pq) => query_part(pq),
        None => None,
    }
}

/// The host that a request names: HTTP/2 carries it in the target's authority,
/// HTTP/1.1 in `Host`.
pub open spec fn request_host(head: Head) -> Option<Seq<char>> {
    match head.uri.authority {
        Some(authority) => Some(authority_host(authority)),
        None => {
            let hosts = values_of(head.headers, "host"@);
            if hosts.len() > 0 && is_visible_value(hosts[0]) {
                Some(ascii_text(hosts[0]))
            } else {
                None
            }
        },
    }
}

impl RequestTarget {
    /// The host of the target's authority.
    #[must_use]
    pub fn host(&self) -> (r: Option<String>)
        ensures
            r is Some <==> self@.authority is Some,
            r matches Some(host) ==> host@ == authority_host(self@.authority->0),
    {
        let authority = match &self.authority {
            Some(authority) => authority,
            None => return None,
        };
        let chars = chars_of(authority.as_str());
        let mut from: usize = 0;
        assert(authority@.skip(0) =~= authority@);
        loop
            invariant_except_break
                after_user(authority@.skip(from as int)) == after_user(authority@),
            invariant
                from <= chars@.len(),
                chars@ == authority@,
            ensures
                authority@.skip(from as int) == after_user(authority@),
            decreases chars@.len() - from,
        {
            let ghost rest = authority@.skip(from as int);
            proof {
                lemma_position(rest, '@');
            }
            let at: usize = find_char(&chars, '@', from);
            if at >= chars.len() {
                break;
            }
            assert(rest.skip(at - from + 1) =~= authority@.skip(at + 1));
            from = at + 1;
        }
        let host_port = string_of(&chars, from, chars.len());
        assert(host_port@ =~= authority@.skip(from as int));
        Some(host_without_port(host_port.as_str()).to_owned())
    }

    /// The path of the target, empty for a bare authority.
    #[must_use]
    pub fn path(&self) -> (r: String)
        ensures
            r@ == target_path(self@),
    {
        match &self.path_and_query {
            Some(pq) => {
                proof {
                    lemma_position(pq@, '?');
                    reveal_strlit("/");
                }
                assert(pq@.skip(0) =~= pq@);
                let chars = chars_of(pq.as_str());
                let mark: usize = find_char(&chars, '?', 0);
                let path = string_of(&chars, 0, mark);
                assert(path@ =~= pq@.take(mark as int));
                if path.as_str().is_empty() {
                    let root = "/".to_owned();
                    assert(root@ =~= seq!['/']);
                    root
                } else {
                    path
                }
            },
            None => String::new(),
        }
    }

    /// The query of the target.
    #[must_use]
    pub fn query(&self) -> (r: Option<String>)
        ensures
            r is Some <==> target_query(self@) is Some,
            r matches Some(query) ==> Some(query@) == target_query(self@),
    {
        match &self.path_and_query {
            Some(pq) => {
                proof {
                    lemma_position(pq@, '?');
                }
                assert(pq@.skip(0) =~= pq@);
                let chars = chars_of(pq.as_str());
                let mark: usize = find_char(&chars, '?', 0);
                if mark < chars.len() {
                    let query = string_of(&chars, mark + 1, chars.len());
                    assert(query@ =~= pq@.skip(mark + 1));
                    Some(query)
                } else {
                    None
                }
            },
            None => None,
        }
    }
}

/// What `http::uri::PathAndQuery` makes of a text: its path and query without a
/// fragment, or nothing where the text is not valid.
pub uninterp spec fn path_and_query_of(text: Seq<char>) -> Option<Seq<char>>;

/// `PathAndQuery::try_from(&str)` reads a text as a path and query;
/// [`path_and_query_of`] names what it makes of it.
#[verifier::external_body]
fn parse_path_and_query(text: &str) -> (r: Option<String>)
    ensures
        r is Some <==> path_and_query_of(text@) is Some,
        r matches Some(pq) ==> Some(pq@) == path_and_query_of(text@),
{
    http::uri::PathAndQuery::try_from(text).ok().map(|pq| pq.as_str().to_owned())
}

/// What the caller must do after [`prepare`].
pub enum Prepared {
    /// The request now addresses the upstream. Apply `filters` to the response.
    Forward {
        filters: RouteFilters,
        /// Backend address, for error reporting only.
        address: String,
    },
    /// Reply with this status; nothing was forwarded.
    Reject(u16),
}

/// What a prepared request comes to.
pub enum Outcome {
    /// Forward this head to the address and apply the filters to the response.
    Forward { head: Head, filters: Filters, address: Seq<char> },
    /// Reply with this status.
    Reject(u16),
}

/// How the upstream hop is spoken.
#[derive(Debug, Clone, Copy, PartialEq, Eq, Structural)]
pub enum UpstreamProtocol {
    Http1,
    Http2,
}

/// The path and query before a rewrite is parsed: the rewritten path with the
/// query put back.
pub open spec fn rewritten_target(filters: Filters, uri: Target) -> Seq<char> {
    let path = rewritten(filters.rewrite, target_path(uri));
    match target_query(uri) {
        Some(query) => path + seq!['?'] + query,
        None => path,
    }
}

/// The path and query that goes upstream, given what the parser makes of a
/// rewritten one. Without a rewrite it is the incoming one, or the root if there
/// is none.
pub open spec fn upstream_path(
    filters: Filters,
    uri: Target,
    parsed: Option<Seq<char>>,
) -> Option<Seq<char>> {
    if filters.rewrite is Some {
        parsed
    } else {
        match uri.path_and_query {
            Some(pq) => Some(pq),
            None => Some(seq!['/']),
        }
    }
}

/// `http`, as a header value.
pub open spec fn plain_http() -> Seq<u8> {
    encode_utf8("http"@)
}

/// The headers that go upstream: hop-by-hop ones stripped, forwarding ones added
/// where wanted, the route's modifiers applied, and the authority set. HTTP/2 has
/// no `Host`; HTTP/1.1 requires one matching the authority.
pub open spec fn upstream_headers(
    headers: Map<Seq<char>, Seq<Seq<u8>>>,
    peer: Seq<char>,
    forwarded: bool,
    filters: Filters,
    authority: Seq<char>,
    protocol: UpstreamProtocol,
) -> Map<Seq<char>, Seq<Seq<u8>>> {
    let clean = stripped(headers);
    let marked = if forwarded {
        with_forwarded_for(clean, peer).insert(FORWARDED_PROTO@, seq![plain_http()])
    } else {
        clean
    };
    with_authority(rules_applied(marked, filters.request), authority, protocol)
}

/// Headers with the authority set as the protocol wants it.
pub open spec fn with_authority(
    headers: Map<Seq<char>, Seq<Seq<u8>>>,
    authority: Seq<char>,
    protocol: UpstreamProtocol,
) -> Map<Seq<char>, Seq<Seq<u8>>> {
    match protocol {
        UpstreamProtocol::Http1 => if is_header_value(encode_utf8(authority)) {
            headers.insert("host"@, seq![encode_utf8(authority)])
        } else {
            headers
        },
        UpstreamProtocol::Http2 => headers.remove("host"@),
    }
}

/// The version that a protocol speaks.
pub open spec fn protocol_version(protocol: UpstreamProtocol) -> Version {
    match protocol {
        UpstreamProtocol::Http1 => Version::Http11,
        UpstreamProtocol::Http2 => Version::Http2,
    }
}

/// What comes of a request once its route and backend are chosen: 502 where the
/// backend's address is no authority, 500 where the rewritten path is not valid,
/// and otherwise the head that goes upstream.
pub open spec fn addressed(
    head: Head,
    peer: Seq<char>,
    filters: Filters,
    backend: Seq<char>,
    parsed: Option<Seq<char>>,
    forwarded: bool,
    protocol: UpstreamProtocol,
) -> Outcome {
    if !authority_is_valid(backend) {
        Outcome::Reject(502)
    } else {
        match upstream_path(filters, head.uri, parsed) {
            None => Outcome::Reject(500),
            Some(pq) => Outcome::Forward {
                head: Head {
                    uri: Target {
                        scheme: Some("http"@),
                        authority: Some(backend),
                        path_and_query: Some(pq),
                    },
                    version: protocol_version(protocol),
                    headers: upstream_headers(
                        head.headers,
                        peer,
                        forwarded,
                        filters,
                        backend,
                        protocol,
                    ),
                },
                filters,
                address: backend,
            },
        }
    }
}

/// Whether a header map is sure to take the names that forwarding a request may
/// bring it to: those that it has, one for each header modifier, the two
/// forwarding headers and `Host`.
pub open spec fn fits(headers: Map<Seq<char>, Seq<Seq<u8>>>, filters: Filters) -> bool {
    headers.dom().finite() && headers.dom().len() + filters.request.len() + 3 <= MAX_HEADER_NAMES
}

/// What comes of a request under a route table when the backend's turn is given
/// by the ticket: 404 where no route matches, and otherwise what [`addressed`] says.
pub open spec fn outcome(
    head: Head,
    peer: Seq<char>,
    table: Table,
    ticket: int,
    forwarded: bool,
    protocol: UpstreamProtocol,
) -> Outcome {
    outcome_by(head, peer, table, ticket, forwarded, protocol, BadRewrite::Reject)
}

/// What to do with a rewritten path that is not valid.
#[derive(Debug, Clone, Copy, PartialEq, Eq, Structural)]
pub enum BadRewrite {
    /// Reject the request.
    Reject,
    /// Send it to the root.
    UseRoot,
}

/// What the parser makes of a rewritten path, or the root in its place.
pub open spec fn parsed_or(parsed: Option<Seq<char>>, bad: BadRewrite) -> Option<Seq<char>> {
    if parsed is None && bad is UseRoot {
        Some(seq!['/'])
    } else {
        parsed
    }
}

/// [`outcome`], with a choice of what becomes of a rewritten path that is not
/// valid.
pub open spec fn outcome_by(
    head: Head,
    peer: Seq<char>,
    table: Table,
    ticket: int,
    forwarded: bool,
    protocol: UpstreamProtocol,
    bad: BadRewrite,
) -> Outcome {
    match table_route(table, request_host(head), target_path(head.uri), false) {
        None => Outcome::Reject(404),
        Some(action) => addressed(
            head,
            peer,
            action.filters,
            turn(action, ticket).address,
            parsed_or(path_and_query_of(rewritten_target(action.filters, head.uri)), bad),
            forwarded,
            protocol,
        ),
    }
}

/// The member of an action's group whose turn the ticket is.
pub open spec fn turn(action: Action, ticket: int) -> Endpoint {
    action.members[action.cycle[ticket % (action.cycle.len() as int)]]
}

/// Whether a call that changed `before` into `after` and returned `r` did what
/// the outcome says. A rejected request is left as it was. A request whose header map
/// is too full to take what goes upstream is rejected too.
pub open spec fn carried_out(before: Head, after: Head, r: Prepared, o: Outcome) -> bool {
    match o {
        Outcome::Reject(status) => r == Prepared::Reject(status) && after == before,
        Outcome::Forward { head, filters, address } => {
            ||| {
                &&& after == head
                &&& r matches Prepared::Forward { filters: f, address: a } && f@ == filters && a@
                    == address
            }
            ||| {
                &&& !fits(before.headers, filters)
                &&& r == Prepared::Reject(500)
                &&& after == before
            }
        },
    }
}

/// Whether a ticket was drawn from the group of the route that a request takes, where it
/// takes one.
pub open spec fn drawn_for(groups: TableOf<TargetGroup>, head: Head, ticket: usize) -> bool {
    drawn_from(table_route(groups, request_host(head), target_path(head.uri), false), ticket)
}

/// Rewrite `parts` in place so it addresses the selected backend.
///
/// Returns [`Prepared::Reject`] without touching `parts` when the request does
/// not route or the chosen backend is unusable. Which table is in force and whose
/// turn it is depend on the other threads.
pub fn prepare(
    parts: &mut RequestParts,
    peer_ip: &str,
    routes: &SharedRouteTable,
    forwarded_headers: bool,
    upstream_protocol: UpstreamProtocol,
) -> (r: Prepared)
    ensures
        exists|table: RouteTable, ticket: usize|
            was_in_force(*routes, table) && drawn_for(table.groups(), old(parts)@, ticket)
                && carried_out(
                old(parts)@,
                final(parts)@,
                r,
                #[trigger] outcome(
                    old(parts)@,
                    peer_ip@,
                    table@,
                    ticket as int,
                    forwarded_headers,
                    upstream_protocol,
                ),
            ),
{
    let table = routes.load();
    let ghost before = parts@;
    let r = prepare_with(
        parts,
        peer_ip,
        &table,
        forwarded_headers,
        upstream_protocol,
        BadRewrite::Reject,
    );
    proof {
        let ticket = choose|ticket: usize|
            drawn_for(table.groups(), before, ticket) && carried_out(
                before,
                parts@,
                r,
                #[trigger] outcome_by(
                    before,
                    peer_ip@,
                    table@,
                    ticket as int,
                    forwarded_headers,
                    upstream_protocol,
                    BadRewrite::Reject,
                ),
            );
        assert(carried_out(
            before,
            parts@,
            r,
            outcome(
                before,
                peer_ip@,
                table@,
                ticket as int,
                forwarded_headers,
                upstream_protocol,
            ),
        ));
    }
    r
}

/// [`prepare`] under the given table, with a choice of what becomes of a rewritten
/// path that is not valid.
pub fn prepare_with(
    parts: &mut RequestParts,
    peer_ip: &str,
    table: &RouteTable,
    forwarded_headers: bool,
    upstream_protocol: UpstreamProtocol,
    bad_rewrite: BadRewrite,
) -> (r: Prepared)
    ensures
        exists|ticket: usize|
            drawn_for(table.groups(), old(parts)@, ticket) && carried_out(
                old(parts)@,
                final(parts)@,
                r,
                #[trigger] outcome_by(
                    old(parts)@,
                    peer_ip@,
                    table@,
                    ticket as int,
                    forwarded_headers,
                    upstream_protocol,
                    bad_rewrite,
                ),
            ),
{
    // HTTP/2 carries the authority in :authority, HTTP/1.1 in Host.
    let host: Option<String> = match parts.uri.host() {
        Some(host) => Some(host),
        None => {
            proof {
                lemma_own_names();
            }
            match header_get(&parts.headers, "host") {
                Some(value) => value_text(value.as_slice()),
                None => None,
            }
        },
    };
    let path = parts.uri.path();

    // 1. Route lookup.
    let found = match &host {
        Some(host) => table.lookup(Some(host.as_str()), path.as_str()),
        None => table.lookup(None, path.as_str()),
    };
    let action = match found {
        Some(action) => action,
        None => {
            assert(drawn_for(table.groups(), parts@, 0usize));
            assert(carried_out(
                parts@,
                parts@,
                Prepared::Reject(404),
                outcome_by(
                    parts@,
                    peer_ip@,
                    table@,
                    0usize as int,
                    forwarded_headers,
                    upstream_protocol,
                    bad_rewrite,
                ),
            ));
            return Prepared::Reject(404);
        },
    };

    // 2. Pick a backend.
    let target = action.target_group.select();
    let ghost ticket = choose|ticket: usize|
        action.target_group.drew(ticket) && target@ == #[trigger] action.target_group.turn_of(
            ticket as int,
        );
    assert(turn(action@, ticket as int) == target@);
    assert(drawn_for(table.groups(), parts@, ticket));

    // 3. Read the path and query as it goes upstream.
    let parsed: Option<String> = if action.filters.rewrites_path() {
        let with_query = rewrite_with_query(&parts.uri, &action.filters);
        match parse_path_and_query(with_query.as_str()) {
            Some(pq) => Some(pq),
            None => if bad_rewrite == BadRewrite::UseRoot {
                proof {
                    reveal_strlit("/");
                    assert("/"@ =~= seq!['/']);
                }
                Some("/".to_owned())
            } else {
                None
            },
        }
    } else {
        None
    };
    let ghost before = parts@;
    let r = forward_to(
        parts,
        peer_ip,
        &action.filters,
        target,
        parsed,
        forwarded_headers,
        upstream_protocol,
    );
    assert(carried_out(
        before,
        parts@,
        r,
        outcome_by(
            before,
            peer_ip@,
            table@,
            ticket as int,
            forwarded_headers,
            upstream_protocol,
            bad_rewrite,
        ),
    ));
    r
}

/// The rewritten path with the query put back.
pub fn rewrite_with_query(uri: &RequestTarget, filters: &RouteFilters) -> (r: String)
    ensures
        r@ == rewritten_target(filters@, uri@),
{
    let path = uri.path();
    let mut out = filters.apply_url_rewrite(path.as_str());
    match uri.query() {
        Some(query) => {
            out.push('?');
            out.append(query.as_str());
            assert(out@ =~= rewritten_target(filters@, uri@));
        },
        None => {},
    }
    out
}

/// Rewrite `parts` in place so it addresses `target`, given what the parser made
/// of the rewritten path.
pub fn forward_to(
    parts: &mut RequestParts,
    peer_ip: &str,
    filters: &RouteFilters,
    target: &BackendEndpoint,
    parsed: Option<String>,
    forwarded_headers: bool,
    upstream_protocol: UpstreamProtocol,
) -> (r: Prepared)
    ensures
        carried_out(
            old(parts)@,
            final(parts)@,
            r,
            addressed(
                old(parts)@,
                peer_ip@,
                filters@,
                target@.address,
                optional(parsed),
                forwarded_headers,
                upstream_protocol,
            ),
        ),
{
    let authority: String = match target.authority() {
        Some(authority) => authority.to_owned(),
        None => return Prepared::Reject(502),
    };
    let path_and_query: String = if filters.rewrites_path() {
        match parsed {
            Some(pq) => pq,
            None => return Prepared::Reject(500),
        }
    } else {
        match &parts.uri.path_and_query {
            Some(pq) => pq.clone(),
            None => {
                proof {
                    reveal_strlit("/");
                }
                let root = "/".to_owned();
                assert(root@ =~= seq!['/']);
                root
            },
        }
    };
    // 4. Header hygiene, on a copy to fall back on where the map might turn out full.
    let names: usize = header_count(&parts.headers);
    let rules: usize = filters.request_rules();
    let spare: Option<HeaderMap> = if names > MAX_HEADER_NAMES || rules > MAX_HEADER_NAMES || names
        + rules + 3 > MAX_HEADER_NAMES {
        Some(header_copy(&parts.headers))
    } else {
        None
    };
    let ghost before = parts@;
    if !dress(
        &mut parts.headers,
        peer_ip,
        filters,
        authority.as_str(),
        forwarded_headers,
        upstream_protocol,
    ) {
        if let Some(headers) = spare {
            parts.headers = headers;
        }
        assert(parts@ == before);
        return Prepared::Reject(500);
    }
    // The downstream version must not leak upstream: an h2c client would
    // otherwise force HTTP/2 onto an HTTP/1.1 upstream pool and come back 502.
    parts.version = match upstream_protocol {
        UpstreamProtocol::Http1 => Version::Http11,
        UpstreamProtocol::Http2 => Version::Http2,
    };
    let address = authority.clone();
    parts.uri = RequestTarget {
        scheme: Some("http".to_owned()),
        authority: Some(authority),
        path_and_query: Some(path_and_query),
    };
    Prepared::Forward { filters: filters.clone(), address }
}

/// Bring headers to what goes upstream (RFC 9110 §7.6.1), if the map takes it.
fn dress(
    headers: &mut HeaderMap,
    peer_ip: &str,
    filters: &RouteFilters,
    authority: &str,
    forwarded_headers: bool,
    upstream_protocol: UpstreamProtocol,
) -> (r: bool)
    ensures
        fits(header_entries(*old(headers)), filters@) ==> r,
        r ==> header_entries(*final(headers)) == upstream_headers(
            header_entries(*old(headers)),
            peer_ip@,
            forwarded_headers,
            filters@,
            authority@,
            upstream_protocol,
        ),
{
    let ghost before = header_entries(*headers);
    strip_hop_by_hop(headers);
    let ghost clean = header_entries(*headers);
    proof {
        lemma_own_names();
        if before.dom().finite() {
            lemma_strip_shrinks(before);
        }
    }
    if forwarded_headers {
        if !try_forwarded_for(headers, peer_ip) {
            return false;
        }
        proof {
            lemma_http_is_visible();
            if clean.dom().finite() {
                lemma_insert_grows(clean, FORWARDED_FOR@);
            }
        }
        let ghost marked = header_entries(*headers);
        if !try_forwarded_proto(headers, "http") {
            return false;
        }
        proof {
            if marked.dom().finite() {
                lemma_insert_grows(marked, FORWARDED_PROTO@);
            }
        }
    }
    let ghost marked = header_entries(*headers);
    if !filters.try_request_headers(headers) {
        return false;
    }
    proof {
        if marked.dom().finite() {
            lemma_names_after_rules(marked, filters@.request);
        }
    }
    set_authority(headers, authority, upstream_protocol)
}

/// The text of an optional string.
pub open spec fn optional(s: Option<String>) -> Option<Seq<char>> {
    match s {
        Some(text) => Some(text@),
        None => None,
    }
}

proof fn lemma_http_is_visible()
    ensures
        is_visible_value(encode_utf8("http"@)),
{
    reveal_strlit("http");
    vstd::utf8::is_ascii_chars_encode_utf8("http"@);
}

proof fn lemma_strip_shrinks(entries: Map<Seq<char>, Seq<Seq<u8>>>)
    requires
        entries.dom().finite(),
    ensures
        stripped(entries).dom().finite(),
        stripped(entries).dom().len() <= entries.dom().len(),
{
    assert(stripped(entries).dom().subset_of(entries.dom()));
    vstd::set_lib::lemma_len_subset(stripped(entries).dom(), entries.dom());
}

proof fn lemma_insert_grows(entries: Map<Seq<char>, Seq<Seq<u8>>>, name: Seq<char>)
    requires
        entries.dom().finite(),
    ensures
        forall|value: Seq<Seq<u8>>| #[trigger]
            entries.insert(name, value).dom().finite() && entries.insert(name, value).dom().len()
                <= entries.dom().len() + 1,
{
    assert forall|value: Seq<Seq<u8>>| #[trigger]
        entries.insert(name, value).dom().finite() && entries.insert(name, value).dom().len()
            <= entries.dom().len() + 1 by {
        assert(entries.insert(name, value).dom() =~= entries.dom().insert(name));
    }
}

/// HTTP/2 has no `Host`; HTTP/1.1 requires one matching the authority.
fn set_authority(
    headers: &mut HeaderMap,
    authority: &str,
    protocol: UpstreamProtocol,
) -> (r: bool)
    ensures
        has_room(*old(headers), 1) ==> r,
        r ==> header_entries(*final(headers)) == with_authority(
            header_entries(*old(headers)),
            authority@,
            protocol,
        ),
{
    proof {
        lemma_own_names();
    }
    if protocol == UpstreamProtocol::Http1 {
        if is_valid_header_value(authority.as_bytes()) {
            header_insert(headers, "host", authority.as_bytes())
        } else {
            true
        }
    } else {
        header_remove(headers, "host");
        true
    }
}

/// Response-side hygiene, symmetric with [`prepare`]. A map that is too full to take
/// the route's headers is left as it was; the result says whether it took them.
pub fn finish_response(headers: &mut HeaderMap, filters: &RouteFilters) -> (r: bool)
    ensures
        has_room(*old(headers), filters@.response.len() as int) || filters@.response.len() == 0
            ==> r,
        r ==> header_entries(*final(headers)) == rules_applied(
            stripped(header_entries(*old(headers))),
            filters@.response,
        ),
        !r ==> header_entries(*final(headers)) == header_entries(*old(headers)),
{
    let names: usize = header_count(headers);
    let rules: usize = filters.response_rules();
    let spare: Option<HeaderMap> = if names > MAX_HEADER_NAMES || rules > MAX_HEADER_NAMES || names
        + rules > MAX_HEADER_NAMES {
        Some(header_copy(headers))
    } else {
        None
    };
    proof {
        lemma_strip_shrinks(header_entries(*headers));
    }
    strip_hop_by_hop(headers);
    if rules == 0 {
        assert(filters@.response =~= Seq::empty());
        return true;
    }
    if filters.try_response_headers(headers) {
        return true;
    }
    if let Some(kept) = spare {
        *headers = kept;
    }
    false
}

/// An HTTP/1.1 upstream is sent a `Host` that is the backend's authority, and an
/// HTTP/2 upstream none, whatever the request and the route's modifiers say.
pub proof fn lemma_host_matches_the_backend(
    headers: Map<Seq<char>, Seq<Seq<u8>>>,
    peer: Seq<char>,
    forwarded: bool,
    filters: Filters,
    authority: Seq<char>,
    protocol: UpstreamProtocol,
)
    requires
        is_header_value(encode_utf8(authority)),
    ensures
        values_of(
            upstream_headers(headers, peer, forwarded, filters, authority, protocol),
            "host"@,
        ) == (match protocol {
            UpstreamProtocol::Http1 => seq![encode_utf8(authority)],
            UpstreamProtocol::Http2 => Seq::<Seq<u8>>::empty(),
        }),
{
}

/// The forwarding headers are opt-in: without them, and without a modifier that
/// names it, `X-Forwarded-For` goes upstream as it came in.
pub proof fn lemma_forwarding_headers_are_opt_in(
    headers: Map<Seq<char>, Seq<Seq<u8>>>,
    peer: Seq<char>,
    filters: Filters,
    authority: Seq<char>,
    protocol: UpstreamProtocol,
)
    requires
        forall|i: int|
            0 <= i < filters.request.len() ==> rule_name(#[trigger] filters.request[i])
                != FORWARDED_FOR@,
    ensures
        values_of(
            upstream_headers(headers, peer, false, filters, authority, protocol),
            FORWARDED_FOR@,
        ) == values_of(stripped(headers), FORWARDED_FOR@),
{
    reveal_strlit("host");
    reveal_strlit("x-forwarded-for");
    assert("host"@.len() != FORWARDED_FOR@.len());
    lemma_other_headers_untouched(stripped(headers), filters.request, FORWARDED_FOR@);
}

/// With them, and with neither a modifier nor the peer's text in the way, the
/// chain that came in goes upstream with the peer appended.
pub proof fn lemma_forwarded_chain_is_extended(
    headers: Map<Seq<char>, Seq<Seq<u8>>>,
    peer: Seq<char>,
    filters: Filters,
    authority: Seq<char>,
    protocol: UpstreamProtocol,
)
    requires
        forall|i: int|
            0 <= i < filters.request.len() ==> rule_name(#[trigger] filters.request[i])
                != FORWARDED_FOR@,
        is_visible_value(encode_utf8(peer)),
    ensures
        values_of(
            upstream_headers(headers, peer, true, filters, authority, protocol),
            FORWARDED_FOR@,
        ) == seq![forwarded_chain(values_of(stripped(headers), FORWARDED_FOR@), peer)],
{
    reveal_strlit("host");
    reveal_strlit("x-forwarded-for");
    reveal_strlit("x-forwarded-proto");
    assert("host"@.len() != FORWARDED_FOR@.len());
    assert(FORWARDED_PROTO@.len() != FORWARDED_FOR@.len());
    let clean = stripped(headers);
    let existing = values_of(clean, FORWARDED_FOR@);
    let chain = forwarded_chain(existing, peer);
    assert(is_header_value(chain)) by {
        assert forall|i: int| 0 <= i < chain.len() implies is_value_byte(#[trigger] chain[i]) by {
            let p = encode_utf8(peer);
            if existing.len() > 0 && is_visible_value(existing[0]) {
                if i < existing[0].len() {
                    assert(is_visible(existing[0][i]));
                } else if i >= existing[0].len() + 2 {
                    assert(is_visible(p[i - existing[0].len() - 2]));
                }
            } else {
                assert(is_visible(p[i]));
            }
        }
    }
    let marked = with_forwarded_for(clean, peer).insert(FORWARDED_PROTO@, seq![plain_http()]);
    lemma_other_headers_untouched(marked, filters.request, FORWARDED_FOR@);
}

/// Nothing hop-by-hop goes upstream unless a modifier of the route puts it there.
pub proof fn lemma_nothing_hop_by_hop_goes_upstream(
    headers: Map<Seq<char>, Seq<Seq<u8>>>,
    peer: Seq<char>,
    forwarded: bool,
    filters: Filters,
    authority: Seq<char>,
    protocol: UpstreamProtocol,
    name: Seq<char>,
)
    requires
        stays_behind(headers, name),
        name != "host"@,
        name != FORWARDED_FOR@,
        name != FORWARDED_PROTO@,
        forall|i: int|
            0 <= i < filters.request.len() ==> rule_name(#[trigger] filters.request[i]) != name,
    ensures
        !upstream_headers(
            headers,
            peer,
            forwarded,
            filters,
            authority,
            protocol,
        ).contains_key(name),
{
    let clean = stripped(headers);
    let marked = if forwarded {
        with_forwarded_for(clean, peer).insert(FORWARDED_PROTO@, seq![plain_http()])
    } else {
        clean
    };
    lemma_other_headers_untouched(marked, filters.request, name);
}

} // verus!
