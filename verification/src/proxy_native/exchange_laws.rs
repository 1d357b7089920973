//! What a request and its response come to on a connection.

use vstd::prelude::*;
use vstd::string::*;
use vstd::utf8::encode_utf8;

use crate::lb_core::route_table::Action;
use crate::proxy_native::conn::{
    request_taken, response_taken, routing_host, routing_path, span_text, ConnView, Failure, Next,
};
use crate::proxy_native::head_laws::alike;
use crate::proxy_native::message::{
    client_head, request_framing, request_head, response_framing, response_head, upstream_head,
    Body, RequestHead,
};
use crate::text::{lemma_position, nat_text, position_of, trimmed};
use crate::text_laws::lemma_numbers_read_back;
use crate::wire::{contains_ignoring_case, Field, RequestFields, ResponseFields};

verus! {

/// How many of `n` bytes behind a head belong to its body.
pub open spec fn body_bytes(body: Body, n: nat) -> nat {
    match body {
        Body::Empty => 0,
        Body::Length(k) => if k < n {
            k as nat
        } else {
            n
        },
        _ => n,
    }
}

/// A request that a route takes goes to the backend of the route whose turn it is: its head
/// rewritten for that backend, and behind it the bytes of its body that came with the head,
/// as they came. One that no route takes is answered with 404.
pub proof fn lemma_request_goes_to_its_backend(
    c: ConnView,
    buf: Seq<u8>,
    p: RequestFields,
    route: Option<Action>,
    ticket: int,
)
    requires
        0 <= p.head_len <= buf.len() <= usize::MAX,
    ensures
        ({
            let (d, next) = request_taken(c, buf, p, route, ticket);
            let head = request_head(p);
            &&& route is None ==> next == Next::Fail(Failure::NotFound)
                && Failure::NotFound.status_of() == 404
            &&& route matches Some(action) ==> ({
                let backend = action.members[action.cycle[ticket % (
                action.cycle.len() as int)]].address;
                let start = upstream_head(p, backend, c.peer, action.filters.request, p.target->0);
                let body = body_bytes(head.body, (buf.len() - p.head_len) as nat);
                &&& next == Next::Dial
                &&& d.upstream_addr == Some(backend)
                &&& d.out == start + buf.subrange(p.head_len, p.head_len + body)
                &&& d.out_sent == 0
                &&& d.filters == action.filters
            })
            &&& d.peer == c.peer && d.client_fd == c.client_fd && d.keep_alive == head.keep_alive
                && d.request_was_head == head.method_is_head
        }),
{
    let head = request_head(p);
    let rest = buf.skip(p.head_len);
    let body = body_bytes(head.body, rest.len());
    assert(rest.take(body as int) =~= buf.subrange(p.head_len, p.head_len + body));
    assert(rest.take(rest.len() as int) =~= rest);
    assert(rest.take(0) =~= Seq::empty());
}

/// A response's head goes to the client rewritten for what the connection will do: it stays
/// open only where both sides ask for it.
pub proof fn lemma_response_goes_to_the_client(c: ConnView, buf: Seq<u8>, p: ResponseFields)
    ensures
        ({
            let (d, next) = response_taken(c, buf, p);
            let head = response_head(p, c.request_was_head);
            let start = client_head(p, c.keep_alive && head.keep_alive, c.filters.response);
            &&& next == Next::WriteClient
            &&& d.keep_alive == (c.keep_alive && head.keep_alive)
            &&& start.len() <= d.out.len()
            &&& d.out.take(start.len() as int) == start
            &&& d.out_sent == 0
        }),
{
    let (d, next) = response_taken(c, buf, p);
    let head = response_head(p, c.request_was_head);
    let start = client_head(p, c.keep_alive && head.keep_alive, c.filters.response);
    assert(d.out.take(start.len() as int) =~= start);
}

/// A request is routed by its target without the query, and by what its `Host` header says.
pub proof fn lemma_request_is_routed_by_path_and_host(
    buf: Seq<u8>,
    head: RequestHead,
    path: Seq<char>,
    query: Seq<char>,
)
    requires
        !path.contains('?'),
    ensures
        span_text(buf, head.path) == Some(path + seq!['?'] + query) ==> routing_path(buf, head)
            == path,
        span_text(buf, head.path) == Some(path) ==> routing_path(buf, head) == path,
        head.host is None ==> routing_host(buf, head) is None,
        head.host matches Some(span) ==> (span_text(buf, span) matches Some(h) ==> routing_host(
            buf,
            head,
        ) == Some(trimmed(h))),
{
    let long = path + seq!['?'] + query;
    lemma_position(long, '?');
    lemma_position(path, '?');
    let k = position_of(long, '?');
    assert(long[path.len() as int] == '?');
    if k < path.len() {
        assert(path[k] == '?');
    }
    let j = position_of(path, '?');
    if j < path.len() {
        assert(path[j] == '?');
    }
    assert(long.take(path.len() as int) =~= path);
    assert(path.take(path.len() as int) =~= path);
}

// ---------------------------------------------------------------------------
// Framing
// ---------------------------------------------------------------------------

/// Whether a header says nothing of how a message is framed or routed.
pub open spec fn is_plain_header(h: Field) -> bool {
    !alike(h.name, "host"@) && !alike(h.name, "content-length"@) && !alike(
        h.name,
        "transfer-encoding"@,
    ) && !alike(h.name, "connection"@)
}

proof fn lemma_plain_request_header(
    version: Option<u8>,
    before: Seq<Field>,
    h: Field,
    after: Seq<Field>,
)
    requires
        is_plain_header(h),
    ensures
        request_framing(version, before + seq![h] + after) == request_framing(
            version,
            before + after,
        ),
        response_framing(version, before + seq![h] + after) == response_framing(
            version,
            before + after,
        ),
    decreases after.len(),
{
    let all = before + seq![h] + after;
    if after.len() == 0 {
        assert(all.drop_last() =~= before + after);
        assert(all.last() == h);
    } else {
        lemma_plain_request_header(version, before, h, after.drop_last());
        assert(all.drop_last() =~= before + seq![h] + after.drop_last());
        assert((before + after).drop_last() =~= before + after.drop_last());
        assert(all.last() == after.last());
        assert((before + after).last() == after.last());
    }
}

/// A header that says nothing of a message's framing does not matter for it.
pub proof fn lemma_other_headers_do_not_frame(
    p: RequestFields,
    q: ResponseFields,
    before: Seq<Field>,
    h: Field,
    after: Seq<Field>,
    was_head: bool,
)
    requires
        is_plain_header(h),
        p.headers == before + seq![h] + after,
        q.headers == before + seq![h] + after,
    ensures
        request_head(p) == request_head(RequestFields { headers: before + after, ..p }),
        response_head(q, was_head) == response_head(
            ResponseFields { headers: before + after, ..q },
            was_head,
        ),
{
    lemma_plain_request_header(p.version, before, h, after);
    lemma_plain_request_header(q.version, before, h, after);
}

proof fn lemma_framing_names()
    ensures
        !alike("content-length"@, "host"@),
        !alike("transfer-encoding"@, "host"@),
        !alike("connection"@, "host"@),
        !alike("transfer-encoding"@, "content-length"@),
        !alike("connection"@, "content-length"@),
        !alike("connection"@, "transfer-encoding"@),
{
    reveal_strlit("host");
    reveal_strlit("content-length");
    reveal_strlit("transfer-encoding");
    reveal_strlit("connection");
    use_lengths("content-length"@, "host"@);
    use_lengths("transfer-encoding"@, "host"@);
    use_lengths("connection"@, "host"@);
    use_lengths("transfer-encoding"@, "content-length"@);
    use_lengths("connection"@, "content-length"@);
    use_lengths("connection"@, "transfer-encoding"@);
}

proof fn use_lengths(a: Seq<char>, b: Seq<char>)
    requires
        a.len() != b.len(),
    ensures
        !alike(a, b),
{
    assert(crate::text::lower_text(a).len() == a.len());
    assert(crate::text::lower_text(b).len() == b.len());
}

/// A message whose last framing header is a length of `n` has a body of `n` bytes; one whose
/// last is a chunked transfer coding is chunked, whatever lengths came before.
pub proof fn lemma_framing_headers_frame(
    p: RequestFields,
    q: ResponseFields,
    headers: Seq<Field>,
    h: Field,
    n: usize,
)
    requires
        p.headers == headers.push(h),
        q.headers == headers.push(h),
        q.status is Some,
        q.status->0 >= 200,
        q.status->0 != 204,
        q.status->0 != 304,
    ensures
        alike(h.name, "content-length"@) && h.value == encode_utf8(nat_text(n as nat))
            && !request_framing(p.version, headers).chunked ==> request_head(p).body == (if n == 0 {
            Body::Empty
        } else {
            Body::Length(n)
        }),
        alike(h.name, "content-length"@) && h.value == encode_utf8(nat_text(n as nat))
            && !response_framing(q.version, headers).chunked ==> response_head(q, false).body == (
        if n == 0 {
            Body::Empty
        } else {
            Body::Length(n)
        }),
        alike(h.name, "transfer-encoding"@) && contains_ignoring_case(
            h.value,
            encode_utf8("chunked"@),
        ) ==> request_head(p).body is Chunked && response_head(q, false).body is Chunked,
        alike(h.name, "connection"@) && contains_ignoring_case(h.value, encode_utf8("close"@)) ==>
            !request_head(p).keep_alive && !response_head(q, false).keep_alive,
        alike(h.name, "connection"@) && contains_ignoring_case(
            h.value,
            encode_utf8("keep-alive"@),
        ) && !contains_ignoring_case(h.value, encode_utf8("close"@)) ==> request_head(p).keep_alive,
        response_head(q, true).body is Empty,
{
    let all = headers.push(h);
    assert(all.drop_last() =~= headers);
    lemma_numbers_read_back(n as nat, usize::MAX as int);
    lemma_framing_names();
    assert(forall|a: Seq<char>, b: Seq<char>, c: Seq<char>|
        alike(a, b) && #[trigger] alike(a, c) ==> #[trigger] alike(b, c));
}

/// A message without headers has no body as a request; as a response it runs until the close
/// unless its status or its request rules a body out. HTTP/1.1 keeps the connection, HTTP/1.0
/// does not.
pub proof fn lemma_bare_messages(p: RequestFields, q: ResponseFields, was_head: bool)
    requires
        p.headers.len() == 0,
        q.headers.len() == 0,
        q.status is Some,
    ensures
        request_head(p).body is Empty,
        request_head(p).keep_alive == (p.version == Some(1u8)),
        request_head(p).host is None,
        request_head(p).method_is_head == alike(p.method->0, "HEAD"@),
        response_head(q, was_head).keep_alive == (q.version == Some(1u8)),
        response_head(q, was_head).body == (if was_head || q.status->0 == 204 || q.status->0 == 304
            || 100 <= q.status->0 <= 199 {
            Body::Empty
        } else {
            Body::UntilClose
        }),
{
}

/// What the proxy answers on its own account says what was wrong.
pub proof fn lemma_failures_say_what_was_wrong()
    ensures
        Failure::BadRequest.status_of() == 400 && Failure::BadRequest.reason_of()
            == "Bad Request"@,
        Failure::NotFound.status_of() == 404 && Failure::NotFound.reason_of() == "Not Found"@,
        Failure::HeadTooLarge.status_of() == 431 && Failure::HeadTooLarge.reason_of()
            == "Request Header Fields Too Large"@,
        Failure::BadGateway.status_of() == 502 && Failure::BadGateway.reason_of()
            == "Bad Gateway"@,
        Failure::Unavailable.status_of() == 503 && Failure::Unavailable.reason_of()
            == "Service Unavailable"@,
{
}

} // verus!
