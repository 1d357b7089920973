//! What a request and its response come to on a connection.

use vstd::prelude::*;
use vstd::string::*;
use vstd::utf8::encode_utf8;

use crate::lb_core::filter::{rewritten, Filters};
use crate::lb_core::route_table::Action;
use crate::proxy_monoio::http1::{
    closes_after, forward_head, framing_of, request_info, response_info, return_head, BodyLength,
    RequestInfo, ResponseHead,
};
use crate::proxy_monoio::server::{
    answered, finished_turn, forward_target_of, routed, target_path, target_query, Act, Progress,
    Refusal, MAX_REQUESTS_PER_CONNECTION,
};
use crate::proxy_native::head_laws::alike;
use crate::text::{lemma_position, nat_text, pieces, position_of, trimmed};
use crate::text_laws::lemma_numbers_read_back;
use crate::wire::{Field, RequestFields, ResponseFields};

verus! {

/// A target is read as the path before the first question mark and the query behind it.
pub proof fn lemma_target_reads_back(path: Seq<char>, query: Seq<char>)
    requires
        !path.contains('?'),
    ensures
        target_path(path + seq!['?'] + query) == path,
        target_query(path + seq!['?'] + query) == Some(query),
        target_path(path) == path,
        target_query(path) is None,
{
    let long = path + seq!['?'] + query;
    lemma_position(long, '?');
    lemma_position(path, '?');
    let k = position_of(long, '?');
    assert(long[path.len() as int] == '?');
    if k < path.len() {
        assert(path[k] == '?');
    }
    let j = position_of(path, '?');
    if j < path.len() {
        assert(path[j] == '?');
    }
    assert(long.take(path.len() as int) =~= path);
    assert(long.skip((path.len() + 1) as int) =~= query);
    assert(path.take(path.len() as int) =~= path);
}

/// A rewrite changes the path of a target alone: its query stays what it was. Without a
/// rewrite the whole target does. Replacements that hold a question mark of their own are
/// another matter.
pub proof fn lemma_rewrite_keeps_the_query(filters: Filters, target: Seq<char>)
    requires
        !rewritten(filters.rewrite, target_path(target)).contains('?'),
    ensures
        target_query(forward_target_of(filters, target)) == target_query(target),
        filters.rewrite is Some ==> target_path(forward_target_of(filters, target)) == rewritten(
            filters.rewrite,
            target_path(target),
        ),
        filters.rewrite is None ==> forward_target_of(filters, target) == target,
{
    let path = rewritten(filters.rewrite, target_path(target));
    match target_query(target) {
        Some(q) => lemma_target_reads_back(path, q),
        None => lemma_target_reads_back(path, Seq::empty()),
    }
}

/// A request that a route takes goes to the backend of the route whose turn it is, with its
/// head rewritten for that backend: its own method, its target as the route rewrites it, and
/// the peer only where it is to be told of. One that no route takes is answered with 404,
/// and the connection ends.
pub proof fn lemma_request_goes_to_its_backend(
    p: Progress,
    cbuf: Seq<u8>,
    ubuf: Seq<u8>,
    info: RequestInfo,
    route: Option<Action>,
    ticket: int,
)
    ensures
        ({
            let t = routed(p, cbuf, ubuf, info, route, ticket);
            &&& t.cbuf == cbuf && t.ubuf == ubuf && t.at.served == p.served + 1
            &&& route is None ==> t.act == Act::Refuse(Refusal::NotFound) && t.at.phase is Done
            &&& route matches Some(action) ==> ({
                let backend = action.members[action.cycle[ticket % (
                action.cycle.len() as int)]].address;
                &&& t.act == Act::Acquire
                &&& t.at.phase is Acquire
                &&& t.at.upstream_addr == backend
                &&& t.at.method == info.method
                &&& t.at.body == info.body
                &&& t.at.head_len == info.head_len as nat
                &&& t.at.keep_alive == (!info.close_requested && p.served + 1
                    < MAX_REQUESTS_PER_CONNECTION)
                &&& p.forwarded ==> t.at.out == forward_head(
                    cbuf.take(p.filled as int).take(info.head_len),
                    info.method,
                    forward_target_of(action.filters, info.target),
                    backend,
                    Some(p.peer),
                )
                &&& !p.forwarded ==> t.at.out == forward_head(
                    cbuf.take(p.filled as int).take(info.head_len),
                    info.method,
                    forward_target_of(action.filters, info.target),
                    backend,
                    None,
                )
            })
        }),
{
}

/// A response's head goes to the client rewritten for what the connection will do. The
/// client's connection is kept only where the request allows it and the body has an end of
/// its own; the upstream's only where the response allows it and the body has.
pub proof fn lemma_response_goes_to_the_client(
    p: Progress,
    cbuf: Seq<u8>,
    ubuf: Seq<u8>,
    head: ResponseHead,
)
    ensures
        ({
            let t = answered(p, cbuf, ubuf, head);
            let ends = !(head.body is UntilClose);
            &&& t.act == Act::ReturnHead
            &&& t.at.out == return_head(
                ubuf.take(p.ufilled as int).take(head.head_len as int),
                p.keep_alive && ends,
            )
            &&& t.at.body == head.body
            &&& t.at.head_len == head.head_len as nat
            &&& t.at.reuse_client == (p.keep_alive && ends)
            &&& t.at.reuse_upstream == (!head.close_requested && ends)
            &&& t.at.upstream_addr == p.upstream_addr && t.at.filled == p.filled && t.at.ufilled
                == p.ufilled
        }),
{
}

/// At the end of an exchange the upstream's connection is parked where it can be used again,
/// and the client's is closed unless it can.
pub proof fn lemma_connections_are_kept_where_they_can(p: Progress, cbuf: Seq<u8>, ubuf: Seq<u8>)
    ensures
        finished_turn(p, cbuf, ubuf).act == (Act::Finish {
            park: p.reuse_upstream,
            close: !(p.keep_alive && p.reuse_client),
        }),
        finished_turn(p, cbuf, ubuf).at.phase is Head <==> p.keep_alive && p.reuse_client,
{
}

// ---------------------------------------------------------------------------
// Framing
// ---------------------------------------------------------------------------

/// Whether a header says nothing of how a message is framed or routed.
pub open spec fn is_plain_header(h: Field) -> bool {
    !alike(h.name, "host"@) && !alike(h.name, "content-length"@) && !alike(
        h.name,
        "transfer-encoding"@,
    ) && !alike(h.name, "connection"@)
}

/// A header that says nothing of a message's framing does not matter for it.
pub proof fn lemma_other_headers_do_not_frame(
    version: Option<u8>,
    before: Seq<Field>,
    h: Field,
    after: Seq<Field>,
    request: bool,
)
    requires
        is_plain_header(h),
    ensures
        framing_of(version, before + seq![h] + after, request) == framing_of(
            version,
            before + after,
            request,
        ),
    decreases after.len(),
{
    let all = before + seq![h] + after;
    if after.len() == 0 {
        assert(all.drop_last() =~= before + after);
        assert(all.last() == h);
    } else {
        lemma_other_headers_do_not_frame(version, before, h, after.drop_last(), request);
        assert(all.drop_last() =~= before + seq![h] + after.drop_last());
        assert((before + after).drop_last() =~= before + after.drop_last());
        assert(all.last() == after.last());
        assert((before + after).last() == after.last());
    }
}

proof fn lemma_framing_names()
    ensures
        !alike("content-length"@, "host"@),
        !alike("transfer-encoding"@, "host"@),
        !alike("connection"@, "host"@),
        !alike("transfer-encoding"@, "content-length"@),
        !alike("connection"@, "content-length"@),
        !alike("connection"@, "transfer-encoding"@),
        !alike("close"@, "keep-alive"@),
{
    reveal_strlit("host");
    reveal_strlit("content-length");
    reveal_strlit("transfer-encoding");
    reveal_strlit("connection");
    reveal_strlit("close");
    reveal_strlit("keep-alive");
    use_lengths("content-length"@, "host"@);
    use_lengths("transfer-encoding"@, "host"@);
    use_lengths("connection"@, "host"@);
    use_lengths("transfer-encoding"@, "content-length"@);
    use_lengths("connection"@, "content-length"@);
    use_lengths("connection"@, "transfer-encoding"@);
    use_lengths("close"@, "keep-alive"@);
}

proof fn use_lengths(a: Seq<char>, b: Seq<char>)
    requires
        a.len() != b.len(),
    ensures
        !alike(a, b),
{
    assert(crate::text::lower_text(a).len() == a.len());
    assert(crate::text::lower_text(b).len() == b.len());
}

/// The last header that speaks of it decides: a length of `n` makes a body of `n` bytes, a
/// transfer coding that ends in chunked a chunked one whatever lengths came before, a `Host`
/// the host, and a `Connection` that says `close` or `keep-alive` the connection's end.
pub proof fn lemma_framing_headers_frame(
    version: Option<u8>,
    headers: Seq<Field>,
    h: Field,
    n: u64,
    text: Seq<char>,
    request: bool,
)
    ensures
        ({
            let before = framing_of(version, headers, request);
            let f = framing_of(version, headers.push(h), request);
            &&& alike(h.name, "content-length"@) && h.value == encode_utf8(nat_text(n as nat)) ==>
                f.content_length == Some(n as int) && f.bad_length == before.bad_length && f.chunked
                == before.chunked && f.close == before.close && f.host == before.host
            &&& alike(h.name, "transfer-encoding"@) && h.value == encode_utf8(text) ==> f.chunked
                == alike(trimmed(pieces(text, ',').last()), "chunked"@) && f.content_length
                == before.content_length && f.close == before.close
            &&& request && alike(h.name, "host"@) && h.value == encode_utf8(text) ==> f.host
                == Some(text)
            &&& alike(h.name, "connection"@) && h.value == encode_utf8(text) ==> {
                &&& f.content_length == before.content_length && f.chunked == before.chunked
                &&& alike(trimmed(pieces(text, ',').last()), "close"@) ==> f.close
                &&& alike(trimmed(pieces(text, ',').last()), "keep-alive"@) ==> !f.close
                &&& (forall|i: int|
                    0 <= i < pieces(text, ',').len() ==> !alike(
                        trimmed(#[trigger] pieces(text, ',')[i]),
                        "close"@,
                    ) && !alike(trimmed(pieces(text, ',')[i]), "keep-alive"@)) ==> f.close
                    == before.close
            }
        }),
{
    let all = headers.push(h);
    assert(all.drop_last() =~= headers);
    lemma_numbers_read_back(n as nat, u64::MAX as int);
    lemma_framing_names();
    vstd::utf8::encode_utf8_decode_utf8(text);
    vstd::utf8::encode_utf8_valid_utf8(text);
    assert(forall|a: Seq<char>, b: Seq<char>, c: Seq<char>|
        alike(a, b) && #[trigger] alike(a, c) ==> #[trigger] alike(b, c));
    crate::text_laws::lemma_pieces_make_up_the_whole(text, ',');
    let tokens = pieces(text, ',');
    let before = framing_of(version, headers, request).close;
    if forall|i: int|
        0 <= i < tokens.len() ==> !alike(trimmed(#[trigger] tokens[i]), "close"@) && !alike(
            trimmed(tokens[i]),
            "keep-alive"@,
        ) {
        lemma_no_disposition(tokens, before);
    }
}

proof fn lemma_no_disposition(tokens: Seq<Seq<char>>, before: bool)
    requires
        forall|i: int|
            0 <= i < tokens.len() ==> !alike(trimmed(#[trigger] tokens[i]), "close"@) && !alike(
                trimmed(tokens[i]),
                "keep-alive"@,
            ),
    ensures
        closes_after(tokens, before) == before,
    decreases tokens.len(),
{
    if tokens.len() > 0 {
        let init = tokens.drop_last();
        assert forall|i: int| 0 <= i < init.len() implies !alike(
            trimmed(#[trigger] init[i]),
            "close"@,
        ) && !alike(trimmed(init[i]), "keep-alive"@) by {
            assert(init[i] == tokens[i]);
        }
        lemma_no_disposition(init, before);
        let last = tokens[tokens.len() - 1];
        assert(!alike(trimmed(last), "close"@) && !alike(trimmed(last), "keep-alive"@));
    }
}

/// What a head's framing comes to: chunked wins over a length, no length at all means no
/// body for a request and one that runs until the close for a response, and some responses
/// have none whatever they say. HTTP/1.0 closes where nothing is said.
pub proof fn lemma_framing_decides_the_body(
    buf: Seq<u8>,
    p: RequestFields,
    q: ResponseFields,
    method: Seq<char>,
)
    requires
        q.status is Some,
    ensures
        ({
            let f = framing_of(p.version, p.headers, true);
            let g = framing_of(q.version, q.headers, false);
            let none = alike(method, "HEAD"@) || q.status->0 == 204 || q.status->0 == 304 || 100
                <= q.status->0 <= 199;
            let r = response_info(q, method);
            &&& request_info(buf, p) is None <==> f.bad_length
            &&& request_info(buf, p) matches Some(info) ==> {
                &&& info.method == p.method->0
                &&& info.target == p.target->0
                &&& info.host == f.host
                &&& info.head_len == p.head_len
                &&& info.close_requested == f.close
                &&& info.body is Chunked <==> f.chunked
                &&& !f.chunked && f.content_length is Some && f.content_length->0 > 0 ==> info.body
                    == BodyLength::Fixed(f.content_length->0 as u64)
                &&& !f.chunked && (f.content_length is None || f.content_length->0 == 0)
                    ==> info.body is Empty
            }
            &&& r.status == q.status->0
            &&& r.close_requested == g.close
            &&& none ==> r.body is Empty
            &&& !none && g.chunked ==> r.body is Chunked
            &&& !none && !g.chunked && g.content_length is None ==> r.body is UntilClose
            &&& !none && !g.chunked && g.content_length is Some && g.content_length->0 > 0
                ==> r.body == BodyLength::Fixed(g.content_length->0 as u64)
            &&& !none && !g.chunked && g.content_length == Some(0int) ==> r.body is Empty
            &&& p.headers.len() == 0 ==> f.close == (p.version == Some(0u8)) && !f.chunked
                && f.content_length is None && f.host is None && !f.bad_length
        }),
{
}

} // verus!
