//! Request and response head handling.
//!
//! The proxy never materialises a request object. It parses just enough of the
//! head to route and to know how the body is framed, then writes a rewritten head
//! straight into the outgoing buffer.

use vstd::prelude::*;
use vstd::string::*;
use vstd::utf8::encode_utf8;

use crate::lb_core::filter::{
    header_line, rule_lines, rules_suppress, write_header_line, HeaderRule, RouteFilters,
};
use crate::lb_core::simd::lower_bytes;
use crate::text::{decimal, eq_ignore_case, lower_text, nat_text, same_ignoring_case, trimmed};
use crate::wire::{
    contains_ignore_case, contains_ignoring_case, digits_value, fields, has_plain_form,
    is_printable, parse_usize, plain_lines, plain_response, read_request, read_response, reads_as,
    request_placed, request_read, response_placed, response_read, stands_at, trim_utf8,
    value_number, Field, ParsedRequest, ParsedResponse, RequestFields, RequestParse, RequestRead,
    ResponseFields, ResponseParse, ResponseRead,
};

verus! {

/// Header slots offered to the head parser.
pub const MAX_HEADERS: usize = 64;

/// How a message body is delimited.
#[derive(Debug, Clone, Copy, PartialEq, Eq, Structural)]
pub enum Body {
    /// No body at all.
    Empty,
    /// Exactly this many bytes follow the head.
    Length(usize),
    /// `Transfer-Encoding: chunked`.
    Chunked,
    /// Body runs until the peer closes. Only legal on responses.
    UntilClose,
}

/// What a parsed request head tells the proxy.
#[derive(Debug, Clone, Copy, PartialEq, Eq)]
pub struct RequestHead {
    /// Byte length of the head, including the blank line.
    pub head_len: usize,
    pub method_is_head: bool,
    pub keep_alive: bool,
    pub body: Body,
    /// Offset and length of the request target within the source buffer.
    pub path: (usize, usize),
    /// Offset and length of the `Host` value within the source buffer.
    pub host: Option<(usize, usize)>,
}

/// What a parsed response head tells the proxy.
#[derive(Debug, Clone, Copy, PartialEq, Eq, Structural)]
pub struct ResponseHead {
    pub head_len: usize,
    pub keep_alive: bool,
    pub body: Body,
}

/// Headers a proxy must not forward (RFC 9110 §7.6.1), in lower case.
pub const HOP_BY_HOP: [&'static str; 8] = [
    "connection",
    "keep-alive",
    "proxy-authenticate",
    "proxy-authorization",
    "proxy-connection",
    "te",
    "trailer",
    "upgrade",
];

/// Whether a header name is one of [`HOP_BY_HOP`], ASCII case aside.
pub open spec fn is_hop_header(name: Seq<char>) -> bool {
    exists|i: int| 0 <= i < 8 && same_ignoring_case(name, #[trigger] HOP_BY_HOP@[i]@)
}

/// [`is_hop_header`], computed.
fn is_hop_by_hop(name: &str) -> (r: bool)
    ensures
        r == is_hop_header(name@),
{
    let mut i: usize = 0;
    while i < 8
        invariant
            i <= 8,
            forall|k: int| 0 <= k < i ==> !same_ignoring_case(name@, #[trigger] HOP_BY_HOP@[k]@),
        decreases 8 - i,
    {
        let hop = HOP_BY_HOP[i];
        assert(hop@ == HOP_BY_HOP@[i as int]@);
        if eq_ignore_case(name, hop) {
            return true;
        }
        i = i + 1;
    }
    false
}

/// What the headers of a message say about its framing: of several headers of a
/// kind the last one decides.
pub struct Framing {
    /// Position and length of the `Host` value.
    pub host: Option<(int, int)>,
    pub content_length: Option<int>,
    pub chunked: bool,
    pub keep_alive: bool,
}

/// The framing after one more header of a request.
pub open spec fn request_step(f: Framing, h: Field) -> Framing {
    if same_ignoring_case(h.name, "host"@) {
        Framing { host: Some((h.value_at, h.value.len() as int)), ..f }
    } else if same_ignoring_case(h.name, "content-length"@) {
        Framing { content_length: value_number(h.value, usize::MAX as int), ..f }
    } else if same_ignoring_case(h.name, "transfer-encoding"@) {
        Framing { chunked: contains_ignoring_case(h.value, encode_utf8("chunked"@)), ..f }
    } else if same_ignoring_case(h.name, "connection"@) {
        if contains_ignoring_case(h.value, encode_utf8("close"@)) {
            Framing { keep_alive: false, ..f }
        } else if contains_ignoring_case(h.value, encode_utf8("keep-alive"@)) {
            Framing { keep_alive: true, ..f }
        } else {
            f
        }
    } else {
        f
    }
}

/// The framing after one more header of a response.
pub open spec fn response_step(f: Framing, h: Field) -> Framing {
    if same_ignoring_case(h.name, "content-length"@) {
        Framing { content_length: value_number(h.value, usize::MAX as int), ..f }
    } else if same_ignoring_case(h.name, "transfer-encoding"@) {
        Framing { chunked: contains_ignoring_case(h.value, encode_utf8("chunked"@)), ..f }
    } else if same_ignoring_case(h.name, "connection"@) && contains_ignoring_case(
        h.value,
        encode_utf8("close"@),
    ) {
        Framing { keep_alive: false, ..f }
    } else {
        f
    }
}

/// The framing before any header: HTTP/1.1 keeps the connection by default.
pub open spec fn framing_start(version: Option<u8>) -> Framing {
    Framing {
        host: None,
        content_length: None,
        chunked: false,
        keep_alive: version == Some(1u8),
    }
}

/// The framing that a request's headers spell.
pub open spec fn request_framing(version: Option<u8>, headers: Seq<Field>) -> Framing
    decreases headers.len(),
{
    if headers.len() == 0 {
        framing_start(version)
    } else {
        request_step(request_framing(version, headers.drop_last()), headers.last())
    }
}

/// The framing that a response's headers spell.
pub open spec fn response_framing(version: Option<u8>, headers: Seq<Field>) -> Framing
    decreases headers.len(),
{
    if headers.len() == 0 {
        framing_start(version)
    } else {
        response_step(response_framing(version, headers.drop_last()), headers.last())
    }
}

/// How a request's body is delimited: chunking wins over a length, and without
/// either there is none.
pub open spec fn request_body(f: Framing) -> Body {
    if f.chunked {
        Body::Chunked
    } else {
        match f.content_length {
            None => Body::Empty,
            Some(n) => if n == 0 {
                Body::Empty
            } else {
                Body::Length(n as usize)
            },
        }
    }
}

/// Whether a response carries no body whatever its headers say (RFC 9110 §6.4.1).
pub open spec fn is_bodyless(request_was_head: bool, status: u16) -> bool {
    request_was_head || status == 204 || status == 304 || 100 <= status < 200
}

/// How a response's body is delimited: without a length or chunking it runs until
/// the peer closes.
pub open spec fn response_body(f: Framing, request_was_head: bool, status: u16) -> Body {
    if is_bodyless(request_was_head, status) {
        Body::Empty
    } else if f.chunked {
        Body::Chunked
    } else {
        match f.content_length {
            None => Body::UntilClose,
            Some(n) => if n == 0 {
                Body::Empty
            } else {
                Body::Length(n as usize)
            },
        }
    }
}

/// What a request's fields tell the proxy.
pub open spec fn request_head(p: RequestFields) -> RequestHead {
    let f = request_framing(p.version, p.headers);
    RequestHead {
        head_len: p.head_len as usize,
        method_is_head: same_ignoring_case(p.method->0, "HEAD"@),
        keep_alive: f.keep_alive,
        body: request_body(f),
        path: (p.target_at->0 as usize, encode_utf8(p.target->0).len() as usize),
        host: match f.host {
            Some((at, len)) => Some((at as usize, len as usize)),
            None => None,
        },
    }
}

/// What a response's fields tell the proxy.
pub open spec fn response_head(p: ResponseFields, request_was_head: bool) -> ResponseHead {
    let f = response_framing(p.version, p.headers);
    ResponseHead {
        head_len: p.head_len as usize,
        keep_alive: f.keep_alive,
        body: response_body(f, request_was_head, p.status->0),
    }
}

/// Whether a result is what a head parse calls for: an error for bytes that are
/// no head, nothing while more bytes are needed.
pub open spec fn request_result(read: RequestRead, r: Result<Option<RequestHead>, ()>) -> bool {
    match read {
        RequestRead::Invalid => r == Err::<Option<RequestHead>, ()>(()),
        RequestRead::Partial => r == Ok::<Option<RequestHead>, ()>(None),
        RequestRead::Complete(p) => r == Ok::<Option<RequestHead>, ()>(Some(request_head(p))),
    }
}

/// Whether a result is what a head parse calls for.
pub open spec fn response_result(
    read: ResponseRead,
    request_was_head: bool,
    r: Result<Option<ResponseHead>, ()>,
) -> bool {
    match read {
        ResponseRead::Invalid => r == Err::<Option<ResponseHead>, ()>(()),
        ResponseRead::Partial => r == Ok::<Option<ResponseHead>, ()>(None),
        ResponseRead::Complete(p) => r == Ok::<Option<ResponseHead>, ()>(
            Some(response_head(p, request_was_head)),
        ),
    }
}

/// Parse a request head. `Ok(None)` means "need more bytes".
pub fn parse_request(buf: &[u8]) -> (r: Result<Option<RequestHead>, ()>)
    ensures
        request_result(request_read(buf@, MAX_HEADERS as nat), r),
        r matches Ok(Some(head)) ==> head.head_len <= buf@.len() && head.path.0 + head.path.1
            <= head.head_len && (head.host matches Some((at, len)) ==> at + len <= head.head_len),
{
    match read_request(buf, MAX_HEADERS) {
        RequestParse::Complete(p) => {
            let head = frame_request(&p, buf);
            Ok(Some(head))
        },
        RequestParse::Partial => Ok(None),
        RequestParse::Invalid => Err(()),
    }
}

/// Parse a response head. `Ok(None)` means "need more bytes".
pub fn parse_response(buf: &[u8], request_was_head: bool) -> (r: Result<
    Option<ResponseHead>,
    (),
>)
    ensures
        response_result(response_read(buf@, MAX_HEADERS as nat), request_was_head, r),
        r matches Ok(Some(head)) ==> head.head_len <= buf@.len(),
        forall|status: u16, reason: Seq<char>|
            buf@ == #[trigger] status_bytes(status, reason) && 100 <= status <= 999
                && is_printable(reason) ==> r == Ok::<Option<ResponseHead>, ()>(
                Some(ResponseHead { head_len: buf.len(), keep_alive: true, body: Body::Empty }),
            ),
{
    proof {
        assert forall|status: u16, reason: Seq<char>|
            buf@ == #[trigger] status_bytes(status, reason) && 100 <= status <= 999
                && is_printable(reason) implies buf@ == plain_response(
            status,
            reason,
            status_headers(),
        ) && has_plain_form(status, reason, status_headers()) by {
            lemma_status_is_plain(status, reason);
        }
        lemma_status_framing(response_read(buf@, MAX_HEADERS as nat), buf@.len() as int);
    }
    match read_response(buf, MAX_HEADERS) {
        ResponseParse::Complete(p) => Ok(Some(frame_response(&p, buf, request_was_head))),
        ResponseParse::Partial => Ok(None),
        ResponseParse::Invalid => Err(()),
    }
}

/// What the fields of a request in `buf` tell the proxy.
pub fn frame_request(p: &ParsedRequest, buf: &[u8]) -> (r: RequestHead)
    requires
        request_placed(buf@, p@),
    ensures
        r == request_head(p@),
        r.head_len <= buf@.len(),
        r.path.0 + r.path.1 <= r.head_len,
        r.host matches Some((at, len)) ==> at + len <= r.head_len,
{
    let mut host: Option<(usize, usize)> = None;
    let mut keep_alive: bool = p.version == Some(1u8);
    let mut content_length: Option<usize> = None;
    let mut chunked: bool = false;
    let ghost hs = fields(p.headers@);
    let mut i: usize = 0;
    assert(hs.take(0) =~= Seq::empty());
    while i < p.headers.len()
        invariant
            i <= p.headers@.len(),
            hs == fields(p.headers@),
            request_placed(buf@, p@),
            ({
                let f = request_framing(p.version, hs.take(i as int));
                &&& f.host is Some <==> host is Some
                &&& host matches Some((at, len)) ==> f.host == Some((at as int, len as int)) && at
                    + len <= p.head_len
                &&& f.content_length is Some <==> content_length is Some
                &&& content_length matches Some(n) ==> f.content_length == Some(n as int)
                &&& f.chunked == chunked
                &&& f.keep_alive == keep_alive
            }),
        decreases p.headers@.len() - i,
    {
        let h = &p.headers[i];
        assert(hs.take(i + 1).drop_last() =~= hs.take(i as int));
        assert(hs[i as int] == h@);
        assert(stands_at(buf@, p.head_len as int, h.value_at as int, h.value@));
        let name = h.name.as_str();
        let value = h.value.as_slice();
        if eq_ignore_case(name, "host") {
            host = Some((h.value_at, value.len()));
        } else if eq_ignore_case(name, "content-length") {
            content_length =
            match trim_utf8(value) {
                Some(text) => parse_usize(text.as_str()),
                None => None,
            };
        } else if eq_ignore_case(name, "transfer-encoding") {
            chunked = contains_ignore_case(value, "chunked".as_bytes());
        } else if eq_ignore_case(name, "connection") {
            if contains_ignore_case(value, "close".as_bytes()) {
                keep_alive = false;
            } else if contains_ignore_case(value, "keep-alive".as_bytes()) {
                keep_alive = true;
            }
        }
        i = i + 1;
    }
    assert(hs.take(i as int) =~= hs);
    let body: Body = if chunked {
        Body::Chunked
    } else {
        match content_length {
            None => Body::Empty,
            Some(n) => if n == 0 {
                Body::Empty
            } else {
                Body::Length(n)
            },
        }
    };
    let method_is_head: bool = match &p.method {
        Some(method) => eq_ignore_case(method.as_str(), "HEAD"),
        None => false,
    };
    let path: (usize, usize) = match (&p.target, p.target_at) {
        (Some(target), Some(at)) => (at, target.as_str().as_bytes().len()),
        _ => (0, 0),
    };
    RequestHead { head_len: p.head_len, method_is_head, keep_alive, body, path, host }
}

/// What the fields of a response in `buf` tell the proxy.
pub fn frame_response(p: &ParsedResponse, buf: &[u8], request_was_head: bool) -> (r: ResponseHead)
    requires
        response_placed(buf@, p@),
    ensures
        r == response_head(p@, request_was_head),
        r.head_len <= buf@.len(),
{
    let mut keep_alive: bool = p.version == Some(1u8);
    let mut content_length: Option<usize> = None;
    let mut chunked: bool = false;
    let ghost hs = fields(p.headers@);
    let mut i: usize = 0;
    assert(hs.take(0) =~= Seq::empty());
    while i < p.headers.len()
        invariant
            i <= p.headers@.len(),
            hs == fields(p.headers@),
            ({
                let f = response_framing(p.version, hs.take(i as int));
                &&& f.content_length is Some <==> content_length is Some
                &&& content_length matches Some(n) ==> f.content_length == Some(n as int)
                &&& f.chunked == chunked
                &&& f.keep_alive == keep_alive
            }),
        decreases p.headers@.len() - i,
    {
        let h = &p.headers[i];
        assert(hs.take(i + 1).drop_last() =~= hs.take(i as int));
        assert(hs[i as int] == h@);
        let name = h.name.as_str();
        let value = h.value.as_slice();
        if eq_ignore_case(name, "content-length") {
            content_length =
            match trim_utf8(value) {
                Some(text) => parse_usize(text.as_str()),
                None => None,
            };
        } else if eq_ignore_case(name, "transfer-encoding") {
            chunked = contains_ignore_case(value, "chunked".as_bytes());
        } else if eq_ignore_case(name, "connection") && contains_ignore_case(
            value,
            "close".as_bytes(),
        ) {
            keep_alive = false;
        }
        i = i + 1;
    }
    assert(hs.take(i as int) =~= hs);
    let status: u16 = match p.status {
        Some(status) => status,
        None => 0,
    };
    // RFC 9110 §6.4.1: these carry no body regardless of what the headers say.
    let bodyless: bool = request_was_head || status == 204 || status == 304 || (100 <= status
        && status < 200);
    let body: Body = if bodyless {
        Body::Empty
    } else if chunked {
        Body::Chunked
    } else {
        match content_length {
            None => Body::UntilClose,
            Some(n) => if n == 0 {
                Body::Empty
            } else {
                Body::Length(n)
            },
        }
    };
    ResponseHead { head_len: p.head_len, keep_alive, body }
}

/// Whether a request header is copied to the upstream at all.
pub open spec fn request_passes(h: Field, rules: Seq<HeaderRule>) -> bool {
    &&& !is_hop_header(h.name)
    &&& !same_ignoring_case(h.name, "host"@)
    &&& !rules_suppress(rules, h.name)
}

/// The request headers that are copied through, as lines. `X-Forwarded-For` is
/// not among them: the proxy writes its own.
pub open spec fn copied_request(headers: Seq<Field>, rules: Seq<HeaderRule>) -> Seq<u8>
    decreases headers.len(),
{
    if headers.len() == 0 {
        Seq::empty()
    } else {
        let before = copied_request(headers.drop_last(), rules);
        let h = headers.last();
        if request_passes(h, rules) && !same_ignoring_case(h.name, "x-forwarded-for"@) {
            before + header_line(h.name, h.value)
        } else {
            before
        }
    }
}

/// The forwarding chain that a request brings: the last `X-Forwarded-For` that the
/// filters do not suppress.
pub open spec fn incoming_chain(headers: Seq<Field>, rules: Seq<HeaderRule>) -> Option<Seq<u8>>
    decreases headers.len(),
{
    if headers.len() == 0 {
        None
    } else {
        let h = headers.last();
        if request_passes(h, rules) && same_ignoring_case(h.name, "x-forwarded-for"@) {
            Some(h.value)
        } else {
            incoming_chain(headers.drop_last(), rules)
        }
    }
}

/// The chain with the peer appended.
pub open spec fn extended_chain(chain: Option<Seq<u8>>, peer: Seq<char>) -> Seq<u8> {
    match chain {
        Some(existing) => existing + encode_utf8(", "@) + encode_utf8(peer),
        None => encode_utf8(peer),
    }
}

/// The head that goes upstream: the request line, `host` first, the headers that
/// are copied through, the forwarding headers and the route's own.
pub open spec fn upstream_head(
    p: RequestFields,
    authority: Seq<char>,
    peer: Seq<char>,
    rules: Seq<HeaderRule>,
    path: Seq<char>,
) -> Seq<u8> {
    encode_utf8(p.method->0) + encode_utf8(" "@) + encode_utf8(path) + encode_utf8(
        " HTTP/1.1\r\nhost: "@,
    ) + encode_utf8(authority) + encode_utf8("\r\n"@) + copied_request(p.headers, rules)
        + encode_utf8("x-forwarded-for: "@) + extended_chain(incoming_chain(p.headers, rules), peer)
        + encode_utf8("\r\nx-forwarded-proto: http\r\n"@) + rule_lines(rules) + encode_utf8(
        "\r\n"@,
    )
}

fn put(out: &mut Vec<u8>, bytes: &[u8])
    ensures
        final(out)@ == old(out)@ + bytes@,
{
    let ghost before = out@;
    out.extend_from_slice(bytes);
    assert(out@ =~= before + bytes@);
}

/// The path that a request is sent with: the rewritten one, or its own target.
pub open spec fn chosen_path(p: RequestFields, rewritten: Option<&str>) -> Seq<char> {
    match rewritten {
        Some(path) => path@,
        None => p.target->0,
    }
}

/// Write the rewritten request head for the upstream into `out`.
///
/// Copies through every header except the hop-by-hop set and the ones the proxy
/// owns. Fails, and leaves `out` alone, where `src` does not hold a whole head.
pub fn write_request_head(
    out: &mut Vec<u8>,
    src: &[u8],
    head: &RequestHead,
    authority: &str,
    peer_ip: &str,
    filters: &RouteFilters,
    rewritten_path: Option<&str>,
) -> (r: Result<(), ()>)
    ensures
        match request_read(src@, MAX_HEADERS as nat) {
            RequestRead::Complete(p) => r == Ok::<(), ()>(()) && final(out)@ == upstream_head(
                p,
                authority@,
                peer_ip@,
                filters@.request,
                chosen_path(p, rewritten_path),
            ),
            _ => r == Err::<(), ()>(()) && final(out)@ == old(out)@,
        },
{
    match read_request(src, MAX_HEADERS) {
        RequestParse::Complete(p) => {
            rewrite_request(out, &p, authority, peer_ip, filters, rewritten_path);
            Ok(())
        },
        _ => Err(()),
    }
}

/// Write the upstream head of a parsed request into `out`.
pub fn rewrite_request(
    out: &mut Vec<u8>,
    p: &ParsedRequest,
    authority: &str,
    peer_ip: &str,
    filters: &RouteFilters,
    rewritten_path: Option<&str>,
)
    requires
        p.method is Some,
        p.target is Some,
    ensures
        final(out)@ == upstream_head(
            p@,
            authority@,
            peer_ip@,
            filters@.request,
            chosen_path(p@, rewritten_path),
        ),
{
    let ghost rules = filters@.request;
    let method: &str = match &p.method {
        Some(method) => method.as_str(),
        None => "",
    };
    let path: &str = match rewritten_path {
        Some(path) => path,
        None => match &p.target {
            Some(target) => target.as_str(),
            None => "/",
        },
    };
    out.clear();
    put(out, method.as_bytes());
    put(out, " ".as_bytes());
    put(out, path.as_bytes());
    put(out, " HTTP/1.1\r\nhost: ".as_bytes());
    put(out, authority.as_bytes());
    put(out, "\r\n".as_bytes());
    let ghost start = out@;
    assert(start =~= encode_utf8(method@) + encode_utf8(" "@) + encode_utf8(path@) + encode_utf8(
        " HTTP/1.1\r\nhost: "@,
    ) + encode_utf8(authority@) + encode_utf8("\r\n"@));

    let ghost hs = fields(p.headers@);
    let mut chain: Option<usize> = None;
    let mut i: usize = 0;
    assert(hs.take(0) =~= Seq::empty());
    assert(start + Seq::<u8>::empty() =~= start);
    while i < p.headers.len()
        invariant
            i <= p.headers@.len(),
            hs == fields(p.headers@),
            rules == filters@.request,
            out@ == start + copied_request(hs.take(i as int), rules),
            incoming_chain(hs.take(i as int), rules) is Some <==> chain is Some,
            chain matches Some(k) ==> k < i && incoming_chain(hs.take(i as int), rules) == Some(
                p.headers@[k as int].value@,
            ),
        decreases p.headers@.len() - i,
    {
        let h = &p.headers[i];
        let name = h.name.as_str();
        assert(hs.take(i + 1).drop_last() =~= hs.take(i as int));
        assert(hs[i as int] == h@);
        let ghost before = copied_request(hs.take(i as int), rules);
        if is_hop_by_hop(name) || eq_ignore_case(name, "host") || filters.request_suppresses(
            name,
        ) {
        } else if eq_ignore_case(name, "x-forwarded-for") {
            chain = Some(i);
        } else {
            write_header_line(out, name, h.value.as_slice());
            assert(start + before + header_line(h.name@, h.value@) =~= start + (before
                + header_line(h.name@, h.value@)));
        }
        i = i + 1;
    }
    assert(hs.take(i as int) =~= hs);
    put(out, "x-forwarded-for: ".as_bytes());
    let ghost led = out@;
    if let Some(k) = chain {
        put(out, p.headers[k].value.as_slice());
        put(out, ", ".as_bytes());
    }
    put(out, peer_ip.as_bytes());
    assert(out@ =~= led + extended_chain(incoming_chain(hs, rules), peer_ip@));
    put(out, "\r\nx-forwarded-proto: http\r\n".as_bytes());
    filters.write_request_headers(out);
    put(out, "\r\n".as_bytes());
}

/// The response headers that are copied through, as lines.
pub open spec fn copied_response(headers: Seq<Field>, rules: Seq<HeaderRule>) -> Seq<u8>
    decreases headers.len(),
{
    if headers.len() == 0 {
        Seq::empty()
    } else {
        let before = copied_response(headers.drop_last(), rules);
        let h = headers.last();
        if is_hop_header(h.name) || rules_suppress(rules, h.name) {
            before
        } else {
            before + header_line(h.name, h.value)
        }
    }
}

/// The last lines of a response head.
pub open spec fn connection_line(keep_alive: bool) -> Seq<u8> {
    if keep_alive {
        encode_utf8("connection: keep-alive\r\n\r\n"@)
    } else {
        encode_utf8("connection: close\r\n\r\n"@)
    }
}

/// The head that goes to the client: the status line, the headers that are copied
/// through, the route's own and the connection disposition.
pub open spec fn client_head(
    p: ResponseFields,
    keep_alive: bool,
    rules: Seq<HeaderRule>,
) -> Seq<u8> {
    encode_utf8("HTTP/1.1 "@) + encode_utf8(nat_text(p.status->0 as nat)) + encode_utf8(" "@)
        + encode_utf8(p.reason->0) + encode_utf8("\r\n"@) + copied_response(p.headers, rules)
        + rule_lines(rules) + connection_line(keep_alive)
}

/// Write the rewritten response head for the client into `out`.
///
/// Fails, and leaves `out` alone, where `src` does not hold a whole head.
pub fn write_response_head(
    out: &mut Vec<u8>,
    src: &[u8],
    keep_alive: bool,
    filters: &RouteFilters,
) -> (r: Result<(), ()>)
    ensures
        match response_read(src@, MAX_HEADERS as nat) {
            ResponseRead::Complete(p) => r == Ok::<(), ()>(()) && final(out)@ == client_head(
                p,
                keep_alive,
                filters@.response,
            ),
            _ => r == Err::<(), ()>(()) && final(out)@ == old(out)@,
        },
{
    match read_response(src, MAX_HEADERS) {
        ResponseParse::Complete(p) => {
            rewrite_response(out, &p, keep_alive, filters);
            Ok(())
        },
        _ => Err(()),
    }
}

/// Write the client head of a parsed response into `out`.
pub fn rewrite_response(
    out: &mut Vec<u8>,
    p: &ParsedResponse,
    keep_alive: bool,
    filters: &RouteFilters,
)
    requires
        p.status is Some,
        p.reason is Some,
    ensures
        final(out)@ == client_head(p@, keep_alive, filters@.response),
{
    let ghost rules = filters@.response;
    let status: u16 = match p.status {
        Some(status) => status,
        None => 0,
    };
    let reason: &str = match &p.reason {
        Some(reason) => reason.as_str(),
        None => "OK",
    };
    out.clear();
    put(out, "HTTP/1.1 ".as_bytes());
    let digits = decimal(status as u64);
    put(out, digits.as_str().as_bytes());
    put(out, " ".as_bytes());
    put(out, reason.as_bytes());
    put(out, "\r\n".as_bytes());
    let ghost start = out@;
    assert(start =~= encode_utf8("HTTP/1.1 "@) + encode_utf8(nat_text(status as nat)) + encode_utf8(
        " "@,
    ) + encode_utf8(reason@) + encode_utf8("\r\n"@));
    let ghost hs = fields(p.headers@);
    let mut i: usize = 0;
    assert(hs.take(0) =~= Seq::empty());
    assert(start + Seq::<u8>::empty() =~= start);
    while i < p.headers.len()
        invariant
            i <= p.headers@.len(),
            hs == fields(p.headers@),
            rules == filters@.response,
            out@ == start + copied_response(hs.take(i as int), rules),
        decreases p.headers@.len() - i,
    {
        let h = &p.headers[i];
        let name = h.name.as_str();
        assert(hs.take(i + 1).drop_last() =~= hs.take(i as int));
        assert(hs[i as int] == h@);
        let ghost before = copied_response(hs.take(i as int), rules);
        if !is_hop_by_hop(name) && !filters.response_suppresses(name) {
            write_header_line(out, name, h.value.as_slice());
            assert(start + before + header_line(h.name@, h.value@) =~= start + (before
                + header_line(h.name@, h.value@)));
        }
        i = i + 1;
    }
    assert(hs.take(i as int) =~= hs);
    filters.write_response_headers(out);
    if keep_alive {
        put(out, "connection: keep-alive\r\n\r\n".as_bytes());
    } else {
        put(out, "connection: close\r\n\r\n".as_bytes());
    }
}

/// A status-line-only response.
pub open spec fn status_bytes(status: u16, reason: Seq<char>) -> Seq<u8> {
    encode_utf8("HTTP/1.1 "@) + encode_utf8(nat_text(status as nat)) + encode_utf8(" "@)
        + encode_utf8(reason) + encode_utf8(
        "\r\ncontent-length: 0\r\nconnection: keep-alive\r\n\r\n"@,
    )
}

/// The headers of a status-line-only response.
spec fn status_headers() -> Seq<(Seq<char>, Seq<char>)> {
    seq![("content-length"@, "0"@), ("connection"@, "keep-alive"@)]
}

/// A status-line-only response is in plain form.
proof fn lemma_status_is_plain(status: u16, reason: Seq<char>)
    requires
        100 <= status <= 999,
        is_printable(reason),
    ensures
        status_bytes(status, reason) == plain_response(status, reason, status_headers()),
        has_plain_form(status, reason, status_headers()),
{
    let tail = "\r\ncontent-length: 0\r\nconnection: keep-alive\r\n\r\n"@;
    reveal_strlit("content-length");
    reveal_strlit("0");
    reveal_strlit("connection");
    reveal_strlit("keep-alive");
    reveal_strlit("\r\ncontent-length: 0\r\nconnection: keep-alive\r\n\r\n");
    vstd::utf8::is_ascii_chars_encode_utf8("content-length"@);
    vstd::utf8::is_ascii_chars_encode_utf8("0"@);
    vstd::utf8::is_ascii_chars_encode_utf8("connection"@);
    vstd::utf8::is_ascii_chars_encode_utf8("keep-alive"@);
    vstd::utf8::is_ascii_chars_encode_utf8(tail);
    let hs = status_headers();
    let one = hs.drop_last();
    assert(one =~= seq![("content-length"@, "0"@)]);
    assert(one.drop_last() =~= Seq::empty());
    let crlf = seq![13u8, 10u8];
    let first = encode_utf8("content-length"@) + seq![58u8, 32u8] + encode_utf8("0"@) + crlf;
    assert(plain_lines(Seq::empty()) =~= Seq::empty());
    assert(plain_lines(one) =~= first);
    let second = encode_utf8("connection"@) + seq![58u8, 32u8] + encode_utf8("keep-alive"@) + crlf;
    assert(plain_lines(hs) =~= first + second);
    assert(encode_utf8(tail) =~= crlf + (first + second) + crlf);
    assert(status_bytes(status, reason) =~= plain_response(status, reason, hs));
}

/// The framing that the headers of a status-line-only response spell: no body, and the
/// connection is kept.
proof fn lemma_status_framing(read: ResponseRead, len: int)
    ensures
        forall|status: u16, reason: Seq<char>|
            #[trigger] reads_as(read, len, status, reason, status_headers()) ==> {
                let p = read->Complete_0;
                let f = response_framing(p.version, p.headers);
                f.keep_alive && !f.chunked && f.content_length == Some(0int)
            },
{
    assert forall|status: u16, reason: Seq<char>|
        #[trigger] reads_as(read, len, status, reason, status_headers()) implies ({
        let p = read->Complete_0;
        let f = response_framing(p.version, p.headers);
        f.keep_alive && !f.chunked && f.content_length == Some(0int)
    }) by {
        let p = read->Complete_0;
        let hs = p.headers;
        assert(hs[0].name == status_headers()[0].0);
        assert(hs[1].name == status_headers()[1].0);
        lemma_names_apart();
        lemma_nought();
        lemma_keep_alive_is_not_close();
        reveal_with_fuel(response_framing, 3);
        assert(hs.drop_last().drop_last() =~= Seq::empty());
        assert(hs.drop_last().last() == hs[0]);
        assert(hs.last() == hs[1]);
    }
}

proof fn lemma_names_apart()
    ensures
        !same_ignoring_case("connection"@, "content-length"@),
        !same_ignoring_case("connection"@, "transfer-encoding"@),
{
    reveal_strlit("content-length");
    reveal_strlit("connection");
    reveal_strlit("transfer-encoding");
    assert(lower_text("connection"@).len() == 10);
    assert(lower_text("content-length"@).len() == 14);
    assert(lower_text("transfer-encoding"@).len() == 17);
}

proof fn lemma_nought()
    ensures
        value_number(encode_utf8("0"@), usize::MAX as int) == Some(0int),
{
    reveal_strlit("0");
    let t = "0"@;
    vstd::utf8::encode_utf8_decode_utf8(t);
    vstd::utf8::encode_utf8_valid_utf8(t);
    assert(trimmed(t) == t);
    assert(t.drop_last() =~= Seq::empty());
    reveal_with_fuel(digits_value, 2);
}

proof fn lemma_keep_alive_is_not_close()
    ensures
        !contains_ignoring_case(encode_utf8("keep-alive"@), encode_utf8("close"@)),
{
    reveal_strlit("keep-alive");
    reveal_strlit("close");
    let hay = encode_utf8("keep-alive"@);
    let needle = encode_utf8("close"@);
    vstd::utf8::is_ascii_chars_encode_utf8("keep-alive"@);
    vstd::utf8::is_ascii_chars_encode_utf8("close"@);
    assert forall|i: int| 0 <= i && i + needle.len() <= hay.len() implies lower_bytes(
        #[trigger] hay.subrange(i, i + needle.len()),
    ) != lower_bytes(needle) by {
        let part = hay.subrange(i, i + needle.len());
        assert("close"@[0] == 'c');
        assert(lower_bytes(needle)[0] == 99);
        assert(part[0] == "keep-alive"@[i] as u8);
        assert(lower_bytes(part)[0] != 99);
    }
}

/// A fixed status-line-only response, used for routing failures.
#[must_use]
pub fn status_response(status: u16, reason: &str) -> (r: Vec<u8>)
    ensures
        r@ == status_bytes(status, reason@),
{
    let mut out: Vec<u8> = Vec::new();
    put(&mut out, "HTTP/1.1 ".as_bytes());
    let digits = decimal(status as u64);
    put(&mut out, digits.as_str().as_bytes());
    put(&mut out, " ".as_bytes());
    put(&mut out, reason.as_bytes());
    put(&mut out, "\r\ncontent-length: 0\r\nconnection: keep-alive\r\n\r\n".as_bytes());
    assert(out@ =~= status_bytes(status, reason@));
    out
}

/// A header that the proxy owns, that is hop-by-hop or that the filters suppress
/// contributes no line of its own to the upstream head.
pub proof fn lemma_withheld_header_is_not_copied(
    before: Seq<Field>,
    h: Field,
    after: Seq<Field>,
    rules: Seq<HeaderRule>,
)
    requires
        is_hop_header(h.name) || same_ignoring_case(h.name, "host"@) || rules_suppress(
            rules,
            h.name,
        ) || same_ignoring_case(h.name, "x-forwarded-for"@),
    ensures
        copied_request(before + seq![h] + after, rules) == copied_request(before + after, rules),
    decreases after.len(),
{
    let all = before + seq![h] + after;
    if after.len() == 0 {
        assert(all.drop_last() =~= before + after);
    } else {
        lemma_withheld_header_is_not_copied(before, h, after.drop_last(), rules);
        assert(all.drop_last() =~= before + seq![h] + after.drop_last());
        assert((before + after).drop_last() =~= before + after.drop_last());
    }
}

} // verus!
