//! Minimal, allocation-conscious HTTP/1.1 framing.

use bytes::BytesMut;
use vstd::prelude::*;
use vstd::slice::*;
use vstd::utf8::{decode_utf8, encode_utf8, valid_utf8};

use crate::lb_core::simd::{eq_ignore_ascii_case, lower_bytes, lower_one, validate_utf8};
use crate::text::{
    decimal, eq_ignore_case, nat_text, pieces, same_ignoring_case, split, texts, trim, trimmed,
};
use crate::wire::{
    byte_lists, byte_pieces, byte_position, fields, find_subslice, first_occurrence, index_of,
    occurs_at, parse_u64, read_request, read_response, request_placed, request_read,
    response_placed, response_read, split_bytes, to_vec, trim_ascii, trim_utf8, trimmed_bytes,
    value_number, Field, ParsedRequest, ParsedResponse, RequestFields, RequestParse, RequestRead,
    ResponseFields, ResponseParse, ResponseRead,
};

verus! {

/// Maximum bytes of request head we will buffer before giving up.
pub const MAX_HEAD_SIZE: usize = 64 * 1024;

/// Header slots offered to the head parser.
pub const MAX_HEADERS: usize = 96;

/// `bytes::BytesMut`, taken as it is; [`buffer_bytes`] names what one holds.
#[verifier::external_type_specification]
#[verifier::external_body]
pub struct ExBytesMut(BytesMut);

/// The bytes that a growable buffer holds.
pub uninterp spec fn buffer_bytes(buffer: BytesMut) -> Seq<u8>;

/// `BytesMut::clear` empties the buffer.
#[verifier::external_body]
fn buffer_clear(buffer: &mut BytesMut)
    ensures
        buffer_bytes(*final(buffer)) == Seq::<u8>::empty(),
{
    buffer.clear();
}

/// `BytesMut::extend_from_slice` appends bytes to the buffer.
#[verifier::external_body]
fn buffer_put(buffer: &mut BytesMut, bytes: &[u8])
    ensures
        buffer_bytes(*final(buffer)) == buffer_bytes(*old(buffer)) + bytes@,
{
    buffer.extend_from_slice(bytes);
}

/// How a message body is framed.
#[derive(Debug, Clone, Copy, PartialEq, Eq, Structural)]
pub enum BodyLength {
    /// `Content-Length: n`.
    Fixed(u64),
    /// `Transfer-Encoding: chunked`.
    Chunked,
    /// No length and no chunking: the body ends when the connection closes.
    /// Only legal for responses.
    UntilClose,
    /// Framing guarantees no body (HEAD, 204, 304, 1xx).
    Empty,
}

impl BodyLength {
    /// True when nothing needs to be relayed after the head.
    #[must_use]
    pub fn is_empty(self) -> (r: bool)
        ensures
            r == (self is Empty || self == BodyLength::Fixed(0)),
    {
        match self {
            BodyLength::Empty => true,
            BodyLength::Fixed(n) => n == 0,
            _ => false,
        }
    }
}

/// Everything the proxy needs from a parsed request head.
#[derive(Debug)]
pub struct RequestHead {
    /// Byte length of the head, including the blank line that ends it.
    pub head_len: usize,
    pub method: String,
    pub target: String,
    pub host: Option<String>,
    pub body: BodyLength,
    /// Client asked to close after this exchange, or spoke HTTP/1.0 without
    /// `Connection: keep-alive`.
    pub close_requested: bool,
    /// Where the target stands in the buffer, from and to.
    pub target_span: (usize, usize),
}

/// Everything the proxy needs from a parsed response head.
#[derive(Debug, Clone, Copy)]
pub struct ResponseHead {
    pub head_len: usize,
    pub status: u16,
    pub body: BodyLength,
    pub close_requested: bool,
}

/// Outcome of trying to parse a head out of a partially filled buffer.
#[derive(Debug)]
pub enum Parsed<T> {
    /// A complete head.
    Complete(T),
    /// Need more bytes.
    Partial,
    /// Malformed; the connection must be closed.
    Invalid(&'static str),
}

/// What a request head says.
pub struct RequestInfo {
    pub head_len: int,
    pub method: Seq<char>,
    pub target: Seq<char>,
    pub host: Option<Seq<char>>,
    pub body: BodyLength,
    pub close_requested: bool,
    pub target_span: (int, int),
}

impl View for RequestHead {
    type V = RequestInfo;

    open spec fn view(&self) -> RequestInfo {
        RequestInfo {
            head_len: self.head_len as int,
            method: self.method@,
            target: self.target@,
            host: match self.host {
                Some(h) => Some(h@),
                None => None,
            },
            body: self.body,
            close_requested: self.close_requested,
            target_span: (self.target_span.0 as int, self.target_span.1 as int),
        }
    }
}

/// What the headers of a message say about its framing: of several headers of a
/// kind the last one decides.
pub struct Framing {
    pub host: Option<Seq<char>>,
    pub content_length: Option<int>,
    /// Whether a `Content-Length` did not spell a number.
    pub bad_length: bool,
    pub chunked: bool,
    pub close: bool,
}

/// The text that well-formed bytes spell.
pub open spec fn utf8_text(raw: Seq<u8>) -> Option<Seq<char>> {
    if valid_utf8(raw) {
        Some(decode_utf8(raw))
    } else {
        None
    }
}

/// Whether the last coding of a `Transfer-Encoding` is chunked.
pub open spec fn ends_in_chunked(codings: Seq<char>) -> bool {
    same_ignoring_case(trimmed(pieces(codings, ',').last()), "chunked"@)
}

/// Whether the connection closes after the tokens of a `Connection` value, given
/// whether it would have before.
pub open spec fn closes_after(tokens: Seq<Seq<char>>, before: bool) -> bool
    decreases tokens.len(),
{
    if tokens.len() == 0 {
        before
    } else {
        let rest = closes_after(tokens.drop_last(), before);
        let token = trimmed(tokens.last());
        if same_ignoring_case(token, "close"@) {
            true
        } else if same_ignoring_case(token, "keep-alive"@) {
            false
        } else {
            rest
        }
    }
}

/// The framing after one more header. Only a request's `Host` is of interest.
pub open spec fn framing_step(f: Framing, h: Field, request: bool) -> Framing {
    if request && same_ignoring_case(h.name, "host"@) {
        Framing { host: utf8_text(h.value), ..f }
    } else if same_ignoring_case(h.name, "content-length"@) {
        let n = value_number(h.value, u64::MAX as int);
        Framing { content_length: n, bad_length: f.bad_length || n is None, ..f }
    } else if same_ignoring_case(h.name, "transfer-encoding"@) {
        match utf8_text(h.value) {
            Some(codings) => Framing { chunked: ends_in_chunked(codings), ..f },
            None => f,
        }
    } else if same_ignoring_case(h.name, "connection"@) {
        match utf8_text(h.value) {
            Some(v) => Framing { close: closes_after(pieces(v, ','), f.close), ..f },
            None => f,
        }
    } else {
        f
    }
}

/// The framing that headers spell. HTTP/1.0 closes by default.
pub open spec fn framing_of(version: Option<u8>, headers: Seq<Field>, request: bool) -> Framing
    decreases headers.len(),
{
    if headers.len() == 0 {
        Framing {
            host: None,
            content_length: None,
            bad_length: false,
            chunked: false,
            close: version == Some(0u8),
        }
    } else {
        framing_step(
            framing_of(version, headers.drop_last(), request),
            headers.last(),
            request,
        )
    }
}

/// How a request's body is framed. Transfer-Encoding wins over Content-Length
/// (RFC 9112 §6.1).
pub open spec fn request_body(f: Framing) -> BodyLength {
    if f.chunked {
        BodyLength::Chunked
    } else {
        match f.content_length {
            None => BodyLength::Empty,
            Some(n) => if n == 0 {
                BodyLength::Empty
            } else {
                BodyLength::Fixed(n as u64)
            },
        }
    }
}

/// Whether a response never carries a body, whatever its headers say (RFC 9112
/// §6.3).
pub open spec fn is_bodyless(method: Seq<char>, status: u16) -> bool {
    same_ignoring_case(method, "HEAD"@) || status == 204 || status == 304 || 100 <= status < 200
}

/// How a response's body is framed. Without framing information it runs to the
/// end of the connection.
pub open spec fn response_body(f: Framing, method: Seq<char>, status: u16) -> BodyLength {
    if is_bodyless(method, status) {
        BodyLength::Empty
    } else if f.chunked {
        BodyLength::Chunked
    } else {
        match f.content_length {
            None => BodyLength::UntilClose,
            Some(n) => if n == 0 {
                BodyLength::Empty
            } else {
                BodyLength::Fixed(n as u64)
            },
        }
    }
}

/// What a request's fields say of it, if its length makes sense.
pub open spec fn request_info(buf: Seq<u8>, p: RequestFields) -> Option<RequestInfo> {
    let f = framing_of(p.version, p.headers, true);
    let target = encode_utf8(p.target->0);
    let at = first_occurrence(buf, target)->0;
    if f.bad_length {
        None
    } else {
        Some(
            RequestInfo {
                head_len: p.head_len,
                method: p.method->0,
                target: p.target->0,
                host: f.host,
                body: request_body(f),
                close_requested: f.close,
                target_span: (at, at + target.len()),
            },
        )
    }
}

/// Whether an outcome is what a request's bytes call for.
pub open spec fn request_outcome(
    buf: Seq<u8>,
    read: RequestRead,
    r: Parsed<RequestHead>,
) -> bool {
    match read {
        RequestRead::Partial => r is Partial,
        RequestRead::Invalid => r matches Parsed::Invalid(why) && why@ == "malformed request head"@,
        RequestRead::Complete(p) => match request_info(buf, p) {
            None => r matches Parsed::Invalid(why) && why@ == "invalid Content-Length"@,
            Some(info) => r matches Parsed::Complete(head) && head@ == info,
        },
    }
}

/// What a response's fields say of it.
pub open spec fn response_info(p: ResponseFields, method: Seq<char>) -> ResponseHead {
    let f = framing_of(p.version, p.headers, false);
    ResponseHead {
        head_len: p.head_len as usize,
        status: p.status->0,
        body: response_body(f, method, p.status->0),
        close_requested: f.close,
    }
}

/// Whether an outcome is what a response's bytes call for.
pub open spec fn response_outcome(
    read: ResponseRead,
    method: Seq<char>,
    r: Parsed<ResponseHead>,
) -> bool {
    match read {
        ResponseRead::Partial => r is Partial,
        ResponseRead::Invalid => r matches Parsed::Invalid(why) && why@
            == "malformed response head"@,
        ResponseRead::Complete(p) => r matches Parsed::Complete(head) && head == response_info(
            p,
            method,
        ),
    }
}

/// Parse a request head.
#[must_use]
pub fn parse_request(buf: &[u8]) -> (r: Parsed<RequestHead>)
    ensures
        request_outcome(buf@, request_read(buf@, MAX_HEADERS as nat), r),
        r matches Parsed::Complete(head) ==> head.head_len <= buf@.len(),
{
    match read_request(buf, MAX_HEADERS) {
        RequestParse::Complete(p) => match frame_request(&p, buf) {
            Some(head) => Parsed::Complete(head),
            None => Parsed::Invalid("invalid Content-Length"),
        },
        RequestParse::Partial => Parsed::Partial,
        RequestParse::Invalid => Parsed::Invalid("malformed request head"),
    }
}

/// Parse a response head.
///
/// `request_method` is needed because a response to `HEAD` carries the
/// `Content-Length` of the body it *would* have sent but no body at all.
#[must_use]
pub fn parse_response(buf: &[u8], request_method: &str) -> (r: Parsed<ResponseHead>)
    ensures
        response_outcome(response_read(buf@, MAX_HEADERS as nat), request_method@, r),
        r matches Parsed::Complete(head) ==> head.head_len <= buf@.len(),
{
    match read_response(buf, MAX_HEADERS) {
        ResponseParse::Complete(p) => Parsed::Complete(frame_response(&p, buf, request_method)),
        ResponseParse::Partial => Parsed::Partial,
        ResponseParse::Invalid => Parsed::Invalid("malformed response head"),
    }
}

/// The framing of a message, computed.
struct Frame {
    host: Option<String>,
    content_length: Option<u64>,
    bad_length: bool,
    chunked: bool,
    close: bool,
}

spec fn frame_is(frame: Frame, f: Framing) -> bool {
    &&& frame.host is Some <==> f.host is Some
    &&& frame.host matches Some(h) ==> f.host == Some(h@)
    &&& frame.content_length is Some <==> f.content_length is Some
    &&& frame.content_length matches Some(n) ==> f.content_length == Some(n as int)
    &&& frame.bad_length == f.bad_length
    &&& frame.chunked == f.chunked
    &&& frame.close == f.close
}

/// The text that well-formed bytes spell.
fn text_of<'a>(raw: &'a [u8]) -> (r: Option<&'a str>)
    ensures
        r is Some <==> utf8_text(raw@) is Some,
        r matches Some(t) ==> Some(t@) == utf8_text(raw@),
{
    match validate_utf8(raw) {
        Some(t) => {
            proof {
                vstd::utf8::encode_utf8_decode_utf8(t@);
            }
            Some(t)
        },
        None => None,
    }
}

fn last_is_chunked(codings: &str) -> (r: bool)
    ensures
        r == ends_in_chunked(codings@),
{
    let parts = split(codings, ',');
    proof {
        lemma_pieces_nonempty(codings@, ',');
        assert(texts(parts@).len() == parts@.len());
    }
    let last = trim(parts[parts.len() - 1].as_str());
    eq_ignore_case(last.as_str(), "chunked")
}

proof fn lemma_pieces_nonempty(s: Seq<char>, sep: char)
    ensures
        pieces(s, sep).len() > 0,
    decreases s.len(),
{
    let k = crate::text::position_of(s, sep);
    if 0 <= k < s.len() {
        lemma_pieces_nonempty(s.skip(k + 1), sep);
    }
}

fn close_after(value: &str, before: bool) -> (r: bool)
    ensures
        r == closes_after(pieces(value@, ','), before),
{
    let tokens = split(value, ',');
    let ghost all = texts(tokens@);
    let mut close: bool = before;
    let mut i: usize = 0;
    assert(all.take(0) =~= Seq::empty());
    while i < tokens.len()
        invariant
            i <= tokens@.len(),
            all == texts(tokens@),
            close == closes_after(all.take(i as int), before),
        decreases tokens@.len() - i,
    {
        assert(all.take(i + 1).drop_last() =~= all.take(i as int));
        assert(all.take(i + 1).last() == tokens@[i as int]@);
        let token = trim(tokens[i].as_str());
        if eq_ignore_case(token.as_str(), "close") {
            close = true;
        } else if eq_ignore_case(token.as_str(), "keep-alive") {
            close = false;
        }
        i = i + 1;
    }
    assert(all.take(i as int) =~= all);
    close
}

fn frame_headers(
    version: Option<u8>,
    headers: &Vec<crate::wire::HeaderField>,
    request: bool,
) -> (r: Frame)
    ensures
        frame_is(r, framing_of(version, fields(headers@), request)),
{
    let mut f = Frame {
        host: None,
        content_length: None,
        bad_length: false,
        chunked: false,
        close: version == Some(0u8),
    };
    let ghost hs = fields(headers@);
    let mut i: usize = 0;
    assert(hs.take(0) =~= Seq::empty());
    while i < headers.len()
        invariant
            i <= headers@.len(),
            hs == fields(headers@),
            frame_is(f, framing_of(version, hs.take(i as int), request)),
        decreases headers@.len() - i,
    {
        let h = &headers[i];
        assert(hs.take(i + 1).drop_last() =~= hs.take(i as int));
        assert(hs[i as int] == h@);
        let name = h.name.as_str();
        let value = h.value.as_slice();
        if request && eq_ignore_case(name, "host") {
            f.host = match text_of(value) {
                Some(t) => Some(t.to_owned()),
                None => None,
            };
        } else if eq_ignore_case(name, "content-length") {
            f.content_length = match trim_utf8(value) {
                Some(t) => parse_u64(t.as_str()),
                None => None,
            };
            if f.content_length.is_none() {
                f.bad_length = true;
            }
        } else if eq_ignore_case(name, "transfer-encoding") {
            if let Some(v) = text_of(value) {
                f.chunked = last_is_chunked(v);
            }
        } else if eq_ignore_case(name, "connection") {
            if let Some(v) = text_of(value) {
                f.close = close_after(v, f.close);
            }
        }
        i = i + 1;
    }
    assert(hs.take(i as int) =~= hs);
    f
}

/// What the fields of a request in `buf` say of it, if its length makes sense.
pub fn frame_request(p: &ParsedRequest, buf: &[u8]) -> (r: Option<RequestHead>)
    requires
        request_placed(buf@, p@),
    ensures
        r is Some <==> request_info(buf@, p@) is Some,
        r matches Some(head) ==> Some(head@) == request_info(buf@, p@) && head.head_len
            <= buf@.len(),
{
    let f = frame_headers(p.version, &p.headers, true);
    if f.bad_length {
        return None;
    }
    let method: String = match &p.method {
        Some(method) => method.clone(),
        None => String::new(),
    };
    let target: String = match &p.target {
        Some(target) => target.clone(),
        None => String::new(),
    };
    // Locate the target inside the request line.
    let wire = target.as_str().as_bytes();
    let at: usize = match find_subslice(buf, wire) {
        Some(at) => at,
        None => {
            assert(occurs_at(buf@, wire@, p.target_at->0 as int));
            0
        },
    };
    let len: usize = wire.len();
    let total: usize = buf.len();
    let body: BodyLength = if f.chunked {
        BodyLength::Chunked
    } else {
        match f.content_length {
            None => BodyLength::Empty,
            Some(n) => if n == 0 {
                BodyLength::Empty
            } else {
                BodyLength::Fixed(n)
            },
        }
    };
    Some(
        RequestHead {
            head_len: p.head_len,
            method,
            target,
            host: f.host,
            body,
            close_requested: f.close,
            target_span: (at, at + len),
        },
    )
}

/// What the fields of a response in `buf` say of it.
pub fn frame_response(p: &ParsedResponse, buf: &[u8], request_method: &str) -> (r: ResponseHead)
    requires
        response_placed(buf@, p@),
    ensures
        r == response_info(p@, request_method@),
        r.head_len <= buf@.len(),
{
    let f = frame_headers(p.version, &p.headers, false);
    let status: u16 = match p.status {
        Some(status) => status,
        None => 0,
    };
    // RFC 9112 §6.3: these never carry a body regardless of their headers.
    let bodyless: bool = eq_ignore_case(request_method, "HEAD") || status == 204 || status == 304
        || (100 <= status && status < 200);
    let body: BodyLength = if bodyless {
        BodyLength::Empty
    } else if f.chunked {
        BodyLength::Chunked
    } else {
        match f.content_length {
            None => BodyLength::UntilClose,
            Some(n) => if n == 0 {
                BodyLength::Empty
            } else {
                BodyLength::Fixed(n)
            },
        }
    };
    ResponseHead { head_len: p.head_len, status, body, close_requested: f.close }
}

// ---------------------------------------------------------------------------
// Header lines
// ---------------------------------------------------------------------------

/// A line without the CR that ends it.
pub open spec fn without_cr(line: Seq<u8>) -> Seq<u8> {
    if line.len() > 0 && line.last() == 13 {
        line.drop_last()
    } else {
        line
    }
}

/// Whether a line continues the one before it (obs-fold).
pub open spec fn is_continuation(line: Seq<u8>) -> bool {
    line.len() > 0 && (line[0] == 32 || line[0] == 9)
}

/// The header lines among raw lines: empty ones are left out, and a continuation
/// is joined onto the line before it.
pub open spec fn header_lines_of(raw: Seq<Seq<u8>>) -> Seq<Seq<u8>>
    decreases raw.len(),
{
    if raw.len() == 0 {
        Seq::empty()
    } else {
        let before = header_lines_of(raw.drop_last());
        let line = without_cr(raw.last());
        if line.len() == 0 {
            before
        } else if is_continuation(line) && before.len() > 0 {
            before.drop_last().push(before.last() + line)
        } else {
            before.push(line)
        }
    }
}

/// The header lines of a header block.
pub open spec fn header_lines(block: Seq<u8>) -> Seq<Seq<u8>> {
    header_lines_of(byte_pieces(block, 10))
}

/// Split a header block into lines, joining obs-fold continuations onto the
/// previous line rather than dropping them.
#[must_use]
pub fn split_header_lines(block: &[u8]) -> (r: Vec<Vec<u8>>)
    ensures
        byte_lists(r@) == header_lines(block@),
{
    let raw = split_bytes(block, 10);
    let ghost all = byte_lists(raw@);
    let mut out: Vec<Vec<u8>> = Vec::new();
    let mut i: usize = 0;
    assert(all.take(0) =~= Seq::empty());
    assert(byte_lists(out@) =~= Seq::empty());
    while i < raw.len()
        invariant
            i <= raw@.len(),
            all == byte_lists(raw@),
            byte_lists(out@) == header_lines_of(all.take(i as int)),
        decreases raw@.len() - i,
    {
        assert(all.take(i + 1).drop_last() =~= all.take(i as int));
        assert(all.take(i + 1).last() == raw@[i as int]@);
        let n: usize = raw[i].len();
        let end: usize = if n > 0 && raw[i][n - 1] == 13 {
            n - 1
        } else {
            n
        };
        let line = slice_subrange(raw[i].as_slice(), 0, end);
        assert(line@ =~= without_cr(raw@[i as int]@));
        let ghost before = byte_lists(out@);
        assert(before.len() == out@.len());
        if line.len() > 0 {
            if (line[0] == 32 || line[0] == 9) && out.len() > 0 {
                let last: usize = out.len() - 1;
                let mut grown = to_vec(out[last].as_slice());
                grown.extend_from_slice(line);
                assert(grown@ =~= before.last() + line@);
                out.set(last, grown);
                assert(byte_lists(out@) =~= before.drop_last().push(before.last() + line@));
            } else {
                out.push(to_vec(line));
                assert(byte_lists(out@) =~= before.push(line@));
            }
        }
        i = i + 1;
    }
    assert(all.take(i as int) =~= all);
    out
}

/// The name of a header line: what precedes its first colon.
pub open spec fn line_name(line: Seq<u8>) -> Seq<u8> {
    line.take(byte_position(line, 58))
}

/// The value of a header line: what follows its first colon.
pub open spec fn line_value(line: Seq<u8>) -> Seq<u8> {
    line.skip(byte_position(line, 58) + 1)
}

/// Whether a line has a colon.
pub open spec fn has_colon(line: Seq<u8>) -> bool {
    byte_position(line, 58) < line.len()
}

/// Whether a raw name is `name`, white space around it and ASCII case aside.
pub open spec fn is_named(raw: Seq<u8>, name: Seq<u8>) -> bool {
    lower_bytes(trimmed_bytes(raw)) == lower_bytes(name)
}

/// [`is_named`], computed.
fn eq_ci(a: &[u8], b: &[u8]) -> (r: bool)
    ensures
        r == is_named(a@, b@),
{
    eq_ignore_ascii_case(trim_ascii(a), b)
}

/// Headers that a proxy must not forward.
pub const HOP_BY_HOP: [&'static str; 8] = [
    "connection",
    "keep-alive",
    "proxy-authenticate",
    "proxy-authorization",
    "proxy-connection",
    "te",
    "trailer",
    "upgrade",
];

/// Whether a raw name is one of [`HOP_BY_HOP`].
pub open spec fn is_hop_name(raw: Seq<u8>) -> bool {
    exists|i: int| 0 <= i < 8 && is_named(raw, encode_utf8(#[trigger] HOP_BY_HOP@[i]@))
}

/// [`is_hop_name`], computed.
#[must_use]
pub fn is_hop_by_hop(name: &[u8]) -> (r: bool)
    ensures
        r == is_hop_name(name@),
{
    let mut i: usize = 0;
    while i < 8
        invariant
            i <= 8,
            forall|k: int|
                0 <= k < i ==> !is_named(name@, encode_utf8(#[trigger] HOP_BY_HOP@[k]@)),
        decreases 8 - i,
    {
        let hop = HOP_BY_HOP[i];
        assert(hop@ == HOP_BY_HOP@[i as int]@);
        if eq_ci(name, hop.as_bytes()) {
            return true;
        }
        i = i + 1;
    }
    false
}

/// Whether a token of a `Connection` value names a header; `close` and
/// `keep-alive` are dispositions.
pub open spec fn token_nominates(token: Seq<u8>) -> bool {
    let t = trimmed_bytes(token);
    t.len() > 0 && !is_named(t, encode_utf8("close"@)) && !is_named(t, encode_utf8("keep-alive"@))
}

/// The header names that tokens nominate, in lower case.
pub open spec fn nominated_by_tokens(tokens: Seq<Seq<u8>>) -> Seq<Seq<u8>>
    decreases tokens.len(),
{
    if tokens.len() == 0 {
        Seq::empty()
    } else {
        let before = nominated_by_tokens(tokens.drop_last());
        if token_nominates(tokens.last()) {
            before.push(lower_bytes(trimmed_bytes(tokens.last())))
        } else {
            before
        }
    }
}

/// The header names that the `Connection` lines among header lines nominate.
pub open spec fn nominated_by_lines(lines: Seq<Seq<u8>>) -> Seq<Seq<u8>>
    decreases lines.len(),
{
    if lines.len() == 0 {
        Seq::empty()
    } else {
        let before = nominated_by_lines(lines.drop_last());
        let line = lines.last();
        if has_colon(line) && is_named(line_name(line), encode_utf8("connection"@)) {
            before + nominated_by_tokens(byte_pieces(line_value(line), 44))
        } else {
            before
        }
    }
}

/// Header names nominated as hop-by-hop by a `Connection` header in `block`.
#[must_use]
pub fn connection_nominated(block: &[u8]) -> (r: Vec<Vec<u8>>)
    ensures
        byte_lists(r@) == nominated_by_lines(header_lines(block@)),
{
    let lines = split_header_lines(block);
    nominated_in(&lines)
}

fn lower_copy(s: &[u8]) -> (r: Vec<u8>)
    ensures
        r@ == lower_bytes(s@),
{
    let mut out: Vec<u8> = Vec::new();
    let mut i: usize = 0;
    while i < s.len()
        invariant
            i <= s@.len(),
            out@.len() == i,
            forall|k: int| 0 <= k < i ==> out@[k] == lower_bytes(s@)[k],
        decreases s@.len() - i,
    {
        out.push(lower_one(s[i]));
        i = i + 1;
    }
    assert(out@ =~= lower_bytes(s@));
    out
}

fn nominated_in(lines: &Vec<Vec<u8>>) -> (r: Vec<Vec<u8>>)
    ensures
        byte_lists(r@) == nominated_by_lines(byte_lists(lines@)),
{
    let ghost all = byte_lists(lines@);
    let mut out: Vec<Vec<u8>> = Vec::new();
    let mut i: usize = 0;
    assert(all.take(0) =~= Seq::empty());
    assert(byte_lists(out@) =~= Seq::empty());
    while i < lines.len()
        invariant
            i <= lines@.len(),
            all == byte_lists(lines@),
            byte_lists(out@) == nominated_by_lines(all.take(i as int)),
        decreases lines@.len() - i,
    {
        let line = lines[i].as_slice();
        assert(all.take(i + 1).drop_last() =~= all.take(i as int));
        assert(all.take(i + 1).last() == line@);
        let colon: usize = index_of(line, 58);
        if colon < line.len() {
            let name = slice_subrange(line, 0, colon);
            assert(name@ =~= line_name(line@));
            if eq_ci(name, "connection".as_bytes()) {
                let value = slice_subrange(line, colon + 1, line.len());
                assert(value@ =~= line_value(line@));
                let ghost before = out@;
                let tokens = split_bytes(value, 44);
                let mut more = nominated_tokens(&tokens);
                let ghost added = more@;
                out.append(&mut more);
                assert(byte_lists(out@) =~= byte_lists(before) + byte_lists(added));
            }
        }
        i = i + 1;
    }
    assert(all.take(i as int) =~= all);
    out
}

fn nominated_tokens(tokens: &Vec<Vec<u8>>) -> (r: Vec<Vec<u8>>)
    ensures
        byte_lists(r@) == nominated_by_tokens(byte_lists(tokens@)),
{
    let ghost all = byte_lists(tokens@);
    let mut out: Vec<Vec<u8>> = Vec::new();
    let mut i: usize = 0;
    assert(all.take(0) =~= Seq::empty());
    assert(byte_lists(out@) =~= Seq::empty());
    while i < tokens.len()
        invariant
            i <= tokens@.len(),
            all == byte_lists(tokens@),
            byte_lists(out@) == nominated_by_tokens(all.take(i as int)),
        decreases tokens@.len() - i,
    {
        assert(all.take(i + 1).drop_last() =~= all.take(i as int));
        assert(all.take(i + 1).last() == tokens@[i as int]@);
        let token = trim_ascii(tokens[i].as_slice());
        if token.len() > 0 && !eq_ci(token, "close".as_bytes()) && !eq_ci(
            token,
            "keep-alive".as_bytes(),
        ) {
            let ghost before = out@;
            out.push(lower_copy(token));
            assert(byte_lists(out@) =~= byte_lists(before).push(lower_bytes(token@)));
        }
        i = i + 1;
    }
    assert(all.take(i as int) =~= all);
    out
}

/// Whether a raw name is among the nominated ones.
pub open spec fn is_nominated(raw: Seq<u8>, nominated: Seq<Seq<u8>>) -> bool {
    exists|i: int| 0 <= i < nominated.len() && is_named(raw, #[trigger] nominated[i])
}

fn nominated_here(name: &[u8], nominated: &Vec<Vec<u8>>) -> (r: bool)
    ensures
        r == is_nominated(name@, byte_lists(nominated@)),
{
    let ghost all = byte_lists(nominated@);
    let mut i: usize = 0;
    while i < nominated.len()
        invariant
            i <= nominated@.len(),
            all == byte_lists(nominated@),
            forall|k: int| 0 <= k < i ==> !is_named(name@, #[trigger] all[k]),
        decreases nominated@.len() - i,
    {
        assert(all[i as int] == nominated@[i as int]@);
        if eq_ci(name, nominated[i].as_slice()) {
            return true;
        }
        i = i + 1;
    }
    false
}

/// Whether a request line's header stays behind.
pub open spec fn request_withholds(line: Seq<u8>, nominated: Seq<Seq<u8>>) -> bool {
    let name = line_name(line);
    ||| !has_colon(line)
    ||| is_hop_name(name)
    ||| is_named(name, encode_utf8("host"@))
    ||| is_nominated(name, nominated)
}

/// The request headers that are copied through, each a line of its own.
/// `X-Forwarded-For` is not among them: the proxy writes its own.
pub open spec fn forwarded_lines(lines: Seq<Seq<u8>>, nominated: Seq<Seq<u8>>) -> Seq<u8>
    decreases lines.len(),
{
    if lines.len() == 0 {
        Seq::empty()
    } else {
        let before = forwarded_lines(lines.drop_last(), nominated);
        let line = lines.last();
        if request_withholds(line, nominated) || is_named(
            line_name(line),
            encode_utf8("x-forwarded-for"@),
        ) {
            before
        } else {
            before + line + encode_utf8("\r\n"@)
        }
    }
}

/// The forwarding chain that a request brings.
pub open spec fn existing_chain(lines: Seq<Seq<u8>>, nominated: Seq<Seq<u8>>) -> Option<Seq<u8>>
    decreases lines.len(),
{
    if lines.len() == 0 {
        None
    } else {
        let line = lines.last();
        if !request_withholds(line, nominated) && is_named(
            line_name(line),
            encode_utf8("x-forwarded-for"@),
        ) {
            Some(trimmed_bytes(line_value(line)))
        } else {
            existing_chain(lines.drop_last(), nominated)
        }
    }
}

/// Where the first line of a head ends, and its header lines begin.
pub open spec fn first_line_end(head: Seq<u8>) -> int {
    match first_occurrence(head, encode_utf8("\r\n"@)) {
        Some(k) => k + encode_utf8("\r\n"@).len(),
        None => head.len() as int,
    }
}

/// The forwarding headers for a peer.
pub open spec fn forwarding_lines(peer: Option<Seq<char>>, chain: Option<Seq<u8>>) -> Seq<u8> {
    match peer {
        None => Seq::empty(),
        Some(ip) => encode_utf8("X-Forwarded-For: "@) + (match chain {
            Some(prev) => prev + encode_utf8(", "@),
            None => Seq::empty(),
        }) + encode_utf8(ip) + encode_utf8("\r\nX-Forwarded-Proto: http\r\n"@),
    }
}

/// The head that goes upstream.
pub open spec fn forward_head(
    head: Seq<u8>,
    method: Seq<char>,
    target: Seq<char>,
    upstream_host: Seq<char>,
    peer: Option<Seq<char>>,
) -> Seq<u8> {
    let lines = header_lines(head.skip(first_line_end(head)));
    let nominated = nominated_by_lines(lines);
    encode_utf8(method) + encode_utf8(" "@) + encode_utf8(target) + encode_utf8(" HTTP/1.1\r\n"@)
        + forwarded_lines(lines, nominated) + encode_utf8("Host: "@) + encode_utf8(upstream_host)
        + encode_utf8("\r\n"@) + forwarding_lines(peer, existing_chain(lines, nominated))
        + encode_utf8("\r\n"@)
}

/// The text of an optional string.
pub open spec fn peer_text(peer: Option<&str>) -> Option<Seq<char>> {
    match peer {
        Some(p) => Some(p@),
        None => None,
    }
}

fn line_end(head: &[u8]) -> (r: usize)
    ensures
        r == first_line_end(head@),
        r <= head@.len(),
{
    let crlf = "\r\n".as_bytes();
    let total: usize = head.len();
    match find_subslice(head, crlf) {
        Some(k) => k + crlf.len(),
        None => total,
    }
}

/// Rewrite a request head for forwarding.
///
/// Copies the request line (with `target` substituted) and every header except
/// the hop-by-hop set and those that `Connection` nominates, then appends `Host`
/// and, for a peer, the forwarding headers.
pub fn write_forward_head(
    out: &mut BytesMut,
    original: &[u8],
    head: &RequestHead,
    target: &str,
    upstream_host: &str,
    peer: Option<&str>,
)
    requires
        head.head_len <= original@.len(),
    ensures
        buffer_bytes(*final(out)) == forward_head(
            original@.take(head.head_len as int),
            head.method@,
            target@,
            upstream_host@,
            peer_text(peer),
        ),
{
    buffer_clear(out);
    // Request line: METHOD SP target SP HTTP/1.1 CRLF
    buffer_put(out, head.method.as_str().as_bytes());
    buffer_put(out, " ".as_bytes());
    buffer_put(out, target.as_bytes());
    buffer_put(out, " HTTP/1.1\r\n".as_bytes());
    let ghost start = buffer_bytes(*out);
    assert(start =~= encode_utf8(head.method@) + encode_utf8(" "@) + encode_utf8(target@)
        + encode_utf8(" HTTP/1.1\r\n"@));

    // Skip the original request line; copy the surviving headers verbatim.
    let whole = slice_subrange(original, 0, head.head_len);
    assert(whole@ =~= original@.take(head.head_len as int));
    let headers_start: usize = line_end(whole);
    let block = slice_subrange(whole, headers_start, whole.len());
    assert(block@ =~= whole@.skip(headers_start as int));
    let lines = split_header_lines(block);
    // `Connection: keep-alive, x-trace-id` makes `x-trace-id` hop-by-hop for this
    // connection only; those names must be dropped as well as the fixed set, or
    // the proxy leaks a header the client meant to end at this hop.
    let nominated = nominated_in(&lines);
    let ghost all = byte_lists(lines@);
    let ghost noms = byte_lists(nominated@);
    let mut chain: Option<Vec<u8>> = None;
    let mut i: usize = 0;
    assert(all.take(0) =~= Seq::empty());
    assert(start + Seq::<u8>::empty() =~= start);
    while i < lines.len()
        invariant
            i <= lines@.len(),
            all == byte_lists(lines@),
            noms == byte_lists(nominated@),
            buffer_bytes(*out) == start + forwarded_lines(all.take(i as int), noms),
            chain is Some <==> existing_chain(all.take(i as int), noms) is Some,
            chain matches Some(c) ==> existing_chain(all.take(i as int), noms) == Some(c@),
        decreases lines@.len() - i,
    {
        let line = lines[i].as_slice();
        assert(all.take(i + 1).drop_last() =~= all.take(i as int));
        assert(all.take(i + 1).last() == line@);
        let ghost before = forwarded_lines(all.take(i as int), noms);
        let colon: usize = index_of(line, 58);
        if colon < line.len() {
            let name = slice_subrange(line, 0, colon);
            assert(name@ =~= line_name(line@));
            if is_hop_by_hop(name) || eq_ci(name, "host".as_bytes()) || nominated_here(
                name,
                &nominated,
            ) {
            } else if eq_ci(name, "x-forwarded-for".as_bytes()) {
                let value = slice_subrange(line, colon + 1, line.len());
                assert(value@ =~= line_value(line@));
                chain = Some(to_vec(trim_ascii(value)));
            } else {
                buffer_put(out, line);
                buffer_put(out, "\r\n".as_bytes());
                assert(start + before + line@ + encode_utf8("\r\n"@) =~= start + (before + line@
                    + encode_utf8("\r\n"@)));
            }
        }
        i = i + 1;
    }
    assert(all.take(i as int) =~= all);

    buffer_put(out, "Host: ".as_bytes());
    buffer_put(out, upstream_host.as_bytes());
    buffer_put(out, "\r\n".as_bytes());
    let ghost hosted = buffer_bytes(*out);
    if let Some(ip) = peer {
        buffer_put(out, "X-Forwarded-For: ".as_bytes());
        if let Some(prev) = &chain {
            buffer_put(out, prev.as_slice());
            buffer_put(out, ", ".as_bytes());
        }
        buffer_put(out, ip.as_bytes());
        buffer_put(out, "\r\nX-Forwarded-Proto: http\r\n".as_bytes());
    }
    assert(buffer_bytes(*out) =~= hosted + forwarding_lines(
        peer_text(peer),
        existing_chain(all, noms),
    ));
    buffer_put(out, "\r\n".as_bytes());
}

/// The response headers that are copied through, each a line of its own.
pub open spec fn returned_lines(lines: Seq<Seq<u8>>, nominated: Seq<Seq<u8>>) -> Seq<u8>
    decreases lines.len(),
{
    if lines.len() == 0 {
        Seq::empty()
    } else {
        let before = returned_lines(lines.drop_last(), nominated);
        let line = lines.last();
        if !has_colon(line) || is_hop_name(line_name(line)) || is_nominated(
            line_name(line),
            nominated,
        ) {
            before
        } else {
            before + line + encode_utf8("\r\n"@)
        }
    }
}

/// The head that goes back to the client: the status line as it came, the headers
/// that are copied through, and the disposition that will be honoured.
pub open spec fn return_head(head: Seq<u8>, keep_alive: bool) -> Seq<u8> {
    let lines = header_lines(head.skip(first_line_end(head)));
    head.take(first_line_end(head)) + returned_lines(lines, nominated_by_lines(lines)) + (
    if keep_alive {
        encode_utf8("Connection: keep-alive\r\n\r\n"@)
    } else {
        encode_utf8("Connection: close\r\n\r\n"@)
    })
}

/// Rewrite a response head for return to the client, dropping hop-by-hop headers
/// and forcing the connection disposition we actually intend to honour.
pub fn write_return_head(
    out: &mut BytesMut,
    original: &[u8],
    head: &ResponseHead,
    keep_alive: bool,
)
    requires
        head.head_len <= original@.len(),
    ensures
        buffer_bytes(*final(out)) == return_head(
            original@.take(head.head_len as int),
            keep_alive,
        ),
{
    buffer_clear(out);
    let whole = slice_subrange(original, 0, head.head_len);
    assert(whole@ =~= original@.take(head.head_len as int));
    let status_line_end: usize = line_end(whole);
    let status_line = slice_subrange(whole, 0, status_line_end);
    assert(status_line@ =~= whole@.take(status_line_end as int));
    buffer_put(out, status_line);
    let block = slice_subrange(whole, status_line_end, whole.len());
    assert(block@ =~= whole@.skip(status_line_end as int));
    let lines = split_header_lines(block);
    let nominated = nominated_in(&lines);
    let ghost all = byte_lists(lines@);
    let ghost noms = byte_lists(nominated@);
    let ghost start = buffer_bytes(*out);
    assert(start =~= status_line@);
    let mut i: usize = 0;
    assert(all.take(0) =~= Seq::empty());
    assert(start + Seq::<u8>::empty() =~= start);
    while i < lines.len()
        invariant
            i <= lines@.len(),
            all == byte_lists(lines@),
            noms == byte_lists(nominated@),
            buffer_bytes(*out) == start + returned_lines(all.take(i as int), noms),
        decreases lines@.len() - i,
    {
        let line = lines[i].as_slice();
        assert(all.take(i + 1).drop_last() =~= all.take(i as int));
        assert(all.take(i + 1).last() == line@);
        let ghost before = returned_lines(all.take(i as int), noms);
        let colon: usize = index_of(line, 58);
        if colon < line.len() {
            let name = slice_subrange(line, 0, colon);
            assert(name@ =~= line_name(line@));
            if !is_hop_by_hop(name) && !nominated_here(name, &nominated) {
                buffer_put(out, line);
                buffer_put(out, "\r\n".as_bytes());
                assert(start + before + line@ + encode_utf8("\r\n"@) =~= start + (before + line@
                    + encode_utf8("\r\n"@)));
            }
        }
        i = i + 1;
    }
    assert(all.take(i as int) =~= all);
    if keep_alive {
        buffer_put(out, "Connection: keep-alive\r\n\r\n".as_bytes());
    } else {
        buffer_put(out, "Connection: close\r\n\r\n".as_bytes());
    }
}

/// A status-line-only response.
pub open spec fn error_bytes(status: u16, reason: Seq<char>) -> Seq<u8> {
    encode_utf8("HTTP/1.1 "@) + encode_utf8(nat_text(status as nat)) + encode_utf8(" "@)
        + encode_utf8(reason) + encode_utf8(
        "\r\nContent-Length: 0\r\nConnection: close\r\n\r\n"@,
    )
}

/// A fixed status-line-only response, for errors the proxy generates itself.
#[must_use]
pub fn error_response(status: u16, reason: &str) -> (r: Vec<u8>)
    ensures
        r@ == error_bytes(status, reason@),
{
    let mut out: Vec<u8> = Vec::new();
    let digits = decimal(status as u64);
    out.extend_from_slice("HTTP/1.1 ".as_bytes());
    out.extend_from_slice(digits.as_str().as_bytes());
    out.extend_from_slice(" ".as_bytes());
    out.extend_from_slice(reason.as_bytes());
    out.extend_from_slice("\r\nContent-Length: 0\r\nConnection: close\r\n\r\n".as_bytes());
    assert(out@ =~= error_bytes(status, reason@));
    out
}

/// A header that stays behind contributes no line to the upstream head, wherever
/// it stands.
pub proof fn lemma_withheld_line_is_not_forwarded(
    before: Seq<Seq<u8>>,
    line: Seq<u8>,
    after: Seq<Seq<u8>>,
    nominated: Seq<Seq<u8>>,
)
    requires
        request_withholds(line, nominated),
    ensures
        forwarded_lines(before + seq![line] + after, nominated) == forwarded_lines(
            before + after,
            nominated,
        ),
        existing_chain(before + seq![line] + after, nominated) == existing_chain(
            before + after,
            nominated,
        ),
    decreases after.len(),
{
    let all = before + seq![line] + after;
    if after.len() == 0 {
        assert(all.drop_last() =~= before + after);
    } else {
        lemma_withheld_line_is_not_forwarded(before, line, after.drop_last(), nominated);
        assert(all.drop_last() =~= before + seq![line] + after.drop_last());
        assert((before + after).drop_last() =~= before + after.drop_last());
    }
}

} // verus!
