//! One proxied connection: what each completion does to it and what it asks for
//! next.

use vstd::prelude::*;
use vstd::slice::*;
use vstd::utf8::{decode_utf8, valid_utf8};

use crate::lb_core::filter::{no_filters, Filters, RouteFilters};
use crate::lb_core::forward::turn;
use crate::lb_core::route_table::{
    group_in, table_route, Action, RouteAction, RouteTable, Table, TableOf,
};
use crate::lb_core::simd::validate_utf8;
use crate::lb_core::target::{drawn_from, TargetGroup};
use crate::proxy_native::chunked::{finished, fresh, scanned, ChunkedScan};
use crate::proxy_native::message::{
    client_head, frame_request, frame_response, request_head, response_head, rewrite_request,
    rewrite_response, upstream_head, Body, RequestHead, MAX_HEADERS,
};
use crate::text::{chars_of, find_char, lemma_position, position_of, string_of, trim, trimmed};
use crate::wire::{
    read_request, read_response, request_placed, request_read, response_placed, response_read,
    ParsedRequest, ParsedResponse, RequestFields, RequestParse, RequestRead, ResponseFields,
    ResponseParse, ResponseRead,
};

verus! {

/// Bodies at or below this size are copied in behind the head so the response
/// costs one write. Above it, the body is written straight from the registered
/// buffer and the copy is skipped entirely.
pub const COALESCE_LIMIT: usize = 2048;

/// The index that stands for no buffer.
pub const NO_BUFFER: u16 = 0xffff;

/// What a connection is waiting for.
#[derive(Debug, Clone, Copy, PartialEq, Eq, Structural)]
pub enum State {
    /// Reading a request head from the client.
    ReadHead,
    /// Waiting for an upstream connection to complete.
    Connecting,
    /// Writing the rewritten request to the upstream.
    SendUpstream,
    /// Reading the response head from the upstream.
    RecvHead,
    /// Writing the rewritten head (and any coalesced body) from `out`.
    SendClient,
    /// Writing body bytes straight out of the registered upstream buffer.
    SendBody,
    /// Waiting on more body bytes from the upstream.
    StreamBody,
    Closed,
}

/// Why a request is answered by the proxy itself.
#[derive(Debug, Clone, Copy, PartialEq, Eq, Structural)]
pub enum Failure {
    BadRequest,
    NotFound,
    HeadTooLarge,
    BadGateway,
    Unavailable,
}

impl Failure {
    /// The status that a failure is answered with.
    pub open spec fn status_of(self) -> u16 {
        match self {
            Failure::BadRequest => 400,
            Failure::NotFound => 404,
            Failure::HeadTooLarge => 431,
            Failure::BadGateway => 502,
            Failure::Unavailable => 503,
        }
    }

    /// The reason that goes with the status.
    pub open spec fn reason_of(self) -> Seq<char> {
        match self {
            Failure::BadRequest => "Bad Request"@,
            Failure::NotFound => "Not Found"@,
            Failure::HeadTooLarge => "Request Header Fields Too Large"@,
            Failure::BadGateway => "Bad Gateway"@,
            Failure::Unavailable => "Service Unavailable"@,
        }
    }

    /// The status that a failure is answered with.
    #[must_use]
    pub fn status(self) -> (r: u16)
        ensures
            r == self.status_of(),
    {
        match self {
            Failure::BadRequest => 400,
            Failure::NotFound => 404,
            Failure::HeadTooLarge => 431,
            Failure::BadGateway => 502,
            Failure::Unavailable => 503,
        }
    }

    /// The reason that goes with the status.
    #[must_use]
    pub fn reason(self) -> (r: &'static str)
        ensures
            r@ == self.reason_of(),
    {
        match self {
            Failure::BadRequest => "Bad Request",
            Failure::NotFound => "Not Found",
            Failure::HeadTooLarge => "Request Header Fields Too Large",
            Failure::BadGateway => "Bad Gateway",
            Failure::Unavailable => "Service Unavailable",
        }
    }
}

/// What a connection asks for next.
#[derive(Debug, Clone, Copy, PartialEq, Eq, Structural)]
pub enum Next {
    /// Read more from the client.
    ReadClient,
    /// Find a socket to the upstream.
    Dial,
    /// Write the rest of `out` to the upstream.
    WriteUpstream,
    /// The request is away: read the response.
    AwaitResponse,
    /// Read more from the upstream.
    ReadUpstream,
    /// Write the rest of `out` to the client.
    WriteClient,
    /// Write the rest of the upstream buffer to the client.
    WriteBody,
    /// The response is complete.
    Finish,
    /// Answer with a fixed status.
    Fail(Failure),
    /// Give the connection up.
    Close,
}

/// One connection.
#[derive(Debug)]
pub struct Conn {
    pub generation: u32,
    pub client_fd: i32,
    pub upstream_fd: i32,
    pub peer: String,
    pub state: State,
    /// Registered buffer holding client-side bytes.
    pub cbuf: u16,
    pub cfilled: usize,
    /// Registered buffer holding upstream-side bytes.
    pub ubuf: u16,
    pub ufilled: usize,
    /// Region of `ubuf` still owed to the client. Writing from here rather than
    /// copying into `out` is what keeps a large body zero-copy: the buffer the
    /// response was read into is the buffer it is written out of.
    pub ubuf_off: usize,
    pub ubuf_len: usize,
    /// Rewritten head plus any coalesced body, written from here.
    pub out: Vec<u8>,
    pub out_sent: usize,
    pub keep_alive: bool,
    pub request_was_head: bool,
    /// Response body bytes still to forward, when length-delimited.
    pub body_remaining: usize,
    pub body_until_close: bool,
    /// Chunked-transfer scanner, when the response is chunked.
    pub chunked: Option<ChunkedScan>,
    pub filters: RouteFilters,
    pub upstream_addr: Option<String>,
    pub in_use: bool,
}

/// What a connection holds.
pub struct ConnView {
    pub generation: u32,
    pub client_fd: i32,
    pub upstream_fd: i32,
    pub peer: Seq<char>,
    pub state: State,
    pub cbuf: u16,
    pub cfilled: nat,
    pub ubuf: u16,
    pub ufilled: nat,
    pub ubuf_off: nat,
    pub ubuf_len: nat,
    pub out: Seq<u8>,
    pub out_sent: nat,
    pub keep_alive: bool,
    pub request_was_head: bool,
    pub body_remaining: nat,
    pub body_until_close: bool,
    pub chunked: Option<ChunkedScan>,
    pub filters: Filters,
    pub upstream_addr: Option<Seq<char>>,
    pub in_use: bool,
}

impl View for Conn {
    type V = ConnView;

    open spec fn view(&self) -> ConnView {
        ConnView {
            generation: self.generation,
            client_fd: self.client_fd,
            upstream_fd: self.upstream_fd,
            peer: self.peer@,
            state: self.state,
            cbuf: self.cbuf,
            cfilled: self.cfilled as nat,
            ubuf: self.ubuf,
            ufilled: self.ufilled as nat,
            ubuf_off: self.ubuf_off as nat,
            ubuf_len: self.ubuf_len as nat,
            out: self.out@,
            out_sent: self.out_sent as nat,
            keep_alive: self.keep_alive,
            request_was_head: self.request_was_head,
            body_remaining: self.body_remaining as nat,
            body_until_close: self.body_until_close,
            chunked: self.chunked,
            filters: self.filters@,
            upstream_addr: match self.upstream_addr {
                Some(a) => Some(a@),
                None => None,
            },
            in_use: self.in_use,
        }
    }
}

/// Whether a connection's counters lie within buffers of the given size.
pub open spec fn conn_ok(c: ConnView, buf_size: nat) -> bool {
    &&& c.cfilled <= buf_size
    &&& c.ufilled <= buf_size
    &&& c.ubuf_off <= c.ubuf_len <= buf_size
    &&& c.out_sent <= c.out.len()
}

/// A slot that no connection occupies.
pub open spec fn vacant() -> ConnView {
    ConnView {
        generation: 0,
        client_fd: -1i32 as i32,
        upstream_fd: -1i32 as i32,
        peer: Seq::empty(),
        state: State::Closed,
        cbuf: NO_BUFFER,
        cfilled: 0,
        ubuf: NO_BUFFER,
        ufilled: 0,
        ubuf_off: 0,
        ubuf_len: 0,
        out: Seq::empty(),
        out_sent: 0,
        keep_alive: true,
        request_was_head: false,
        body_remaining: 0,
        body_until_close: false,
        chunked: None,
        filters: no_filters(),
        upstream_addr: None,
        in_use: false,
    }
}

/// A connection ready for its next request.
pub open spec fn next_request(c: ConnView) -> ConnView {
    ConnView {
        state: State::ReadHead,
        cfilled: 0,
        ufilled: 0,
        ubuf_off: 0,
        ubuf_len: 0,
        chunked: None,
        out: Seq::empty(),
        out_sent: 0,
        body_remaining: 0,
        body_until_close: false,
        request_was_head: false,
        ..c
    }
}

/// The text that a span of the buffer spells, if it is well-formed.
pub open spec fn span_text(buf: Seq<u8>, span: (usize, usize)) -> Option<Seq<char>> {
    let part = buf.subrange(span.0 as int, span.0 + span.1);
    if valid_utf8(part) {
        Some(decode_utf8(part))
    } else {
        None
    }
}

/// The path that a request is routed by: its target without the query.
pub open spec fn routing_path(buf: Seq<u8>, head: RequestHead) -> Seq<char> {
    match span_text(buf, head.path) {
        Some(path) => path.take(position_of(path, '?')),
        None => "/"@,
    }
}

/// The host that a request is routed by.
pub open spec fn routing_host(buf: Seq<u8>, head: RequestHead) -> Option<Seq<char>> {
    match head.host {
        Some(span) => match span_text(buf, span) {
            Some(host) => Some(trimmed(host)),
            None => None,
        },
        None => None,
    }
}

/// The body bytes behind a request head that go upstream with it.
pub open spec fn early_body(buf: Seq<u8>, head: RequestHead) -> Seq<u8> {
    let rest = buf.skip(head.head_len as int);
    match head.body {
        Body::Empty => Seq::empty(),
        Body::Length(n) => if n < rest.len() {
            rest.take(n as int)
        } else {
            rest
        },
        Body::Chunked => rest,
        Body::UntilClose => rest,
    }
}

/// A connection whose request has been read and does or does not route.
pub open spec fn request_taken(
    c: ConnView,
    buf: Seq<u8>,
    p: RequestFields,
    route: Option<Action>,
    ticket: int,
) -> (ConnView, Next) {
    let head = request_head(p);
    let heard = ConnView {
        cfilled: buf.len(),
        keep_alive: head.keep_alive,
        request_was_head: head.method_is_head,
        ..c
    };
    match route {
        None => (heard, Next::Fail(Failure::NotFound)),
        Some(action) => {
            let address = turn(action, ticket).address;
            (
                ConnView {
                    out: upstream_head(p, address, c.peer, action.filters.request, p.target->0)
                        + early_body(buf, head),
                    out_sent: 0,
                    cfilled: 0,
                    filters: action.filters,
                    upstream_addr: Some(address),
                    ..heard
                },
                Next::Dial,
            )
        },
    }
}

/// A connection after a read from the client that left `buf` in its buffer.
pub open spec fn client_read(
    c: ConnView,
    res: int,
    buf: Seq<u8>,
    table: Table,
    ticket: int,
) -> (ConnView, Next) {
    if res <= 0 {
        (c, Next::Close)
    } else {
        match request_read(buf, MAX_HEADERS as nat) {
            RequestRead::Partial => (ConnView { cfilled: buf.len(), ..c }, Next::ReadClient),
            RequestRead::Invalid => (
                ConnView { cfilled: buf.len(), ..c },
                Next::Fail(Failure::BadRequest),
            ),
            RequestRead::Complete(p) => request_taken(
                c,
                buf,
                p,
                table_route(
                    table,
                    routing_host(buf, request_head(p)),
                    routing_path(buf, request_head(p)),
                    false,
                ),
                ticket,
            ),
        }
    }
}

/// Whether a ticket was drawn from the group of the route that a request takes which a
/// read from the client has completed, where it has and there is one.
pub open spec fn read_draws(
    groups: TableOf<TargetGroup>,
    res: int,
    buf: Seq<u8>,
    ticket: usize,
) -> bool {
    res > 0 ==> (request_read(buf, MAX_HEADERS as nat) matches RequestRead::Complete(p)
        ==> drawn_from(
        table_route(
            groups,
            routing_host(buf, request_head(p)),
            routing_path(buf, request_head(p)),
            false,
        ),
        ticket,
    ))
}

/// A connection after a write to the upstream.
pub open spec fn upstream_written(c: ConnView, res: int) -> (ConnView, Next) {
    if res <= 0 {
        (c, Next::Fail(Failure::BadGateway))
    } else if c.out_sent + res < c.out.len() {
        (ConnView { out_sent: (c.out_sent + res) as nat, ..c }, Next::WriteUpstream)
    } else {
        (ConnView { out_sent: (c.out_sent + res) as nat, ..c }, Next::AwaitResponse)
    }
}

/// How much of a response body is still to come once `present` bytes of it have
/// been read.
pub open spec fn body_left(body: Body, present: nat, scan: ChunkedScan) -> nat {
    match body {
        Body::Empty => 0,
        Body::Length(n) => if n <= present {
            0
        } else {
            (n - present) as nat
        },
        Body::Chunked => if finished(scan) {
            0
        } else {
            usize::MAX as nat
        },
        Body::UntilClose => usize::MAX as nat,
    }
}

/// A connection whose response head has been read.
pub open spec fn response_taken(c: ConnView, buf: Seq<u8>, p: ResponseFields) -> (ConnView, Next) {
    let head = response_head(p, c.request_was_head);
    let keep_alive = c.keep_alive && head.keep_alive;
    let body = buf.skip(head.head_len as int);
    let coalesced = body.len() <= COALESCE_LIMIT;
    let scan = scanned(fresh(), body);
    (
        ConnView {
            out: client_head(p, keep_alive, c.filters.response) + (if coalesced {
                body
            } else {
                Seq::empty()
            }),
            out_sent: 0,
            keep_alive,
            body_remaining: body_left(head.body, body.len(), scan),
            body_until_close: head.body is UntilClose,
            chunked: if head.body is Chunked {
                Some(scan)
            } else {
                None
            },
            ufilled: 0,
            ubuf_off: if coalesced {
                0
            } else {
                head.head_len as nat
            },
            ubuf_len: if coalesced {
                0
            } else {
                buf.len()
            },
            state: State::SendClient,
            ..c
        },
        Next::WriteClient,
    )
}

/// A connection that forwards `buf`, the next bytes of a body.
pub open spec fn body_chunk(c: ConnView, buf: Seq<u8>) -> ConnView {
    let chunked = match c.chunked {
        Some(scan) => Some(scanned(scan, buf)),
        None => None,
    };
    let done = chunked is Some && finished(chunked->0);
    ConnView {
        chunked,
        body_remaining: if done {
            0
        } else if c.body_remaining == usize::MAX {
            c.body_remaining
        } else if c.body_remaining <= buf.len() {
            0
        } else {
            (c.body_remaining - buf.len()) as nat
        },
        ubuf_off: 0,
        ubuf_len: buf.len(),
        ufilled: 0,
        state: State::SendBody,
        ..c
    }
}

/// A connection after a read from the upstream that left `buf` in its buffer.
pub open spec fn upstream_read(c: ConnView, res: int, buf: Seq<u8>) -> (ConnView, Next) {
    if res < 0 {
        (c, Next::Fail(Failure::BadGateway))
    } else if res == 0 {
        // Upstream closed. For an until-close body that is the terminator.
        if c.state is StreamBody && c.body_until_close {
            (ConnView { keep_alive: false, ..c }, Next::Finish)
        } else {
            (c, Next::Fail(Failure::BadGateway))
        }
    } else if c.state is StreamBody {
        (body_chunk(c, buf), Next::WriteBody)
    } else {
        match response_read(buf, MAX_HEADERS as nat) {
            ResponseRead::Partial => (ConnView { ufilled: buf.len(), ..c }, Next::ReadUpstream),
            ResponseRead::Invalid => (
                ConnView { ufilled: buf.len(), ..c },
                Next::Fail(Failure::BadGateway),
            ),
            ResponseRead::Complete(p) => response_taken(c, buf, p),
        }
    }
}

/// What is owed once a client write has drained: more body, or the end.
pub open spec fn drained(c: ConnView) -> (ConnView, Next) {
    if (c.body_until_close || c.body_remaining > 0) && c.upstream_fd >= 0 {
        (ConnView { state: State::StreamBody, ..c }, Next::ReadUpstream)
    } else {
        (c, Next::Finish)
    }
}

/// A connection after a write to the client.
pub open spec fn client_written(c: ConnView, res: int) -> (ConnView, Next) {
    if res <= 0 {
        (c, Next::Close)
    } else if c.state is SendBody {
        if c.ubuf_off + res < c.ubuf_len {
            (ConnView { ubuf_off: (c.ubuf_off + res) as nat, ..c }, Next::WriteBody)
        } else {
            drained(ConnView { ubuf_off: 0, ubuf_len: 0, ..c })
        }
    } else {
        let sent = ConnView { out_sent: (c.out_sent + res) as nat, ..c };
        if sent.out_sent < c.out.len() {
            (sent, Next::WriteClient)
        } else if c.ubuf_len > c.ubuf_off {
            // The head is away; any body left in the registered buffer follows.
            (ConnView { state: State::SendBody, ..sent }, Next::WriteBody)
        } else {
            drained(sent)
        }
    }
}

/// The text that a span of the buffer spells, if it is well-formed.
fn text_at<'a>(buf: &'a [u8], span: (usize, usize)) -> (r: Option<&'a str>)
    requires
        span.0 + span.1 <= buf@.len(),
    ensures
        r is Some <==> span_text(buf@, span) is Some,
        r matches Some(t) ==> Some(t@) == span_text(buf@, span),
{
    let len: usize = buf.len();
    let part = slice_subrange(buf, span.0, span.0 + span.1);
    match validate_utf8(part) {
        Some(t) => {
            proof {
                vstd::utf8::encode_utf8_decode_utf8(t@);
            }
            Some(t)
        },
        None => None,
    }
}

/// A path without its query.
pub fn path_without_query(path: &str) -> (r: String)
    ensures
        r@ == path@.take(position_of(path@, '?')),
{
    let chars = chars_of(path);
    proof {
        lemma_position(path@, '?');
    }
    assert(path@.skip(0) =~= path@);
    let mark: usize = find_char(&chars, '?', 0);
    let out = string_of(&chars, 0, mark);
    assert(out@ =~= path@.take(mark as int));
    out
}

impl Conn {
    /// A slot that no connection occupies.
    #[must_use]
    pub fn vacant() -> (r: Self)
        ensures
            r@ == vacant(),
    {
        let r = Self {
            generation: 0,
            client_fd: -1,
            upstream_fd: -1,
            peer: String::new(),
            state: State::Closed,
            cbuf: NO_BUFFER,
            cfilled: 0,
            ubuf: NO_BUFFER,
            ufilled: 0,
            ubuf_off: 0,
            ubuf_len: 0,
            out: Vec::new(),
            out_sent: 0,
            keep_alive: true,
            request_was_head: false,
            body_remaining: 0,
            body_until_close: false,
            chunked: None,
            filters: RouteFilters::default(),
            upstream_addr: None,
            in_use: false,
        };
        r
    }

    /// Make ready for the next request.
    pub fn reset_for_next_request(&mut self)
        ensures
            final(self)@ == next_request(old(self)@),
    {
        self.state = State::ReadHead;
        self.cfilled = 0;
        self.ufilled = 0;
        self.ubuf_off = 0;
        self.ubuf_len = 0;
        self.chunked = None;
        self.out.clear();
        self.out_sent = 0;
        self.body_remaining = 0;
        self.body_until_close = false;
        self.request_was_head = false;
    }

    /// A read from the client has completed; `buf` is what its buffer holds now.
    ///
    /// Which backend a routed request goes to depends on the other threads.
    pub fn on_client_read(&mut self, res: i32, buf: &[u8], table: &RouteTable) -> (next: Next)
        ensures
            exists|ticket: usize|
                read_draws(table.groups(), res as int, buf@, ticket) && (final(self)@, next)
                    == #[trigger] client_read(
                    old(self)@,
                    res as int,
                    buf@,
                    table@,
                    ticket as int,
                ),
    {
        if res <= 0 {
            assert(read_draws(table.groups(), res as int, buf@, 0usize));
            assert((self@, Next::Close) == client_read(
                old(self)@,
                res as int,
                buf@,
                table@,
                0usize as int,
            ));
            return Next::Close;
        }
        match read_request(buf, MAX_HEADERS) {
            RequestParse::Partial => {
                self.cfilled = buf.len();
                assert(read_draws(table.groups(), res as int, buf@, 0usize));
                assert((self@, Next::ReadClient) == client_read(
                    old(self)@,
                    res as int,
                    buf@,
                    table@,
                    0usize as int,
                ));
                Next::ReadClient
            },
            RequestParse::Invalid => {
                self.cfilled = buf.len();
                assert(read_draws(table.groups(), res as int, buf@, 0usize));
                assert((self@, Next::Fail(Failure::BadRequest)) == client_read(
                    old(self)@,
                    res as int,
                    buf@,
                    table@,
                    0usize as int,
                ));
                Next::Fail(Failure::BadRequest)
            },
            RequestParse::Complete(p) => {
                let head = frame_request(&p, buf);
                let path: String = match text_at(buf, head.path) {
                    Some(path) => path_without_query(path),
                    None => "/".to_owned(),
                };
                let host: Option<String> = match head.host {
                    Some(span) => match text_at(buf, span) {
                        Some(host) => Some(trim(host)),
                        None => None,
                    },
                    None => None,
                };
                // Route with the same shared table and the same lookup every
                // other proxy uses.
                let action = match &host {
                    Some(host) => table.lookup(Some(host.as_str()), path.as_str()),
                    None => table.lookup(None, path.as_str()),
                };
                let next = self.take_request(&p, buf, action);
                proof {
                    let route = table_route(
                        table@,
                        routing_host(buf@, head),
                        routing_path(buf@, head),
                        false,
                    );
                    let ticket = choose|ticket: usize|
                        drawn_from(group_in(action), ticket) && (self@, next)
                            == #[trigger] request_taken(
                            old(self)@,
                            buf@,
                            p@,
                            optional_action(action),
                            ticket as int,
                        );
                    assert(optional_action(action) == route);
                    assert(read_draws(table.groups(), res as int, buf@, ticket));
                    assert((self@, next) == client_read(
                        old(self)@,
                        res as int,
                        buf@,
                        table@,
                        ticket as int,
                    ));
                }
                next
            },
        }
    }

    /// A request has been read and its route looked up.
    pub fn take_request(
        &mut self,
        p: &ParsedRequest,
        buf: &[u8],
        action: Option<&RouteAction>,
    ) -> (next: Next)
        requires
            request_placed(buf@, p@),
        ensures
            exists|ticket: usize|
                drawn_from(group_in(action), ticket) && (final(self)@, next)
                    == #[trigger] request_taken(
                    old(self)@,
                    buf@,
                    p@,
                    optional_action(action),
                    ticket as int,
                ),
    {
        let head = frame_request(p, buf);
        self.keep_alive = head.keep_alive;
        self.request_was_head = head.method_is_head;
        self.cfilled = buf.len();
        let action = match action {
            Some(action) => action,
            None => {
                assert(drawn_from(group_in(None), 0usize));
                assert((self@, Next::Fail(Failure::NotFound)) == request_taken(
                    old(self)@,
                    buf@,
                    p@,
                    None,
                    0usize as int,
                ));
                return Next::Fail(Failure::NotFound);
            },
        };
        let target = action.target_group.select();
        let ghost ticket = choose|ticket: usize|
            action.target_group.drew(ticket) && target@
                == #[trigger] action.target_group.turn_of(ticket as int);
        assert(turn(action@, ticket as int) == target@);

        // Build the upstream request. Body bytes already in the buffer are
        // appended here so head and body cross in a single write.
        let mut out: Vec<u8> = Vec::new();
        rewrite_request(
            &mut out,
            p,
            target.address(),
            self.peer.as_str(),
            &action.filters,
            None,
        );
        let ghost head_bytes = out@;
        let total: usize = buf.len();
        let rest: usize = total - head.head_len;
        let take: usize = match head.body {
            Body::Empty => 0,
            Body::Length(n) => if n < rest {
                n
            } else {
                rest
            },
            Body::Chunked => rest,
            Body::UntilClose => rest,
        };
        let body = slice_subrange(buf, head.head_len, head.head_len + take);
        out.extend_from_slice(body);
        assert(body@ =~= early_body(buf@, head));
        assert(out@ =~= head_bytes + early_body(buf@, head));
        self.out = out;
        self.filters = action.filters.clone();
        self.upstream_addr = Some(target.address().to_owned());
        self.out_sent = 0;
        self.cfilled = 0;
        assert((self@, Next::Dial) == request_taken(
            old(self)@,
            buf@,
            p@,
            Some(action@),
            ticket as int,
        ));
        Next::Dial
    }

    /// The connection to the upstream has been made, or not.
    pub fn on_upstream_connect(&mut self, res: i32) -> (next: Next)
        ensures
            res < 0 ==> next == Next::Fail(Failure::BadGateway) && final(self)@ == old(self)@,
            res >= 0 ==> next == Next::WriteUpstream && final(self)@ == (ConnView {
                state: State::SendUpstream,
                ..old(self)@
            }),
    {
        if res < 0 {
            return Next::Fail(Failure::BadGateway);
        }
        self.state = State::SendUpstream;
        Next::WriteUpstream
    }

    /// A write to the upstream has completed.
    pub fn on_upstream_write(&mut self, res: i32) -> (next: Next)
        requires
            old(self).out_sent + res <= usize::MAX,
        ensures
            (final(self)@, next) == upstream_written(old(self)@, res as int),
    {
        if res <= 0 {
            return Next::Fail(Failure::BadGateway);
        }
        self.out_sent = self.out_sent + res as usize;
        if self.out_sent < self.out.len() {
            Next::WriteUpstream
        } else {
            Next::AwaitResponse
        }
    }

    /// A read from the upstream has completed; `buf` is what its buffer holds now.
    pub fn on_upstream_read(&mut self, res: i32, buf: &[u8]) -> (next: Next)
        ensures
            (final(self)@, next) == upstream_read(old(self)@, res as int, buf@),
            forall|size: nat| #[trigger]
                conn_ok(old(self)@, size) && buf@.len() <= size ==> conn_ok(final(self)@, size),
    {
        if res < 0 {
            return Next::Fail(Failure::BadGateway);
        }
        if res == 0 {
            if self.state == State::StreamBody && self.body_until_close {
                self.keep_alive = false;
                return Next::Finish;
            }
            return Next::Fail(Failure::BadGateway);
        }
        if self.state == State::StreamBody {
            self.forward_body_chunk(buf);
            return Next::WriteBody;
        }
        match read_response(buf, MAX_HEADERS) {
            ResponseParse::Partial => {
                self.ufilled = buf.len();
                Next::ReadUpstream
            },
            ResponseParse::Invalid => {
                self.ufilled = buf.len();
                Next::Fail(Failure::BadGateway)
            },
            ResponseParse::Complete(p) => {
                self.take_response(&p, buf);
                Next::WriteClient
            },
        }
    }

    /// A response head has been read.
    pub fn take_response(&mut self, p: &ParsedResponse, buf: &[u8])
        requires
            response_placed(buf@, p@),
        ensures
            final(self)@ == response_taken(old(self)@, buf@, p@).0,
            forall|size: nat| #[trigger]
                conn_ok(old(self)@, size) && buf@.len() <= size ==> conn_ok(final(self)@, size),
    {
        let head = frame_response(p, buf, self.request_was_head);
        let keep_alive: bool = self.keep_alive && head.keep_alive;
        let total: usize = buf.len();
        let body = slice_subrange(buf, head.head_len, total);
        assert(body@ =~= buf@.skip(head.head_len as int));
        let present: usize = body.len();
        let coalesced: bool = present <= COALESCE_LIMIT;
        let mut out: Vec<u8> = Vec::new();
        rewrite_response(&mut out, p, keep_alive, &self.filters);
        let ghost head_bytes = out@;
        if coalesced {
            // A small body rides out with the head, so the common case is exactly
            // one send. A large one is written from the registered buffer
            // instead, with no copy at all.
            out.extend_from_slice(body);
            assert(out@ =~= head_bytes + body@);
        } else {
            assert(out@ =~= head_bytes + Seq::<u8>::empty());
        }
        let mut chunked: Option<ChunkedScan> = None;
        let mut until_close: bool = false;
        let remaining: usize = match head.body {
            Body::Empty => 0,
            Body::Length(n) => n.saturating_sub(present),
            Body::Chunked => {
                // Chunked bodies are forwarded verbatim but must still be framed,
                // or the proxy cannot tell where the response ends and keep-alive
                // would desynchronise the connection.
                let mut scan = ChunkedScan::new();
                scan.consume(body);
                let done: bool = scan.is_complete();
                chunked = Some(scan);
                if done {
                    0
                } else {
                    usize::MAX
                }
            },
            Body::UntilClose => {
                until_close = true;
                usize::MAX
            },
        };
        self.out = out;
        self.keep_alive = keep_alive;
        self.body_remaining = remaining;
        self.body_until_close = until_close;
        self.chunked = chunked;
        self.ufilled = 0;
        self.ubuf_off = if coalesced {
            0
        } else {
            head.head_len
        };
        self.ubuf_len = if coalesced {
            0
        } else {
            total
        };
        self.out_sent = 0;
        self.state = State::SendClient;
    }

    /// Forward already-buffered upstream bytes without reparsing and without
    /// copying: the client write reads from the same registered buffer the
    /// upstream read filled.
    pub fn forward_body_chunk(&mut self, buf: &[u8])
        ensures
            final(self)@ == body_chunk(old(self)@, buf@),
    {
        let filled: usize = buf.len();
        let mut done: bool = false;
        if let Some(before) = self.chunked {
            let mut scan = before;
            scan.consume(buf);
            done = scan.is_complete();
            self.chunked = Some(scan);
        }
        if done {
            self.body_remaining = 0;
        } else if self.body_remaining != usize::MAX {
            self.body_remaining = self.body_remaining.saturating_sub(filled);
        }
        self.ubuf_off = 0;
        self.ubuf_len = filled;
        self.ufilled = 0;
        self.state = State::SendBody;
    }

    /// A write to the client has completed.
    pub fn on_client_write(&mut self, res: i32) -> (next: Next)
        requires
            old(self).state is SendBody ==> old(self).ubuf_off + res <= usize::MAX,
            !(old(self).state is SendBody) ==> old(self).out_sent + res <= usize::MAX,
        ensures
            (final(self)@, next) == client_written(old(self)@, res as int),
    {
        if res <= 0 {
            return Next::Close;
        }
        let written: usize = res as usize;
        if self.state == State::SendBody {
            self.ubuf_off = self.ubuf_off + written;
            if self.ubuf_off < self.ubuf_len {
                return Next::WriteBody;
            }
            self.ubuf_off = 0;
            self.ubuf_len = 0;
            return self.after_client_write();
        }
        self.out_sent = self.out_sent + written;
        if self.out_sent < self.out.len() {
            return Next::WriteClient;
        }
        // The head is away; any body left in the registered buffer follows.
        if self.ubuf_len > self.ubuf_off {
            self.state = State::SendBody;
            return Next::WriteBody;
        }
        self.after_client_write()
    }

    /// Decide whether more body is owed once a client write has drained.
    pub fn after_client_write(&mut self) -> (next: Next)
        ensures
            (final(self)@, next) == drained(old(self)@),
    {
        let more_body: bool = self.body_until_close || self.body_remaining > 0;
        if more_body && self.upstream_fd >= 0 {
            self.state = State::StreamBody;
            return Next::ReadUpstream;
        }
        Next::Finish
    }
}

/// What a looked-up action does.
pub open spec fn optional_action(action: Option<&RouteAction>) -> Option<Action> {
    match action {
        Some(a) => Some(a@),
        None => None,
    }
}

/// Nothing of a response is lost or doubled: what is owed to the client once its
/// head has been read is the rewritten head followed by every body byte that was
/// read with it, some from `out` and some from the upstream buffer.
pub proof fn lemma_response_bytes_are_all_owed(c: ConnView, buf: Seq<u8>, p: ResponseFields)
    requires
        response_placed(buf, p),
        buf.len() <= usize::MAX,
    ensures
        ({
            let after = response_taken(c, buf, p).0;
            after.out + buf.subrange(after.ubuf_off as int, after.ubuf_len as int) == client_head(
                p,
                after.keep_alive,
                c.filters.response,
            ) + buf.skip(p.head_len)
        }),
{
    let after = response_taken(c, buf, p).0;
    let head = client_head(p, after.keep_alive, c.filters.response);
    let body = buf.skip(p.head_len);
    if body.len() <= COALESCE_LIMIT {
        assert(buf.subrange(0, 0) =~= Seq::empty());
        assert(head + body + Seq::<u8>::empty() =~= head + body);
    } else {
        assert(buf.subrange(p.head_len, buf.len() as int) =~= body);
        assert(head + Seq::<u8>::empty() + body =~= head + body);
    }
}

/// The proxy keeps reading a body for exactly as long as the framing says: a
/// length-delimited response of `n` bytes is over when `n` bytes have been
/// forwarded, whatever the reads were.
pub proof fn lemma_length_counts_down(c: ConnView, n: nat, got: nat, buf: Seq<u8>)
    requires
        c.chunked is None,
        got <= n < usize::MAX,
        c.body_remaining == n - got,
    ensures
        body_chunk(c, buf).body_remaining == (if got + buf.len() >= n {
            0
        } else {
            (n - (got + buf.len())) as nat
        }),
{
}

/// A chunked response is over when its framing is, wherever the reads fell.
pub proof fn lemma_chunked_ends_with_its_framing(c: ConnView, seen: Seq<u8>, buf: Seq<u8>)
    requires
        c.chunked == Some(scanned(fresh(), seen)),
        !finished(scanned(fresh(), seen)),
        c.body_remaining == usize::MAX,
    ensures
        body_chunk(c, buf).chunked == Some(scanned(fresh(), seen + buf)),
        body_chunk(c, buf).body_remaining == (if finished(scanned(fresh(), seen + buf)) {
            0
        } else {
            usize::MAX as nat
        }),
{
    crate::proxy_native::chunked::lemma_scan_split(fresh(), seen, buf);
}

/// A body that runs until the upstream closes ends the client's connection too:
/// nothing else tells the client where it ends.
pub proof fn lemma_until_close_ends_the_connection(c: ConnView, buf: Seq<u8>)
    requires
        c.state is StreamBody,
        c.body_until_close,
    ensures
        upstream_read(c, 0, buf).1 == Next::Finish,
        !upstream_read(c, 0, buf).0.keep_alive,
{
}

} // verus!
