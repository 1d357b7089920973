//! The decisions of one client connection: what to read, where to forward, how
//! much of a body to relay, and when to stop.
//!
//! The caller owns the two I/O buffers and performs the action that each event
//! returns; every buffer is moved into a read or a write and back out, so a busy
//! connection settles into steady state with no further allocation.

use bytes::BytesMut;
use vstd::prelude::*;
use vstd::slice::*;
use vstd::string::*;

use crate::lb_core::filter::{rewritten, Filters, RouteFilters};
use crate::lb_core::forward::turn;
use crate::lb_core::route_table::{
    group_in, table_route, Action, RouteAction, RouteTable, Table, TableOf,
};
use crate::lb_core::target::{drawn_from, TargetGroup};
use crate::proxy_monoio::http1::{
    buffer_bytes, error_bytes, error_response, forward_head, parse_request, parse_response,
    request_info, response_info, return_head, write_forward_head, write_return_head, BodyLength,
    Parsed, RequestHead, RequestInfo, ResponseHead, MAX_HEADERS, MAX_HEAD_SIZE,
};
use crate::proxy_monoio::http2::{detect_h2, is_h2};
use crate::proxy_native::chunked::{finished, fresh, scanned, ChunkedScan};
use crate::text::{chars_of, find_char, lemma_position, position_of};
use crate::wire::{request_read, response_read, RequestRead, ResponseRead};

verus! {

/// Per-worker configuration.
#[derive(Debug)]
pub struct WorkerConfig {
    pub listen_addr: String,
    /// Number of thread-per-core workers.
    pub workers: usize,
    /// Send `X-Forwarded-For` / `X-Forwarded-Proto`.
    pub forwarded_headers: bool,
}

impl WorkerConfig {
    /// Defaults: one worker for each CPU, and forwarding headers.
    #[must_use]
    pub fn new(listen_addr: &str, cpus: usize) -> (r: Self)
        ensures
            r.listen_addr@ == listen_addr@,
            r.workers == cpus,
            r.forwarded_headers,
    {
        Self { listen_addr: listen_addr.to_owned(), workers: cpus, forwarded_headers: true }
    }
}

/// Ceiling for a connection's read buffer. Large enough that a 64 KB payload
/// arrives in one or two completions.
pub const IO_BUF_SIZE: usize = 32 * 1024;

/// Starting read-buffer size.
///
/// Buffers grow on demand rather than starting at [`IO_BUF_SIZE`]: most
/// connections are idle and never carry more than a request head.
pub const IO_BUF_INITIAL: usize = 4 * 1024;

/// Requests served on one client connection before closing it, so a long-lived
/// connection cannot pin resources forever.
pub const MAX_REQUESTS_PER_CONNECTION: u32 = 100_000;

// ---------------------------------------------------------------------------
// Small decisions
// ---------------------------------------------------------------------------

/// The length that a read buffer grows to when `filled` of its `len` bytes are
/// taken.
pub open spec fn grown_len(len: int, filled: int) -> int {
    if len - filled >= IO_BUF_INITIAL {
        len
    } else if len < IO_BUF_INITIAL {
        IO_BUF_INITIAL as int
    } else {
        let doubled = if len * 2 < filled + IO_BUF_SIZE {
            len * 2
        } else {
            filled + IO_BUF_SIZE
        };
        if doubled > filled + IO_BUF_INITIAL {
            doubled
        } else {
            filled + IO_BUF_INITIAL
        }
    }
}

/// A buffer extended with zeros to a length.
pub open spec fn extended(buf: Seq<u8>, len: int) -> Seq<u8> {
    if len <= buf.len() {
        buf
    } else {
        buf + Seq::new((len - buf.len()) as nat, |i: int| 0u8)
    }
}

/// A read buffer with room for another read behind `filled`.
pub open spec fn grown(buf: Seq<u8>, filled: int) -> Seq<u8> {
    extended(buf, grown_len(buf.len() as int, filled))
}

fn extend_to(buf: &mut Vec<u8>, len: usize)
    ensures
        final(buf)@ == extended(old(buf)@, len as int),
{
    let n: usize = buf.len();
    if len > n {
        let ghost before = buf@;
        buf.resize(len, 0);
        assert(buf@ =~= extended(before, len as int)) by {
            assert forall|i: int| 0 <= i < buf@.len() implies buf@[i] == extended(
                before,
                len as int,
            )[i] by {
                if i < before.len() {
                    assert(buf@.subrange(0, before.len() as int)[i] == before[i]);
                }
            }
        }
    }
}

/// Ensure `buf` has room for another read past `filled`, growing geometrically
/// toward [`IO_BUF_SIZE`].
///
/// Doubling rather than adding a fixed block keeps an idle keep-alive connection
/// at [`IO_BUF_INITIAL`] while still reaching the ceiling in a handful of reads
/// once a connection is actually streaming.
pub fn grow_for_read(buf: &mut Vec<u8>, filled: usize)
    requires
        filled <= old(buf)@.len() <= isize::MAX,
    ensures
        final(buf)@ == grown(old(buf)@, filled as int),
{
    let len: usize = buf.len();
    let headroom: usize = len - filled;
    if headroom >= IO_BUF_INITIAL {
        return ;
    }
    if len < IO_BUF_INITIAL {
        extend_to(buf, IO_BUF_INITIAL);
        return ;
    }
    let ceiling: usize = filled + IO_BUF_SIZE;
    let doubled: usize = if len * 2 < ceiling {
        len * 2
    } else {
        ceiling
    };
    let target: usize = if doubled > filled + IO_BUF_INITIAL {
        doubled
    } else {
        filled + IO_BUF_INITIAL
    };
    extend_to(buf, target);
}

/// After growing there is room for a read, no more than the ceiling above what is
/// filled unless there was before, and nothing that was read is lost.
pub proof fn lemma_growth_is_bounded(buf: Seq<u8>, filled: int)
    requires
        0 <= filled <= buf.len(),
    ensures
        grown(buf, filled).len() >= filled + 1,
        filled == 0 || buf.len() >= IO_BUF_INITIAL ==> grown(buf, filled).len() >= filled
            + IO_BUF_INITIAL,
        buf.len() <= filled + IO_BUF_SIZE ==> grown(buf, filled).len() <= filled + IO_BUF_SIZE,
        grown(buf, filled).take(buf.len() as int) == buf,
{
    assert(grown(buf, filled).take(buf.len() as int) =~= buf);
}

/// How many of the bytes after a head belong to a request's body.
pub open spec fn body_prefix(body: BodyLength, available: int) -> int {
    match body {
        BodyLength::Empty => 0,
        BodyLength::Fixed(n) => if n < available {
            n as int
        } else {
            available
        },
        _ => available,
    }
}

/// How many of the bytes after the head belonged to this request's body.
#[must_use]
pub fn body_prefix_len(head: &RequestHead, available: usize) -> (r: usize)
    ensures
        r == body_prefix(head.body, available as int),
{
    prefix_len(head.body, available)
}

fn prefix_len(body: BodyLength, available: usize) -> (r: usize)
    ensures
        r == body_prefix(body, available as int),
{
    match body {
        BodyLength::Empty => 0,
        BodyLength::Fixed(n) => if n < available as u64 {
            n as usize
        } else {
            available
        },
        // Chunked and UntilClose consume everything buffered.
        _ => available,
    }
}

/// The path of a request target: what precedes its first question mark.
pub open spec fn target_path(target: Seq<char>) -> Seq<char> {
    target.take(position_of(target, '?'))
}

/// The query of a request target: what follows its first question mark.
pub open spec fn target_query(target: Seq<char>) -> Option<Seq<char>> {
    let k = position_of(target, '?');
    if k < target.len() {
        Some(target.skip(k + 1))
    } else {
        None
    }
}

/// The path portion of a request target, without the query string.
#[must_use]
pub fn path_of(target: &str) -> (r: &str)
    ensures
        r@ == target_path(target@),
{
    split_target(target).0
}

/// Split a request target into path and optional query.
#[must_use]
pub fn split_target(target: &str) -> (r: (&str, Option<&str>))
    ensures
        r.0@ == target_path(target@),
        r.1 is Some <==> target_query(target@) is Some,
        r.1 matches Some(q) ==> Some(q@) == target_query(target@),
{
    let chars = chars_of(target);
    proof {
        lemma_position(target@, '?');
    }
    assert(target@.skip(0) =~= target@);
    let k: usize = find_char(&chars, '?', 0);
    let path = target.substring_char(0, k);
    assert(path@ =~= target_path(target@));
    if k < chars.len() {
        let query = target.substring_char(k + 1, chars.len());
        assert(query@ =~= target@.skip(k + 1));
        (path, Some(query))
    } else {
        (path, None)
    }
}

/// A target is its path and, behind a question mark, its query.
pub proof fn lemma_target_splitting_loses_nothing(target: Seq<char>)
    ensures
        target == (match target_query(target) {
            Some(query) => target_path(target) + seq!['?'] + query,
            None => target_path(target),
        }),
{
    lemma_position(target, '?');
    let k = position_of(target, '?');
    if k < target.len() {
        assert(target =~= target.take(k) + seq!['?'] + target.skip(k + 1));
    } else {
        assert(target =~= target.take(k));
    }
}

/// The target that a request is forwarded with.
pub open spec fn forward_target_of(filters: Filters, target: Seq<char>) -> Seq<char> {
    if filters.rewrite is Some {
        let path = rewritten(filters.rewrite, target_path(target));
        match target_query(target) {
            Some(query) => path + seq!['?'] + query,
            None => path,
        }
    } else {
        target
    }
}

/// The target that a request is forwarded with: its own, or the rewritten path
/// with the query put back.
#[must_use]
pub fn forward_target(filters: &RouteFilters, target: &str) -> (r: String)
    ensures
        r@ == forward_target_of(filters@, target@),
{
    if filters.rewrites_path() {
        let (path, query) = split_target(target);
        let mut out = filters.apply_url_rewrite(path);
        match query {
            Some(q) => {
                out.push('?');
                out.append(q);
                assert(out@ =~= forward_target_of(filters@, target@));
            },
            None => {},
        }
        out
    } else {
        target.to_owned()
    }
}

// ---------------------------------------------------------------------------
// The connection
// ---------------------------------------------------------------------------

/// Why a request is answered by the proxy itself. The connection ends then.
#[derive(Debug, Clone, Copy, PartialEq, Eq, Structural)]
pub enum Refusal {
    BadRequest,
    NotFound,
    HeadTooLarge,
    BadGateway,
}

impl Refusal {
    /// The response that a refusal is answered with.
    pub open spec fn response_of(self) -> Seq<u8> {
        match self {
            Refusal::BadRequest => error_bytes(400, "Bad Request"@),
            Refusal::NotFound => error_bytes(404, "Not Found"@),
            Refusal::HeadTooLarge => error_bytes(431, "Request Header Fields Too Large"@),
            Refusal::BadGateway => error_bytes(502, "Bad Gateway"@),
        }
    }

    /// The response that a refusal is answered with.
    #[must_use]
    pub fn response(self) -> (r: Vec<u8>)
        ensures
            r@ == self.response_of(),
    {
        match self {
            Refusal::BadRequest => error_response(400, "Bad Request"),
            Refusal::NotFound => error_response(404, "Not Found"),
            Refusal::HeadTooLarge => error_response(431, "Request Header Fields Too Large"),
            Refusal::BadGateway => error_response(502, "Bad Gateway"),
        }
    }
}

/// What the caller must do next, and which event it then reports.
#[derive(Debug, Clone, Copy, PartialEq, Eq, Structural)]
pub enum Act {
    /// Read from the client into this range of the client buffer.
    ReadClient { from: usize, to: usize },
    /// Read from the upstream into this range of the upstream buffer.
    ReadUpstream { from: usize, to: usize },
    /// Get a connection to the upstream, pooled or new.
    Acquire,
    /// Write the prepared head to the upstream.
    SendHead,
    /// Write this range of the client buffer to the upstream.
    WriteUpstream { from: usize, to: usize },
    /// Write the prepared head to the client.
    ReturnHead,
    /// Write this range of the upstream buffer to the client.
    WriteClient { from: usize, to: usize },
    /// The exchange is over: park the upstream connection or drop it, and go on
    /// with the next request or close.
    Finish { park: bool, close: bool },
    /// Hand the filled part of the client buffer to the HTTP/2 server.
    UpgradeH2,
    /// Answer and close.
    Refuse(Refusal),
    /// A peer closed with body bytes outstanding: close.
    Fail,
    /// Close quietly.
    Close,
}

/// What a connection is waiting for.
#[derive(Debug, Clone, Copy, PartialEq, Eq, Structural)]
pub enum Phase {
    /// A request head.
    Head,
    /// A connection to the upstream.
    Acquire,
    /// The head to be written upstream.
    SendHead,
    /// The body bytes that came with the head to be written upstream.
    SendEarly,
    /// More of the request body.
    RequestBody,
    /// It to be written upstream.
    RequestWrite,
    /// A response head.
    ResponseHead,
    /// The head to be written to the client.
    ReturnHead,
    /// The body bytes that came with the head to be written to the client.
    ReturnEarly,
    /// More of the response body.
    ResponseBody,
    /// It to be written to the client.
    ResponseWrite,
    /// Nothing: the connection is over.
    Done,
}

/// What is left of a body to relay.
#[derive(Debug, Clone, Copy, PartialEq, Eq, Structural)]
pub enum Left {
    Nothing,
    /// This many bytes.
    Exact(u64),
    /// Chunks, as far as scanned.
    Chunks(ChunkedScan),
    /// Whatever comes until the source closes.
    UntilClose,
}

/// What is left of a body of which `early` has been read with its head.
pub open spec fn left_after(body: BodyLength, early: Seq<u8>) -> Left {
    match body {
        BodyLength::Empty => Left::Nothing,
        BodyLength::Fixed(n) => if n <= early.len() {
            Left::Nothing
        } else {
            Left::Exact((n - early.len()) as u64)
        },
        BodyLength::Chunked => if finished(scanned(fresh(), early)) {
            Left::Nothing
        } else {
            Left::Chunks(scanned(fresh(), early))
        },
        BodyLength::UntilClose => Left::UntilClose,
    }
}

/// What is left of a body after another piece of it.
pub open spec fn left_less(left: Left, piece: Seq<u8>) -> Left {
    match left {
        Left::Nothing => Left::Nothing,
        Left::Exact(n) => if n <= piece.len() {
            Left::Nothing
        } else {
            Left::Exact((n - piece.len()) as u64)
        },
        Left::Chunks(scan) => if finished(scanned(scan, piece)) {
            Left::Nothing
        } else {
            Left::Chunks(scanned(scan, piece))
        },
        Left::UntilClose => Left::UntilClose,
    }
}

/// [`left_after`], computed.
fn plan_left(body: BodyLength, early: &[u8]) -> (r: Left)
    ensures
        r == left_after(body, early@),
{
    match body {
        BodyLength::Empty => Left::Nothing,
        BodyLength::Fixed(n) => {
            let got: u64 = early.len() as u64;
            if n <= got {
                Left::Nothing
            } else {
                Left::Exact(n - got)
            }
        },
        BodyLength::Chunked => {
            let mut scan = ChunkedScan::new();
            scan.consume(early);
            if scan.is_complete() {
                Left::Nothing
            } else {
                Left::Chunks(scan)
            }
        },
        BodyLength::UntilClose => Left::UntilClose,
    }
}

/// [`left_less`], computed.
fn shrink_left(left: Left, piece: &[u8]) -> (r: Left)
    ensures
        r == left_less(left, piece@),
{
    match left {
        Left::Nothing => Left::Nothing,
        Left::Exact(n) => {
            let got: u64 = piece.len() as u64;
            if n <= got {
                Left::Nothing
            } else {
                Left::Exact(n - got)
            }
        },
        Left::Chunks(before) => {
            let mut scan = before;
            scan.consume(piece);
            if scan.is_complete() {
                Left::Nothing
            } else {
                Left::Chunks(scan)
            }
        },
        Left::UntilClose => Left::UntilClose,
    }
}

/// Relaying a body in pieces leaves what relaying it at once would: wherever the
/// reads fall, a body ends in the same place.
pub proof fn lemma_pieces_do_not_matter(body: BodyLength, early: Seq<u8>, piece: Seq<u8>)
    requires
        body matches BodyLength::Fixed(n) ==> early.len() + piece.len() <= n,
    ensures
        left_less(left_after(body, early), piece) == left_after(body, early + piece),
{
    crate::proxy_native::chunked::lemma_scan_split(fresh(), early, piece);
    if finished(scanned(fresh(), early)) {
        crate::proxy_native::chunked::lemma_finished_stays(scanned(fresh(), early), piece);
    }
}

/// How much to read next of what is left, into a buffer of `len` bytes.
pub open spec fn want(left: Left, len: int) -> int {
    match left {
        Left::Exact(n) => if n < len {
            n as int
        } else {
            len
        },
        _ => len,
    }
}

fn want_of(left: Left, len: usize) -> (r: usize)
    ensures
        r == want(left, len as int),
{
    match left {
        Left::Exact(n) => if n < len as u64 {
            n as usize
        } else {
            len
        },
        _ => len,
    }
}

/// A client connection's progress.
#[derive(Debug)]
pub struct Session {
    phase: Phase,
    peer: String,
    /// Send `X-Forwarded-For` / `X-Forwarded-Proto`.
    forwarded: bool,
    /// Bytes in the client buffer.
    filled: usize,
    /// Requests read so far.
    served: u32,
    /// Bytes in the upstream buffer.
    ufilled: usize,
    /// Head to be written next.
    out: BytesMut,
    upstream_addr: String,
    method: String,
    head_len: usize,
    /// Body bytes that came with the head.
    early: usize,
    body: BodyLength,
    left: Left,
    keep_alive: bool,
    reuse_upstream: bool,
    reuse_client: bool,
}

/// What a client connection's progress is.
pub struct Progress {
    pub phase: Phase,
    pub peer: Seq<char>,
    pub forwarded: bool,
    pub filled: nat,
    pub served: nat,
    pub ufilled: nat,
    pub out: Seq<u8>,
    pub upstream_addr: Seq<char>,
    pub method: Seq<char>,
    pub head_len: nat,
    pub early: nat,
    pub body: BodyLength,
    pub left: Left,
    pub keep_alive: bool,
    pub reuse_upstream: bool,
    pub reuse_client: bool,
}

impl View for Session {
    type V = Progress;

    closed spec fn view(&self) -> Progress {
        Progress {
            phase: self.phase,
            peer: self.peer@,
            forwarded: self.forwarded,
            filled: self.filled as nat,
            served: self.served as nat,
            ufilled: self.ufilled as nat,
            out: buffer_bytes(self.out),
            upstream_addr: self.upstream_addr@,
            method: self.method@,
            head_len: self.head_len as nat,
            early: self.early as nat,
            body: self.body,
            left: self.left,
            keep_alive: self.keep_alive,
            reuse_upstream: self.reuse_upstream,
            reuse_client: self.reuse_client,
        }
    }
}

/// Progress, the two buffers and what to do next.
pub struct Turn {
    pub at: Progress,
    pub cbuf: Seq<u8>,
    pub ubuf: Seq<u8>,
    pub act: Act,
}

/// The connection is over.
pub open spec fn over(p: Progress, cbuf: Seq<u8>, ubuf: Seq<u8>, act: Act) -> Turn {
    Turn { at: Progress { phase: Phase::Done, ..p }, cbuf, ubuf, act }
}

/// Read more from the client, behind what is there.
pub open spec fn read_more(p: Progress, cbuf: Seq<u8>, ubuf: Seq<u8>) -> Turn {
    let room = grown(cbuf, p.filled as int);
    Turn {
        at: p,
        cbuf: room,
        ubuf,
        act: Act::ReadClient { from: p.filled as usize, to: room.len() as usize },
    }
}

/// A request head has been read: route it and prepare the head that goes upstream,
/// or refuse it.
pub open spec fn routed(
    p: Progress,
    cbuf: Seq<u8>,
    ubuf: Seq<u8>,
    info: RequestInfo,
    route: Option<Action>,
    ticket: int,
) -> Turn {
    let q = Progress { served: p.served + 1, ..p };
    match route {
        None => over(q, cbuf, ubuf, Act::Refuse(Refusal::NotFound)),
        Some(action) => {
            let address = turn(action, ticket).address;
            Turn {
                at: Progress {
                    phase: Phase::Acquire,
                    out: forward_head(
                        cbuf.take(p.filled as int).take(info.head_len),
                        info.method,
                        forward_target_of(action.filters, info.target),
                        address,
                        if p.forwarded {
                            Some(p.peer)
                        } else {
                            None
                        },
                    ),
                    upstream_addr: address,
                    method: info.method,
                    head_len: info.head_len as nat,
                    body: info.body,
                    keep_alive: !info.close_requested && q.served < MAX_REQUESTS_PER_CONNECTION,
                    ..q
                },
                cbuf,
                ubuf,
                act: Act::Acquire,
            }
        },
    }
}

/// Look at what has been read of a request head. Protocol sniffing comes before
/// HTTP/1 parsing: the h2 preface parses as a bogus HTTP/1 request line otherwise.
pub open spec fn looked(
    p: Progress,
    cbuf: Seq<u8>,
    ubuf: Seq<u8>,
    table: Table,
    ticket: int,
) -> Turn {
    let b = cbuf.take(p.filled as int);
    if p.filled == 0 {
        read_more(p, cbuf, ubuf)
    } else if p.served == 0 && is_h2(b) == Some(true) {
        over(p, cbuf, ubuf, Act::UpgradeH2)
    } else if p.served == 0 && is_h2(b) is None {
        read_more(p, cbuf, ubuf)
    } else {
        match request_read(b, MAX_HEADERS as nat) {
            RequestRead::Invalid => over(p, cbuf, ubuf, Act::Refuse(Refusal::BadRequest)),
            RequestRead::Partial => if p.filled >= MAX_HEAD_SIZE {
                over(p, cbuf, ubuf, Act::Refuse(Refusal::HeadTooLarge))
            } else {
                read_more(p, cbuf, ubuf)
            },
            RequestRead::Complete(fields) => match request_info(b, fields) {
                None => over(p, cbuf, ubuf, Act::Refuse(Refusal::BadRequest)),
                Some(info) => routed(
                    p,
                    cbuf,
                    ubuf,
                    info,
                    table_route(table, info.host, target_path(info.target), false),
                    ticket,
                ),
            },
        }
    }
}

/// Whether a ticket was drawn from the group of the route that a request takes whose head
/// is there, where it is and there is one.
pub open spec fn head_draws(
    p: Progress,
    cbuf: Seq<u8>,
    groups: TableOf<TargetGroup>,
    ticket: usize,
) -> bool {
    let b = cbuf.take(p.filled as int);
    p.filled > 0 && (p.served > 0 || is_h2(b) == Some(false)) ==> (request_read(
        b,
        MAX_HEADERS as nat,
    ) matches RequestRead::Complete(fields) ==> (request_info(b, fields) matches Some(info)
        ==> drawn_from(table_route(groups, info.host, target_path(info.target), false), ticket)))
}

/// [`head_draws`], after `n` bytes were read from the client.
pub open spec fn read_draws(
    p: Progress,
    n: nat,
    cbuf: Seq<u8>,
    groups: TableOf<TargetGroup>,
    ticket: usize,
) -> bool {
    p.phase is Head && n > 0 ==> head_draws(
        Progress { filled: p.filled + n, ..p },
        cbuf,
        groups,
        ticket,
    )
}

/// The client buffer with what belongs to the next request moved to its front.
pub open spec fn compacted(cbuf: Seq<u8>, from: int, filled: int) -> Seq<u8> {
    cbuf.subrange(from, filled) + cbuf.skip(filled - from)
}

/// The request is away: read the response into a fresh buffer. What is still
/// buffered of the client belongs to its next request.
pub open spec fn awaiting(p: Progress, cbuf: Seq<u8>) -> Turn {
    let start = p.head_len + p.early;
    let room = grown(Seq::empty(), 0);
    Turn {
        at: Progress {
            phase: Phase::ResponseHead,
            filled: (p.filled - start) as nat,
            ufilled: 0,
            ..p
        },
        cbuf: compacted(cbuf, start as int, p.filled as int),
        ubuf: room,
        act: Act::ReadUpstream { from: 0, to: room.len() as usize },
    }
}

/// Relay more of the request body, or go on to the response.
pub open spec fn pump_request(p: Progress, cbuf: Seq<u8>, ubuf: Seq<u8>) -> Turn {
    if p.left is Nothing {
        awaiting(p, cbuf)
    } else {
        let room = extended(cbuf, IO_BUF_SIZE as int);
        Turn {
            at: Progress { phase: Phase::RequestBody, ..p },
            cbuf: room,
            ubuf,
            act: Act::ReadClient { from: 0, to: want(p.left, room.len() as int) as usize },
        }
    }
}

/// The exchange is over. A connection kept alive on one side can still be closed
/// on the other; the two dispositions are independent.
pub open spec fn finished_turn(p: Progress, cbuf: Seq<u8>, ubuf: Seq<u8>) -> Turn {
    let close = !p.keep_alive || !p.reuse_client;
    Turn {
        at: Progress {
            phase: if close {
                Phase::Done
            } else {
                Phase::Head
            },
            ..p
        },
        cbuf,
        ubuf,
        act: Act::Finish { park: p.reuse_upstream, close },
    }
}

/// Relay more of the response body, or finish.
pub open spec fn pump_response(p: Progress, cbuf: Seq<u8>, ubuf: Seq<u8>) -> Turn {
    if p.left is Nothing {
        finished_turn(p, cbuf, ubuf)
    } else {
        let room = extended(ubuf, IO_BUF_SIZE as int);
        Turn {
            at: Progress { phase: Phase::ResponseBody, ..p },
            cbuf,
            ubuf: room,
            act: Act::ReadUpstream { from: 0, to: want(p.left, room.len() as int) as usize },
        }
    }
}

/// After `n` bytes were read from the client.
pub open spec fn client_got(
    p: Progress,
    n: nat,
    cbuf: Seq<u8>,
    ubuf: Seq<u8>,
    table: Table,
    ticket: int,
) -> Turn {
    if p.phase is Head {
        if n == 0 {
            // Clean close between requests is normal; mid-head is not.
            over(p, cbuf, ubuf, Act::Close)
        } else {
            looked(Progress { filled: p.filled + n, ..p }, cbuf, ubuf, table, ticket)
        }
    } else if n == 0 {
        if p.left is Exact {
            over(p, cbuf, ubuf, Act::Fail)
        } else {
            awaiting(p, cbuf)
        }
    } else {
        Turn {
            at: Progress {
                phase: Phase::RequestWrite,
                left: left_less(p.left, cbuf.take(n as int)),
                ..p
            },
            cbuf,
            ubuf,
            act: Act::WriteUpstream { from: 0, to: n as usize },
        }
    }
}

/// A response head has been read.
pub open spec fn answered(p: Progress, cbuf: Seq<u8>, ubuf: Seq<u8>, head: ResponseHead) -> Turn {
    let framed = !(head.body is UntilClose);
    Turn {
        at: Progress {
            phase: Phase::ReturnHead,
            head_len: head.head_len as nat,
            body: head.body,
            reuse_upstream: !head.close_requested && framed,
            reuse_client: p.keep_alive && framed,
            out: return_head(
                ubuf.take(p.ufilled as int).take(head.head_len as int),
                p.keep_alive && framed,
            ),
            ..p
        },
        cbuf,
        ubuf,
        act: Act::ReturnHead,
    }
}

/// After `n` bytes were read from the upstream.
pub open spec fn upstream_got(p: Progress, n: nat, cbuf: Seq<u8>, ubuf: Seq<u8>) -> Turn {
    if p.phase is ResponseHead {
        if n == 0 {
            over(p, cbuf, ubuf, Act::Close)
        } else {
            let q = Progress { ufilled: p.ufilled + n, ..p };
            match response_read(ubuf.take(q.ufilled as int), MAX_HEADERS as nat) {
                ResponseRead::Invalid => over(q, cbuf, ubuf, Act::Refuse(Refusal::BadGateway)),
                ResponseRead::Partial => {
                    let room = grown(ubuf, q.ufilled as int);
                    Turn {
                        at: q,
                        cbuf,
                        ubuf: room,
                        act: Act::ReadUpstream {
                            from: q.ufilled as usize,
                            to: room.len() as usize,
                        },
                    }
                },
                ResponseRead::Complete(fields) => answered(
                    q,
                    cbuf,
                    ubuf,
                    response_info(fields, p.method),
                ),
            }
        }
    } else if n == 0 {
        if p.left is Exact {
            over(p, cbuf, ubuf, Act::Fail)
        } else {
            finished_turn(p, cbuf, ubuf)
        }
    } else {
        Turn {
            at: Progress {
                phase: Phase::ResponseWrite,
                left: left_less(p.left, ubuf.take(n as int)),
                ..p
            },
            cbuf,
            ubuf,
            act: Act::WriteClient { from: 0, to: n as usize },
        }
    }
}

/// After a write has completed.
pub open spec fn wrote(p: Progress, cbuf: Seq<u8>, ubuf: Seq<u8>) -> Turn {
    match p.phase {
        Phase::SendHead => {
            // A request never runs until the connection closes.
            let body = if p.body is UntilClose {
                BodyLength::Empty
            } else {
                p.body
            };
            let early = body_prefix(body, p.filled - p.head_len);
            let q = Progress {
                early: early as nat,
                left: left_after(
                    body,
                    cbuf.subrange(p.head_len as int, p.head_len + early),
                ),
                ..p
            };
            if early > 0 {
                Turn {
                    at: Progress { phase: Phase::SendEarly, ..q },
                    cbuf,
                    ubuf,
                    act: Act::WriteUpstream {
                        from: p.head_len as usize,
                        to: (p.head_len + early) as usize,
                    },
                }
            } else {
                pump_request(q, cbuf, ubuf)
            }
        },
        Phase::SendEarly => pump_request(p, cbuf, ubuf),
        Phase::RequestWrite => pump_request(p, cbuf, ubuf),
        Phase::ReturnHead => {
            let early = body_prefix(p.body, p.ufilled - p.head_len);
            let q = Progress {
                early: early as nat,
                left: left_after(
                    p.body,
                    ubuf.subrange(p.head_len as int, p.head_len + early),
                ),
                ..p
            };
            if early > 0 {
                Turn {
                    at: Progress { phase: Phase::ReturnEarly, ..q },
                    cbuf,
                    ubuf,
                    act: Act::WriteClient {
                        from: p.head_len as usize,
                        to: (p.head_len + early) as usize,
                    },
                }
            } else {
                pump_response(q, cbuf, ubuf)
            }
        },
        _ => pump_response(p, cbuf, ubuf),
    }
}

/// Whether a connection's counters lie within its buffers.
pub open spec fn fits(p: Progress, clen: nat, ulen: nat) -> bool {
    &&& clen <= isize::MAX
    &&& ulen <= isize::MAX
    &&& p.served <= MAX_REQUESTS_PER_CONNECTION
    &&& p.phase is Head ==> p.filled <= clen && p.served < MAX_REQUESTS_PER_CONNECTION
    &&& (p.phase is Acquire || p.phase is SendHead) ==> p.head_len <= p.filled <= clen
    &&& (p.phase is SendEarly || p.phase is RequestBody || p.phase is RequestWrite) ==> p.head_len
        + p.early <= p.filled <= clen
    &&& (p.phase is ResponseHead || p.phase is ReturnHead || p.phase is ReturnEarly
        || p.phase is ResponseBody || p.phase is ResponseWrite) ==> p.filled <= clen
    &&& !(p.phase is Head) && !(p.phase is Done) && p.keep_alive ==> p.served
        < MAX_REQUESTS_PER_CONNECTION
    &&& p.phase is ResponseHead ==> p.ufilled <= ulen
    &&& p.phase is ReturnHead ==> p.head_len <= p.ufilled <= ulen
}

impl Session {
    /// A new client connection. Its client buffer is empty.
    #[must_use]
    pub fn new(peer: &str, forwarded: bool, out: BytesMut) -> (r: Self)
        ensures
            r@.phase == Phase::Head,
            r@.peer == peer@,
            r@.forwarded == forwarded,
            r@.filled == 0,
            r@.served == 0,
            r@.out == buffer_bytes(out),
            fits(r@, 0, 0),
    {
        Self {
            phase: Phase::Head,
            peer: peer.to_owned(),
            forwarded,
            filled: 0,
            served: 0,
            ufilled: 0,
            out,
            upstream_addr: String::new(),
            method: String::new(),
            head_len: 0,
            early: 0,
            body: BodyLength::Empty,
            left: Left::Nothing,
            keep_alive: true,
            reuse_upstream: false,
            reuse_client: false,
        }
    }

    /// The upstream address of the request at hand.
    #[must_use]
    pub fn upstream_addr(&self) -> (r: &str)
        ensures
            r@ == self@.upstream_addr,
    {
        self.upstream_addr.as_str()
    }

    /// Bytes in the client buffer.
    #[must_use]
    pub fn filled(&self) -> (r: usize)
        ensures
            r == self@.filled,
    {
        self.filled
    }

    /// The head to be written next.
    #[must_use]
    pub fn head(&self) -> (r: &BytesMut)
        ensures
            buffer_bytes(*r) == self@.out,
    {
        &self.out
    }

    fn read_more(&mut self, cbuf: &mut Vec<u8>) -> (act: Act)
        requires
            old(self)@.filled <= old(cbuf)@.len() <= isize::MAX,
        ensures
            forall|ubuf: Seq<u8>| #[trigger]
                read_more(old(self)@, old(cbuf)@, ubuf) == (Turn {
                    at: final(self)@,
                    cbuf: final(cbuf)@,
                    ubuf,
                    act,
                }),
            final(self)@ == old(self)@,
    {
        grow_for_read(cbuf, self.filled);
        Act::ReadClient { from: self.filled, to: cbuf.len() }
    }

    /// The next request may begin; some of it may be in the client buffer already.
    pub fn begin(&mut self, cbuf: &mut Vec<u8>, table: &RouteTable) -> (act: Act)
        requires
            old(self)@.phase is Head,
            fits(old(self)@, old(cbuf)@.len(), 0),
        ensures
            exists|ticket: usize|
                head_draws(old(self)@, old(cbuf)@, table.groups(), ticket) && (Turn {
                    at: final(self)@,
                    cbuf: final(cbuf)@,
                    ubuf: Seq::empty(),
                    act,
                }) == #[trigger] looked(
                    old(self)@,
                    old(cbuf)@,
                    Seq::empty(),
                    table@,
                    ticket as int,
                ),
            final(cbuf)@.len() <= isize::MAX ==> fits(final(self)@, final(cbuf)@.len(), 0),
    {
        self.look(cbuf, table, Ghost(Seq::empty()))
    }

    fn look(
        &mut self,
        cbuf: &mut Vec<u8>,
        table: &RouteTable,
        Ghost(ubuf): Ghost<Seq<u8>>,
    ) -> (act: Act)
        requires
            old(self)@.phase is Head,
            old(self)@.filled <= old(cbuf)@.len() <= isize::MAX,
            old(self)@.served < MAX_REQUESTS_PER_CONNECTION,
        ensures
            exists|ticket: usize|
                head_draws(old(self)@, old(cbuf)@, table.groups(), ticket) && (Turn {
                    at: final(self)@,
                    cbuf: final(cbuf)@,
                    ubuf,
                    act,
                }) == #[trigger] looked(
                    old(self)@,
                    old(cbuf)@,
                    ubuf,
                    table@,
                    ticket as int,
                ),
            ubuf.len() <= isize::MAX && final(cbuf)@.len() <= isize::MAX ==> fits(
                final(self)@,
                final(cbuf)@.len(),
                ubuf.len(),
            ),
    {
        let ghost p = self@;
        let ghost c = cbuf@;
        let ghost b = c.take(p.filled as int);
        let ghost mut ticket: usize = 0;
        let act: Act = if self.filled == 0 {
            self.read_more(cbuf)
        } else {
            let bytes = slice_subrange(cbuf.as_slice(), 0, self.filled);
            assert(bytes@ =~= b);
            // Protocol sniffing must happen before HTTP/1 parsing.
            let sniffed: Option<bool> = if self.served == 0 {
                detect_h2(bytes)
            } else {
                Some(false)
            };
            match sniffed {
                Some(true) => {
                    self.phase = Phase::Done;
                    Act::UpgradeH2
                },
                // Undecidable: keep reading rather than guessing.
                None => self.read_more(cbuf),
                Some(false) => match parse_request(bytes) {
                    Parsed::Complete(head) => {
                        let action = match &head.host {
                            Some(host) => table.lookup(
                                Some(host.as_str()),
                                path_of(head.target.as_str()),
                            ),
                            None => table.lookup(None, path_of(head.target.as_str())),
                        };
                        let act = self.route(bytes, &head, action);
                        proof {
                            ticket = choose|ticket: usize|
                                drawn_from(group_in(action), ticket) && #[trigger] routed_to(
                                    p,
                                    b,
                                    head@,
                                    optional_action(action),
                                    ticket as int,
                                    self@,
                                    act,
                                );
                            assert(b.take(p.filled as int) =~= b);
                        }
                        act
                    },
                    Parsed::Invalid(_) => {
                        self.phase = Phase::Done;
                        Act::Refuse(Refusal::BadRequest)
                    },
                    Parsed::Partial => if self.filled >= MAX_HEAD_SIZE {
                        self.phase = Phase::Done;
                        Act::Refuse(Refusal::HeadTooLarge)
                    } else {
                        self.read_more(cbuf)
                    },
                },
            }
        };
        proof {
            let _ = read_more(p, c, ubuf);
            assert(head_draws(p, c, table.groups(), ticket));
            assert((Turn { at: self@, cbuf: cbuf@, ubuf, act }) == looked(
                p,
                c,
                ubuf,
                table@,
                ticket as int,
            ));
        }
        act
    }

    /// A request head has been read from `bytes` and its route looked up.
    pub fn route(
        &mut self,
        bytes: &[u8],
        head: &RequestHead,
        action: Option<&RouteAction>,
    ) -> (act: Act)
        requires
            old(self)@.served < MAX_REQUESTS_PER_CONNECTION,
            old(self)@.filled == bytes@.len(),
            head.head_len <= bytes@.len(),
        ensures
            exists|ticket: usize|
                drawn_from(group_in(action), ticket) && #[trigger] routed_to(
                    old(self)@,
                    bytes@,
                    head@,
                    optional_action(action),
                    ticket as int,
                    final(self)@,
                    act,
                ),
    {
        let ghost p = self@;
        self.served = self.served + 1;
        let action = match action {
            Some(action) => action,
            None => {
                self.phase = Phase::Done;
                assert(drawn_from(group_in(None), 0usize));
                assert(routed_to(
                    p,
                    bytes@,
                    head@,
                    None,
                    0usize as int,
                    self@,
                    Act::Refuse(Refusal::NotFound),
                ));
                return Act::Refuse(Refusal::NotFound);
            },
        };
        let target = action.target_group.select();
        let ghost ticket = choose|ticket: usize|
            action.target_group.drew(ticket) && target@
                == #[trigger] action.target_group.turn_of(ticket as int);
        assert(turn(action@, ticket as int) == target@);
        let goal = forward_target(&action.filters, head.target.as_str());
        let peer: Option<&str> = if self.forwarded {
            Some(self.peer.as_str())
        } else {
            None
        };
        write_forward_head(
            &mut self.out,
            bytes,
            head,
            goal.as_str(),
            target.address(),
            peer,
        );
        self.phase = Phase::Acquire;
        self.upstream_addr = target.address().to_owned();
        self.method = head.method.clone();
        self.head_len = head.head_len;
        self.body = head.body;
        self.keep_alive = !head.close_requested && self.served < MAX_REQUESTS_PER_CONNECTION;
        assert(bytes@.take(p.filled as int) =~= bytes@);
        assert(routed_to(p, bytes@, head@, Some(action@), ticket as int, self@, Act::Acquire));
        Act::Acquire
    }

    /// The upstream connection has been got, or could not be.
    pub fn on_acquired(&mut self, ok: bool) -> (act: Act)
        requires
            old(self)@.phase is Acquire,
        ensures
            ok ==> act == Act::SendHead && final(self)@ == (Progress {
                phase: Phase::SendHead,
                ..old(self)@
            }),
            !ok ==> act == Act::Refuse(Refusal::BadGateway) && final(self)@ == (Progress {
                phase: Phase::Done,
                ..old(self)@
            }),
    {
        if ok {
            self.phase = Phase::SendHead;
            Act::SendHead
        } else {
            self.phase = Phase::Done;
            Act::Refuse(Refusal::BadGateway)
        }
    }

    /// `n` bytes have been read from the client.
    pub fn on_client_read(
        &mut self,
        n: usize,
        cbuf: &mut Vec<u8>,
        ubuf: &mut Vec<u8>,
        table: &RouteTable,
    ) -> (act: Act)
        requires
            old(self)@.phase is Head || old(self)@.phase is RequestBody,
            fits(old(self)@, old(cbuf)@.len(), old(ubuf)@.len()),
            n <= old(cbuf)@.len(),
            old(self)@.phase is Head ==> old(self)@.filled + n <= old(cbuf)@.len(),
        ensures
            exists|ticket: usize|
                read_draws(old(self)@, n as nat, old(cbuf)@, table.groups(), ticket) && (Turn {
                    at: final(self)@,
                    cbuf: final(cbuf)@,
                    ubuf: final(ubuf)@,
                    act,
                }) == #[trigger] client_got(
                    old(self)@,
                    n as nat,
                    old(cbuf)@,
                    old(ubuf)@,
                    table@,
                    ticket as int,
                ),
            final(cbuf)@.len() <= isize::MAX ==> fits(
                final(self)@,
                final(cbuf)@.len(),
                final(ubuf)@.len(),
            ),
    {
        let ghost p = self@;
        let ghost c = cbuf@;
        let ghost u = ubuf@;
        if self.phase == Phase::Head {
            let act = self.head_read(n, cbuf, table, Ghost(u));
            proof {
                let ticket = choose|ticket: usize|
                    read_draws(p, n as nat, c, table.groups(), ticket) && (Turn {
                        at: self@,
                        cbuf: cbuf@,
                        ubuf: u,
                        act,
                    }) == #[trigger] client_got(
                        p,
                        n as nat,
                        c,
                        u,
                        table@,
                        ticket as int,
                    );
                assert((Turn { at: self@, cbuf: cbuf@, ubuf: ubuf@, act }) == client_got(
                    p,
                    n as nat,
                    c,
                    u,
                    table@,
                    ticket as int,
                ));
            }
            act
        } else {
            let act = self.body_read(n, cbuf, ubuf);
            proof {
                assert(read_draws(p, n as nat, c, table.groups(), 0usize));
                let t = client_got(p, n as nat, c, u, table@, 0usize as int);
                assert((Turn { at: self@, cbuf: cbuf@, ubuf: ubuf@, act }) == t);
            }
            act
        }
    }

    fn head_read(
        &mut self,
        n: usize,
        cbuf: &mut Vec<u8>,
        table: &RouteTable,
        Ghost(u): Ghost<Seq<u8>>,
    ) -> (act: Act)
        requires
            old(self)@.phase is Head,
            fits(old(self)@, old(cbuf)@.len(), u.len()),
            old(self)@.filled + n <= old(cbuf)@.len(),
        ensures
            exists|ticket: usize|
                read_draws(old(self)@, n as nat, old(cbuf)@, table.groups(), ticket) && (Turn {
                    at: final(self)@,
                    cbuf: final(cbuf)@,
                    ubuf: u,
                    act,
                }) == #[trigger] client_got(
                    old(self)@,
                    n as nat,
                    old(cbuf)@,
                    u,
                    table@,
                    ticket as int,
                ),
            final(cbuf)@.len() <= isize::MAX ==> fits(final(self)@, final(cbuf)@.len(), u.len()),
    {
        let ghost p = self@;
        let ghost c = cbuf@;
        if n == 0 {
            self.phase = Phase::Done;
            assert(read_draws(p, n as nat, c, table.groups(), 0usize));
            assert((Turn { at: self@, cbuf: cbuf@, ubuf: u, act: Act::Close }) == client_got(
                p,
                n as nat,
                c,
                u,
                table@,
                0usize as int,
            ));
            return Act::Close;
        }
        self.filled = self.filled + n;
        let ghost q = self@;
        assert(q == (Progress { filled: p.filled + n as nat, ..p }));
        let act = self.look(cbuf, table, Ghost(u));
        proof {
            let ticket = choose|ticket: usize|
                head_draws(q, c, table.groups(), ticket) && (Turn {
                    at: self@,
                    cbuf: cbuf@,
                    ubuf: u,
                    act,
                }) == #[trigger] looked(
                    q,
                    c,
                    u,
                    table@,
                    ticket as int,
                );
            assert(read_draws(p, n as nat, c, table.groups(), ticket));
            assert((Turn { at: self@, cbuf: cbuf@, ubuf: u, act }) == client_got(
                p,
                n as nat,
                c,
                u,
                table@,
                ticket as int,
            ));
        }
        act
    }

    fn body_read(&mut self, n: usize, cbuf: &mut Vec<u8>, ubuf: &mut Vec<u8>) -> (act: Act)
        requires
            old(self)@.phase is RequestBody,
            fits(old(self)@, old(cbuf)@.len(), old(ubuf)@.len()),
            n <= old(cbuf)@.len(),
        ensures
            forall|table: Table, ticket: int|
                (Turn { at: final(self)@, cbuf: final(cbuf)@, ubuf: final(ubuf)@, act })
                    == #[trigger] client_got(
                    old(self)@,
                    n as nat,
                    old(cbuf)@,
                    old(ubuf)@,
                    table,
                    ticket,
                ),
            final(cbuf)@.len() <= isize::MAX ==> fits(
                final(self)@,
                final(cbuf)@.len(),
                final(ubuf)@.len(),
            ),
    {
        if n == 0 {
            let exact: bool = matches!(self.left, Left::Exact(_));
            if exact {
                self.phase = Phase::Done;
                Act::Fail
            } else {
                self.await_response(cbuf, ubuf)
            }
        } else {
            let piece = slice_subrange(cbuf.as_slice(), 0, n);
            assert(piece@ =~= cbuf@.take(n as int));
            self.left = shrink_left(self.left, piece);
            self.phase = Phase::RequestWrite;
            Act::WriteUpstream { from: 0, to: n }
        }
    }

    /// The request is away: read the response.
    fn await_response(&mut self, cbuf: &mut Vec<u8>, ubuf: &mut Vec<u8>) -> (act: Act)
        requires
            old(self)@.head_len + old(self)@.early <= old(self)@.filled <= old(cbuf)@.len(),
            old(cbuf)@.len() <= isize::MAX,
        ensures
            (Turn { at: final(self)@, cbuf: final(cbuf)@, ubuf: final(ubuf)@, act }) == awaiting(
                old(self)@,
                old(cbuf)@,
            ),
            final(self)@.filled <= final(cbuf)@.len() == old(cbuf)@.len(),
            final(ubuf)@.len() <= isize::MAX,
    {
        let start: usize = self.head_len + self.early;
        let filled: usize = self.filled;
        let rest: usize = filled - start;
        let ghost c = cbuf@;
        let mut i: usize = 0;
        while i < rest
            invariant
                i <= rest,
                rest + start == filled,
                filled <= cbuf@.len() == c.len(),
                forall|k: int| 0 <= k < i ==> cbuf@[k] == c[start + k],
                forall|k: int| i <= k < c.len() ==> cbuf@[k] == c[k],
            decreases rest - i,
        {
            let b: u8 = cbuf[start + i];
            cbuf.set(i, b);
            i = i + 1;
        }
        assert(cbuf@ =~= compacted(c, start as int, filled as int));
        self.filled = rest;
        ubuf.clear();
        grow_for_read(ubuf, 0);
        self.ufilled = 0;
        self.phase = Phase::ResponseHead;
        Act::ReadUpstream { from: 0, to: ubuf.len() }
    }

    fn pump_request(&mut self, cbuf: &mut Vec<u8>, ubuf: &mut Vec<u8>) -> (act: Act)
        requires
            old(self)@.head_len + old(self)@.early <= old(self)@.filled <= old(cbuf)@.len(),
            old(cbuf)@.len() <= isize::MAX,
        ensures
            (Turn { at: final(self)@, cbuf: final(cbuf)@, ubuf: final(ubuf)@, act })
                == pump_request(old(self)@, old(cbuf)@, old(ubuf)@),
            final(self)@.filled <= final(cbuf)@.len(),
            final(ubuf)@.len() <= isize::MAX || final(ubuf)@ == old(ubuf)@,
    {
        if self.left == Left::Nothing {
            return self.await_response(cbuf, ubuf);
        }
        extend_to(cbuf, IO_BUF_SIZE);
        self.phase = Phase::RequestBody;
        Act::ReadClient { from: 0, to: want_of(self.left, cbuf.len()) }
    }

    fn finish(&mut self) -> (act: Act)
        ensures
            forall|cbuf: Seq<u8>, ubuf: Seq<u8>| #[trigger]
                finished_turn(old(self)@, cbuf, ubuf) == (Turn {
                    at: final(self)@,
                    cbuf,
                    ubuf,
                    act,
                }),
    {
        let close: bool = !self.keep_alive || !self.reuse_client;
        self.phase = if close {
            Phase::Done
        } else {
            Phase::Head
        };
        Act::Finish { park: self.reuse_upstream, close }
    }

    fn pump_response(&mut self, ubuf: &mut Vec<u8>) -> (act: Act)
        ensures
            forall|cbuf: Seq<u8>| #[trigger]
                pump_response(old(self)@, cbuf, old(ubuf)@) == (Turn {
                    at: final(self)@,
                    cbuf,
                    ubuf: final(ubuf)@,
                    act,
                }),
    {
        if self.left == Left::Nothing {
            return self.finish();
        }
        extend_to(ubuf, IO_BUF_SIZE);
        self.phase = Phase::ResponseBody;
        Act::ReadUpstream { from: 0, to: want_of(self.left, ubuf.len()) }
    }

    /// `n` bytes have been read from the upstream.
    pub fn on_upstream_read(&mut self, n: usize, cbuf: &mut Vec<u8>, ubuf: &mut Vec<u8>) -> (act:
        Act)
        requires
            old(self)@.phase is ResponseHead || old(self)@.phase is ResponseBody,
            fits(old(self)@, old(cbuf)@.len(), old(ubuf)@.len()),
            n <= old(ubuf)@.len(),
            old(self)@.phase is ResponseHead ==> old(self)@.ufilled + n <= old(ubuf)@.len(),
        ensures
            (Turn { at: final(self)@, cbuf: final(cbuf)@, ubuf: final(ubuf)@, act })
                == upstream_got(old(self)@, n as nat, old(cbuf)@, old(ubuf)@),
            final(ubuf)@.len() <= isize::MAX ==> fits(
                final(self)@,
                final(cbuf)@.len(),
                final(ubuf)@.len(),
            ),
    {
        if self.phase == Phase::ResponseHead {
            if n == 0 {
                self.phase = Phase::Done;
                return Act::Close;
            }
            self.ufilled = self.ufilled + n;
            let bytes = slice_subrange(ubuf.as_slice(), 0, self.ufilled);
            assert(bytes@ =~= ubuf@.take(self.ufilled as int));
            match parse_response(bytes, self.method.as_str()) {
                Parsed::Complete(head) => {
                    let framed: bool = head.body != BodyLength::UntilClose;
                    let keep: bool = self.keep_alive && framed;
                    write_return_head(&mut self.out, bytes, &head, keep);
                    self.phase = Phase::ReturnHead;
                    self.head_len = head.head_len;
                    self.body = head.body;
                    self.reuse_upstream = !head.close_requested && framed;
                    self.reuse_client = keep;
                    Act::ReturnHead
                },
                Parsed::Invalid(_) => {
                    self.phase = Phase::Done;
                    Act::Refuse(Refusal::BadGateway)
                },
                Parsed::Partial => {
                    grow_for_read(ubuf, self.ufilled);
                    Act::ReadUpstream { from: self.ufilled, to: ubuf.len() }
                },
            }
        } else if n == 0 {
            let exact: bool = matches!(self.left, Left::Exact(_));
            if exact {
                self.phase = Phase::Done;
                Act::Fail
            } else {
                self.finish()
            }
        } else {
            let piece = slice_subrange(ubuf.as_slice(), 0, n);
            assert(piece@ =~= ubuf@.take(n as int));
            self.left = shrink_left(self.left, piece);
            self.phase = Phase::ResponseWrite;
            Act::WriteClient { from: 0, to: n }
        }
    }

    /// A write has completed.
    pub fn on_written(&mut self, cbuf: &mut Vec<u8>, ubuf: &mut Vec<u8>) -> (act: Act)
        requires
            old(self)@.phase is SendHead || old(self)@.phase is SendEarly
                || old(self)@.phase is RequestWrite || old(self)@.phase is ReturnHead
                || old(self)@.phase is ReturnEarly || old(self)@.phase is ResponseWrite,
            fits(old(self)@, old(cbuf)@.len(), old(ubuf)@.len()),
        ensures
            (Turn { at: final(self)@, cbuf: final(cbuf)@, ubuf: final(ubuf)@, act }) == wrote(
                old(self)@,
                old(cbuf)@,
                old(ubuf)@,
            ),
            final(cbuf)@.len() <= isize::MAX && final(ubuf)@.len() <= isize::MAX ==> fits(
                final(self)@,
                final(cbuf)@.len(),
                final(ubuf)@.len(),
            ),
    {
        match self.phase {
            Phase::SendHead => {
                // A request never runs until the connection closes.
                let body: BodyLength = match self.body {
                    BodyLength::UntilClose => BodyLength::Empty,
                    body => body,
                };
                let early: usize = prefix_len(body, self.filled - self.head_len);
                let part = slice_subrange(
                    cbuf.as_slice(),
                    self.head_len,
                    self.head_len + early,
                );
                self.left = plan_left(body, part);
                self.early = early;
                if early > 0 {
                    self.phase = Phase::SendEarly;
                    Act::WriteUpstream { from: self.head_len, to: self.head_len + early }
                } else {
                    self.pump_request(cbuf, ubuf)
                }
            },
            Phase::SendEarly => self.pump_request(cbuf, ubuf),
            Phase::RequestWrite => self.pump_request(cbuf, ubuf),
            Phase::ReturnHead => {
                let early: usize = prefix_len(self.body, self.ufilled - self.head_len);
                let part = slice_subrange(
                    ubuf.as_slice(),
                    self.head_len,
                    self.head_len + early,
                );
                self.left = plan_left(self.body, part);
                self.early = early;
                if early > 0 {
                    self.phase = Phase::ReturnEarly;
                    Act::WriteClient { from: self.head_len, to: self.head_len + early }
                } else {
                    self.pump_response(ubuf)
                }
            },
            _ => self.pump_response(ubuf),
        }
    }
}

/// What a looked-up action does.
pub open spec fn optional_action(action: Option<&RouteAction>) -> Option<Action> {
    match action {
        Some(a) => Some(a@),
        None => None,
    }
}

/// Whether routing a request in `bytes` brought the connection from `p` to `q`,
/// asking for `act`.
pub open spec fn routed_to(
    p: Progress,
    bytes: Seq<u8>,
    info: RequestInfo,
    route: Option<Action>,
    ticket: int,
    q: Progress,
    act: Act,
) -> bool {
    let t = routed(p, bytes, Seq::empty(), info, route, ticket);
    q == t.at && act == t.act
}

/// Nothing that the client sends is lost or sent twice: what goes upstream behind
/// the head and what is kept for the next request are together all that was
/// buffered behind the head.
pub proof fn lemma_client_bytes_are_kept(p: Progress, cbuf: Seq<u8>)
    requires
        p.head_len + p.early <= p.filled <= cbuf.len(),
    ensures
        ({
            let next = awaiting(p, cbuf);
            cbuf.subrange(p.head_len as int, (p.head_len + p.early) as int) + next.cbuf.take(
                next.at.filled as int,
            ) == cbuf.subrange(p.head_len as int, p.filled as int)
        }),
{
    let start = (p.head_len + p.early) as int;
    let next = awaiting(p, cbuf);
    assert(next.cbuf.take(next.at.filled as int) =~= cbuf.subrange(start, p.filled as int));
    assert(cbuf.subrange(p.head_len as int, start) + cbuf.subrange(start, p.filled as int)
        =~= cbuf.subrange(p.head_len as int, p.filled as int));
}

/// A body of a fixed length is relayed to the byte: what came with the head and
/// what is then asked for add up to it.
pub proof fn lemma_fixed_body_is_relayed_to_the_byte(n: u64, available: Seq<u8>)
    ensures
        ({
            let early = body_prefix(BodyLength::Fixed(n), available.len() as int);
            match left_after(BodyLength::Fixed(n), available.take(early)) {
                Left::Exact(rest) => early + rest == n && early == available.len(),
                Left::Nothing => early == n,
                _ => false,
            }
        }),
{
}

/// The longest wait before a failed controller is restarted, in seconds.
pub const MAX_BACKOFF_SECS: u64 = 30;

/// The wait before a controller that failed after waiting `secs` is restarted
/// again: twice as long, up to the longest.
#[must_use]
pub fn next_backoff(secs: u64) -> (r: u64)
    ensures
        r == (if secs * 2 < MAX_BACKOFF_SECS {
            secs * 2
        } else {
            MAX_BACKOFF_SECS as int
        }),
{
    if secs < MAX_BACKOFF_SECS / 2 {
        secs * 2
    } else {
        MAX_BACKOFF_SECS
    }
}

} // verus!
