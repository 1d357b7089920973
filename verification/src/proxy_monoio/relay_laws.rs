//! What a session relays: bodies of any length, to the byte, however the connection
//! cuts them into pieces.

use vstd::prelude::*;

use crate::lb_core::route_table::Table;
use crate::proxy_monoio::http1::BodyLength;
use crate::proxy_monoio::server::{
    body_prefix, client_got, extended, left_after, left_less, pump_request,
    pump_response, upstream_got, want, wrote, Act, Left, Phase, Progress, Turn, IO_BUF_SIZE,
};
use crate::proxy_native::chunked::{
    finished, fresh, lemma_finished_stays, lemma_scan_split, scanned,
};

verus! {

/// Pieces, one after another.
pub open spec fn together(pieces: Seq<Seq<u8>>) -> Seq<u8>
    decreases pieces.len(),
{
    if pieces.len() == 0 {
        Seq::empty()
    } else {
        pieces[0] + together(pieces.skip(1))
    }
}

/// What was passed on, and where the session then stands.
pub struct Relayed {
    pub sent: Seq<u8>,
    pub end: Turn,
}

/// A buffer whose front a read has filled.
pub open spec fn filled_with(buf: Seq<u8>, piece: Seq<u8>) -> Seq<u8> {
    piece + buf.skip(piece.len() as int)
}

/// Whether these bytes are all of a body.
pub open spec fn body_is_over(body: BodyLength, sent: Seq<u8>) -> bool {
    match body {
        BodyLength::Empty => true,
        BodyLength::Fixed(n) => sent.len() == n,
        BodyLength::Chunked => finished(scanned(fresh(), sent)),
        BodyLength::UntilClose => false,
    }
}

proof fn lemma_over_with_its_head(body: BodyLength, available: int, early: Seq<u8>)
    requires
        0 <= available,
        early.len() == body_prefix(body, available),
    ensures
        left_after(body, early) is Nothing <==> body_is_over(body, early),
        !(left_after(body, early) is Nothing) ==> early.len() == available,
{
}

proof fn lemma_what_is_left(body: BodyLength, early: Seq<u8>, more: Seq<u8>)
    requires
        body matches BodyLength::Fixed(n) ==> early.len() + more.len() <= n,
        !(left_after(body, early) is Nothing),
    ensures
        left_less(left_after(body, early), more) is Nothing <==> body_is_over(body, early + more),
{
    if body is Chunked {
        lemma_scan_split(fresh(), early, more);
    }
}

// ---------------------------------------------------------------------------
// Responses
// ---------------------------------------------------------------------------

/// The session after another piece of a response body was read and passed on.
pub open spec fn after_response_piece(t: Turn, piece: Seq<u8>) -> Turn {
    let got = upstream_got(t.at, piece.len(), t.cbuf, filled_with(t.ubuf, piece));
    wrote(got.at, got.cbuf, got.ubuf)
}

/// Whether the upstream answers each read with a piece of what was asked for.
pub open spec fn upstream_answers(t: Turn, pieces: Seq<Seq<u8>>) -> bool
    decreases pieces.len(),
{
    pieces.len() == 0 || {
        &&& t.at.phase is ResponseBody
        &&& t.act matches Act::ReadUpstream { from, to } && from == 0 && 0 < pieces[0].len() <= to
        &&& upstream_answers(after_response_piece(t, pieces[0]), pieces.skip(1))
    }
}

/// What the client is sent while the upstream answers with these pieces.
pub open spec fn response_relayed(t: Turn, pieces: Seq<Seq<u8>>) -> Relayed
    decreases pieces.len(),
{
    if pieces.len() == 0 {
        Relayed { sent: Seq::empty(), end: t }
    } else {
        let got = upstream_got(t.at, pieces[0].len(), t.cbuf, filled_with(t.ubuf, pieces[0]));
        let sent = match got.act {
            Act::WriteClient { from, to } => got.ubuf.subrange(from as int, to as int),
            _ => Seq::empty(),
        };
        let rest = response_relayed(after_response_piece(t, pieces[0]), pieces.skip(1));
        Relayed { sent: sent + rest.sent, end: rest.end }
    }
}

/// Taking two pieces off a body is taking them off together.
proof fn lemma_left_less_twice(left: Left, a: Seq<u8>, b: Seq<u8>)
    requires
        left matches Left::Exact(n) ==> a.len() + b.len() <= n,
    ensures
        left_less(left_less(left, a), b) == left_less(left, a + b),
{
    if let Left::Chunks(scan) = left {
        lemma_scan_split(scan, a, b);
        if finished(scanned(scan, a)) {
            lemma_finished_stays(scanned(scan, a), b);
        }
    }
}

proof fn lemma_together_len(pieces: Seq<Seq<u8>>)
    ensures
        pieces.len() > 0 ==> together(pieces).len() == pieces[0].len() + together(
            pieces.skip(1),
        ).len(),
{
}

/// The pieces of a response body are passed on to the byte and in order: what the
/// client is sent is what the upstream sent, and what is left of the body is what is
/// left after all of it.
pub proof fn lemma_response_pieces_are_relayed(
    p: Progress,
    cbuf: Seq<u8>,
    ubuf: Seq<u8>,
    pieces: Seq<Seq<u8>>,
)
    requires
        ubuf.len() <= isize::MAX,
        upstream_answers(pump_response(p, cbuf, ubuf), pieces),
    ensures
        ({
            let r = response_relayed(pump_response(p, cbuf, ubuf), pieces);
            &&& r.sent == together(pieces)
            &&& pieces.len() > 0 ==> r.end.at.left == left_less(p.left, together(pieces))
            &&& r.end.act is Finish <==> r.end.at.left is Nothing
            &&& p.left matches Left::Exact(n) ==> together(pieces).len() <= n
        }),
    decreases pieces.len(),
{
    let t = pump_response(p, cbuf, ubuf);
    if pieces.len() > 0 {
        reveal_with_fuel(upstream_answers, 2);
        let piece = pieces[0];
        let rest = pieces.skip(1);
        let full = filled_with(t.ubuf, piece);
        let got = upstream_got(t.at, piece.len(), t.cbuf, full);
        assert(!(p.left is Nothing));
        let room = extended(ubuf, IO_BUF_SIZE as int);
        assert(t.ubuf == room);
        assert(want(p.left, room.len() as int) <= room.len());
        assert(piece.len() <= room.len());
        assert(full.take(piece.len() as int) =~= piece);
        assert(full.subrange(0, piece.len() as int) =~= piece);
        assert(got.at.left == left_less(p.left, piece));
        let q = got.at;
        assert(after_response_piece(t, piece) == pump_response(q, got.cbuf, got.ubuf));
        assert(got.ubuf.len() == room.len());
        lemma_response_pieces_are_relayed(q, got.cbuf, got.ubuf, rest);
        lemma_together_len(pieces);
        if rest.len() == 0 {
            assert(together(rest) =~= Seq::<u8>::empty());
            assert(together(pieces) =~= piece);
            let end = pump_response(q, got.cbuf, got.ubuf);
            assert(response_relayed(after_response_piece(t, piece), rest).end == end);
        } else {
            assert(!(q.left is Nothing));
            lemma_left_less_twice(p.left, piece, together(rest));
        }
        assert(response_relayed(t, pieces).sent =~= together(pieces));
    }
}

/// The session once the head of a response has gone to the client, and with it what
/// came of the body.
pub open spec fn after_response_head(p: Progress, cbuf: Seq<u8>, ubuf: Seq<u8>) -> Relayed {
    let first = wrote(p, cbuf, ubuf);
    match first.act {
        Act::WriteClient { from, to } => Relayed {
            sent: first.ubuf.subrange(from as int, to as int),
            end: wrote(first.at, first.cbuf, first.ubuf),
        },
        _ => Relayed { sent: Seq::empty(), end: first },
    }
}

/// A response body is relayed whole. Behind the head the client is sent the bytes that
/// came with the head, as far as they belong to the body, and then every piece that
/// the upstream sends, to the byte. A body of a given length is over when as many bytes
/// were sent, and a chunked one when its framing says so; one that runs until the
/// upstream closes is not over before that.
pub proof fn lemma_response_body_is_relayed_whole(
    p: Progress,
    cbuf: Seq<u8>,
    ubuf: Seq<u8>,
    pieces: Seq<Seq<u8>>,
)
    requires
        p.phase is ReturnHead,
        p.head_len <= p.ufilled <= ubuf.len() <= isize::MAX,
        upstream_answers(after_response_head(p, cbuf, ubuf).end, pieces),
    ensures
        ({
            let head = after_response_head(p, cbuf, ubuf);
            let body = response_relayed(head.end, pieces);
            &&& head.sent == ubuf.subrange(
                p.head_len as int,
                p.head_len + body_prefix(p.body, p.ufilled - p.head_len),
            )
            &&& pieces.len() > 0 ==> head.sent == ubuf.subrange(
                p.head_len as int,
                p.ufilled as int,
            )
            &&& body.sent == together(pieces)
            &&& body.end.act is Finish <==> body_is_over(p.body, head.sent + body.sent)
        }),
{
    let available = p.ufilled - p.head_len;
    let early = body_prefix(p.body, available);
    let lead = ubuf.subrange(p.head_len as int, p.head_len + early);
    let first = wrote(p, cbuf, ubuf);
    let q = Progress { early: early as nat, left: left_after(p.body, lead), ..p };
    let head = after_response_head(p, cbuf, ubuf);
    let moved = if early > 0 {
        Progress { phase: Phase::ReturnEarly, ..q }
    } else {
        q
    };
    if early > 0 {
        assert(first.at == moved);
    } else {
        assert(lead =~= Seq::<u8>::empty());
    }
    assert(head.end == pump_response(moved, cbuf, ubuf));
    assert(head.sent =~= lead);
    lemma_response_pieces_are_relayed(moved, cbuf, ubuf, pieces);
    lemma_over_with_its_head(p.body, available, lead);
    if pieces.len() == 0 {
        assert(lead + together(pieces) =~= lead);
    } else {
        // Something was read, so the body was not over with its head.
        assert(!(q.left is Nothing));
        lemma_what_is_left(p.body, lead, together(pieces));
    }
}

// ---------------------------------------------------------------------------
// Requests
// ---------------------------------------------------------------------------

/// The session after another piece of a request body was read and passed on. Neither
/// the routes nor the turn matter by then.
pub open spec fn after_request_piece(t: Turn, piece: Seq<u8>, table: Table, ticket: int) -> Turn {
    let got = client_got(
        t.at,
        piece.len(),
        filled_with(t.cbuf, piece),
        t.ubuf,
        table,
        ticket,
    );
    wrote(got.at, got.cbuf, got.ubuf)
}

/// Whether the client answers each read with a piece of what was asked for.
pub open spec fn client_answers(
    t: Turn,
    pieces: Seq<Seq<u8>>,
    table: Table,
    ticket: int,
) -> bool
    decreases pieces.len(),
{
    pieces.len() == 0 || {
        &&& t.at.phase is RequestBody
        &&& t.act matches Act::ReadClient { from, to } && from == 0 && 0 < pieces[0].len() <= to
        &&& client_answers(
            after_request_piece(t, pieces[0], table, ticket),
            pieces.skip(1),
            table,
            ticket,
        )
    }
}

/// What the upstream is sent while the client answers with these pieces.
pub open spec fn request_relayed(
    t: Turn,
    pieces: Seq<Seq<u8>>,
    table: Table,
    ticket: int,
) -> Relayed
    decreases pieces.len(),
{
    if pieces.len() == 0 {
        Relayed { sent: Seq::empty(), end: t }
    } else {
        let got = client_got(
            t.at,
            pieces[0].len(),
            filled_with(t.cbuf, pieces[0]),
            t.ubuf,
            table,
            ticket,
        );
        let sent = match got.act {
            Act::WriteUpstream { from, to } => got.cbuf.subrange(from as int, to as int),
            _ => Seq::empty(),
        };
        let rest = request_relayed(
            after_request_piece(t, pieces[0], table, ticket),
            pieces.skip(1),
            table,
            ticket,
        );
        Relayed { sent: sent + rest.sent, end: rest.end }
    }
}

/// The pieces of a request body are passed on to the byte and in order: what the
/// upstream is sent is what the client sent, and what is left of the body is what is
/// left after all of it.
pub proof fn lemma_request_pieces_are_relayed(
    p: Progress,
    cbuf: Seq<u8>,
    ubuf: Seq<u8>,
    pieces: Seq<Seq<u8>>,
    table: Table,
    ticket: int,
)
    requires
        cbuf.len() <= isize::MAX,
        client_answers(pump_request(p, cbuf, ubuf), pieces, table, ticket),
    ensures
        ({
            let r = request_relayed(pump_request(p, cbuf, ubuf), pieces, table, ticket);
            &&& r.sent == together(pieces)
            &&& pieces.len() > 0 ==> r.end.at.left == left_less(p.left, together(pieces))
            &&& r.end.at.phase is ResponseHead <==> r.end.at.left is Nothing
            &&& p.left matches Left::Exact(n) ==> together(pieces).len() <= n
        }),
    decreases pieces.len(),
{
    let t = pump_request(p, cbuf, ubuf);
    if pieces.len() > 0 {
        reveal_with_fuel(client_answers, 2);
        let piece = pieces[0];
        let rest = pieces.skip(1);
        let full = filled_with(t.cbuf, piece);
        let got = client_got(t.at, piece.len(), full, t.ubuf, table, ticket);
        assert(!(p.left is Nothing));
        let room = extended(cbuf, IO_BUF_SIZE as int);
        assert(t.cbuf == room);
        assert(want(p.left, room.len() as int) <= room.len());
        assert(piece.len() <= room.len());
        assert(full.take(piece.len() as int) =~= piece);
        assert(full.subrange(0, piece.len() as int) =~= piece);
        assert(got.at.left == left_less(p.left, piece));
        let q = got.at;
        let next = after_request_piece(t, piece, table, ticket);
        assert(next == pump_request(q, got.cbuf, got.ubuf));
        assert(got.cbuf.len() == room.len());
        lemma_request_pieces_are_relayed(q, got.cbuf, got.ubuf, rest, table, ticket);
        lemma_together_len(pieces);
        if rest.len() == 0 {
            assert(together(rest) =~= Seq::<u8>::empty());
            assert(together(pieces) =~= piece);
            assert(request_relayed(next, rest, table, ticket).end == next);
        } else {
            assert(!(q.left is Nothing));
            lemma_left_less_twice(p.left, piece, together(rest));
        }
        assert(request_relayed(t, pieces, table, ticket).sent =~= together(pieces));
    }
}

/// The session once the head of a request has gone to the upstream, and with it what
/// came of the body.
pub open spec fn after_request_head(p: Progress, cbuf: Seq<u8>, ubuf: Seq<u8>) -> Relayed {
    let first = wrote(p, cbuf, ubuf);
    match first.act {
        Act::WriteUpstream { from, to } => Relayed {
            sent: first.cbuf.subrange(from as int, to as int),
            end: wrote(first.at, first.cbuf, first.ubuf),
        },
        _ => Relayed { sent: Seq::empty(), end: first },
    }
}

/// A request body is relayed whole. Behind the head the upstream is sent the bytes that
/// came with the head, as far as they belong to the body, and then every piece that
/// the client sends, to the byte. The response is awaited once a body of a given length
/// was sent to its last byte, or a chunked one to the end of its framing, and not before.
pub proof fn lemma_request_body_is_relayed_whole(
    p: Progress,
    cbuf: Seq<u8>,
    ubuf: Seq<u8>,
    pieces: Seq<Seq<u8>>,
    table: Table,
    ticket: int,
)
    requires
        p.phase is SendHead,
        !(p.body is UntilClose),
        p.head_len <= p.filled <= cbuf.len() <= isize::MAX,
        client_answers(after_request_head(p, cbuf, ubuf).end, pieces, table, ticket),
    ensures
        ({
            let head = after_request_head(p, cbuf, ubuf);
            let body = request_relayed(head.end, pieces, table, ticket);
            &&& head.sent == cbuf.subrange(
                p.head_len as int,
                p.head_len + body_prefix(p.body, p.filled - p.head_len),
            )
            &&& pieces.len() > 0 ==> head.sent == cbuf.subrange(
                p.head_len as int,
                p.filled as int,
            )
            &&& body.sent == together(pieces)
            &&& body.end.at.phase is ResponseHead <==> body_is_over(
                p.body,
                head.sent + body.sent,
            )
        }),
{
    let available = p.filled - p.head_len;
    let early = body_prefix(p.body, available);
    let lead = cbuf.subrange(p.head_len as int, p.head_len + early);
    let first = wrote(p, cbuf, ubuf);
    let q = Progress { early: early as nat, left: left_after(p.body, lead), ..p };
    let head = after_request_head(p, cbuf, ubuf);
    let moved = if early > 0 {
        Progress { phase: Phase::SendEarly, ..q }
    } else {
        q
    };
    if early > 0 {
        assert(first.at == moved);
    } else {
        assert(lead =~= Seq::<u8>::empty());
    }
    assert(head.end == pump_request(moved, cbuf, ubuf));
    assert(head.sent =~= lead);
    lemma_request_pieces_are_relayed(moved, cbuf, ubuf, pieces, table, ticket);
    lemma_over_with_its_head(p.body, available, lead);
    if pieces.len() == 0 {
        assert(lead + together(pieces) =~= lead);
    } else {
        // Something was read, so the body was not over with its head.
        assert(!(q.left is Nothing));
        lemma_what_is_left(p.body, lead, together(pieces));
    }
}

} // verus!
