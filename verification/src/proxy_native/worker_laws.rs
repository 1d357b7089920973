//! What an event loop owes its connections: every socket and every buffer is
//! accounted for, every completion finds its way back, and what is asked for is
//! what is submitted.

use vstd::prelude::*;

use crate::lb_core::route_table::Table;
use crate::proxy_native::conn::{client_written, upstream_written, ConnView, Failure, Next};
use crate::proxy_native::message::status_bytes;
use crate::proxy_native::ring::{lemma_unpack_undoes_pack, op_code, Op};
use crate::proxy_native::worker::{
    accepted, code_of, conn_event, is_current, lemma_generation_moves_on, settled, slot_of, sound,
    ticket, Submit, WorkerView,
};

verus! {

/// The `user_data` that an operation is submitted with, where it has one.
pub open spec fn mark_of(submit: Submit) -> Option<u64> {
    match submit {
        Submit::ReadFixed { user_data, .. } => Some(user_data),
        Submit::Send { user_data, .. } => Some(user_data),
        Submit::WriteFixed { user_data, .. } => Some(user_data),
        Submit::Connect { user_data, .. } => Some(user_data),
        _ => None,
    }
}

/// Whether a socket is in the hands of a connection.
pub open spec fn holds(c: ConnView, fd: i32) -> bool {
    c.client_fd == fd || c.upstream_fd == fd
}

/// Whether a buffer is in the hands of a connection.
pub open spec fn fills(c: ConnView, b: u16) -> bool {
    c.cbuf == b || c.ubuf == b
}

/// A socket of a connection is closed, or parked, or still the connection's; and no
/// other socket is closed.
pub proof fn lemma_no_socket_is_lost(w: WorkerView, i: int, next: Next, fd: i32)
    requires
        0 <= i < w.conns.len(),
        w.conns[i].in_use,
        w.conns[i].client_fd != w.conns[i].upstream_fd,
        fd >= 0,
    ensures
        ({
            let (after, step) = settled(w, i, next);
            &&& holds(w.conns[i], fd) ==> step.close.contains(fd) || after.idle.contains(fd)
                || holds(after.conns[i], fd)
            &&& step.close.contains(fd) ==> holds(w.conns[i], fd)
            &&& step.close.contains(fd) ==> !holds(after.conns[i], fd)
        }),
{
    let c = w.conns[i];
    let (after, step) = settled(w, i, next);
    if next is Finish {
        let parked = c.upstream_fd >= 0 && c.keep_alive && w.idle.len() < 1024;
        if parked {
            assert(after.idle == w.idle.push(c.upstream_fd));
            assert(after.idle[w.idle.len() as int] == c.upstream_fd);
        }
        if c.client_fd >= 0 && !c.keep_alive {
            let k: int = if parked || c.upstream_fd < 0 {
                0
            } else {
                1
            };
            assert(step.close[k] == c.client_fd);
        }
        if c.upstream_fd >= 0 && !parked {
            assert(step.close[0] == c.upstream_fd);
        }
    } else if next is Close {
        if c.client_fd >= 0 {
            assert(step.close[0] == c.client_fd);
        }
        if c.upstream_fd >= 0 {
            let k: int = if c.client_fd >= 0 {
                1
            } else {
                0
            };
            assert(step.close[k] == c.upstream_fd);
        }
    } else if c.upstream_fd >= 0 && step.close.len() > 0 {
        assert(step.close[0] == c.upstream_fd);
    }
}

/// A buffer of a connection, and one that is free, is the connection's or free
/// afterwards; and the other connections keep theirs, and all else.
pub proof fn lemma_no_buffer_is_lost(w: WorkerView, i: int, next: Next, b: u16)
    requires
        0 <= i < w.conns.len(),
        w.conns[i].in_use,
        b != 0xffff,
        fills(w.conns[i], b) || w.free_bufs.contains(b),
    ensures
        ({
            let after = settled(w, i, next).0;
            &&& fills(after.conns[i], b) || after.free_bufs.contains(b)
            &&& after.conns.len() == w.conns.len()
            &&& forall|j: int| 0 <= j < w.conns.len() && j != i ==> after.conns[j] == w.conns[j]
        }),
{
    let c = w.conns[i];
    let after = settled(w, i, next).0;
    let free = w.free_bufs;
    if free.contains(b) {
        let k = choose|k: int| 0 <= k < free.len() && free[k] == b;
        assert(free.push(c.ubuf)[k] == b);
        assert(free.push(c.cbuf)[k] == b);
        assert(free.push(c.cbuf).push(c.ubuf)[k] == b);
        assert(free.push(c.ubuf).push(c.cbuf)[k] == b);
        if k + 1 < free.len() {
            assert(free.drop_last()[k] == b);
        } else {
            assert(free.last() == b);
        }
    }
    if free.len() > 0 {
        assert(free.drop_last().push(free.last()) =~= free);
    }
    let n = free.len() as int;
    assert(free.push(c.ubuf)[n] == c.ubuf);
    assert(free.push(c.cbuf)[n] == c.cbuf);
    assert(free.push(c.cbuf).push(c.ubuf)[n] == c.cbuf);
    assert(free.push(c.cbuf).push(c.ubuf)[n + 1] == c.ubuf);
    assert(free.push(c.ubuf).push(c.cbuf)[n] == c.ubuf);
    assert(free.push(c.ubuf).push(c.cbuf)[n + 1] == c.cbuf);
}

/// What a connection asks for is what is submitted: a read of the rest of its buffer,
/// a write of the rest of what it has to say, to the side that it is meant for.
pub proof fn lemma_wishes_are_granted(w: WorkerView, i: int)
    requires
        sound(w),
        0 <= i < w.conns.len(),
        w.conns[i].in_use,
        w.conns[i].out.len() <= usize::MAX,
    ensures
        ({
            let c = w.conns[i];
            &&& c.cfilled < w.buf_size ==> (settled(w, i, Next::ReadClient).1.submit
                matches Submit::ReadFixed { fd, buf, offset, len, .. } && fd == c.client_fd
                && buf == c.cbuf && offset == c.cfilled && offset + len == w.buf_size)
            &&& c.ufilled < w.buf_size ==> (settled(w, i, Next::ReadUpstream).1.submit
                matches Submit::ReadFixed { fd, buf, offset, len, .. } && fd == c.upstream_fd
                && buf == c.ubuf && offset == c.ufilled && offset + len == w.buf_size)
            &&& settled(w, i, Next::WriteClient).1.submit matches Submit::Send {
                fd,
                offset,
                len,
                ..
            } && fd == c.client_fd && offset == c.out_sent && offset + len == c.out.len()
            &&& settled(w, i, Next::WriteUpstream).1.submit matches Submit::Send {
                fd,
                offset,
                len,
                ..
            } && fd == c.upstream_fd && offset == c.out_sent && offset + len == c.out.len()
            &&& settled(w, i, Next::WriteBody).1.submit matches Submit::WriteFixed {
                fd,
                buf,
                offset,
                len,
                ..
            } && fd == c.client_fd && buf == c.ubuf && offset == c.ubuf_off && offset + len
                == c.ubuf_len
            &&& settled(w, i, Next::Dial).1.submit == Submit::Resolve
            &&& settled(w, i, Next::Close).1.submit == Submit::Nothing
        }),
{
}

/// A response is awaited in an upstream buffer, from its start: the connection's own, or
/// one that was free. Where there is none the client is told so.
pub proof fn lemma_response_is_awaited_in_a_buffer(w: WorkerView, i: int)
    requires
        sound(w),
        0 <= i < w.conns.len(),
        w.conns[i].in_use,
        w.buf_size > 0,
    ensures
        ({
            let c = w.conns[i];
            let (after, step) = settled(w, i, Next::AwaitResponse);
            if c.ubuf == 0xffff && w.free_bufs.len() == 0 {
                step == settled(w, i, Next::Fail(Failure::Unavailable)).1
            } else {
                &&& step.submit matches Submit::ReadFixed { fd, buf, offset, len, .. } && fd
                    == c.upstream_fd && buf == after.conns[i].ubuf && buf != 0xffff && offset == 0
                    && len == w.buf_size
                &&& c.ubuf != 0xffff ==> after.conns[i].ubuf == c.ubuf
                &&& c.ubuf == 0xffff ==> w.free_bufs.contains(after.conns[i].ubuf)
                    && !after.free_bufs.contains(after.conns[i].ubuf)
                &&& after.conns[i].state is RecvHead
            }
        }),
{
    let free = w.free_bufs;
    if free.len() > 0 {
        assert(free.contains(free.last()));
        let x = free.last();
        if free.drop_last().contains(x) {
            let k = choose|k: int| 0 <= k < free.drop_last().len() && free.drop_last()[k] == x;
            assert(free[k] == free[free.len() - 1]);
        }
    }
}

/// A failure is answered on the client's socket, from the first byte of the answer to
/// the last, and the upstream socket is never used again.
pub proof fn lemma_failure_is_answered(w: WorkerView, i: int, f: Failure)
    requires
        0 <= i < w.conns.len(),
        w.conns[i].in_use,
    ensures
        ({
            let c = w.conns[i];
            let (after, step) = settled(w, i, Next::Fail(f));
            let out = after.conns[i].out;
            &&& out == status_bytes(f.status_of(), f.reason_of())
            &&& out.len() <= usize::MAX ==> (step.submit matches Submit::Send {
                fd,
                offset,
                len,
                ..
            } && fd == c.client_fd && offset == 0 && len == out.len())
            &&& after.conns[i].state is SendClient
            &&& after.conns[i].in_use
            &&& after.conns[i].client_fd == c.client_fd
            &&& after.conns[i].upstream_fd == -1
            &&& after.conns[i].body_remaining == 0 && !after.conns[i].body_until_close
            &&& after.idle == w.idle
            &&& c.upstream_fd >= 0 ==> step.close == seq![c.upstream_fd]
            &&& c.upstream_fd < 0 ==> step.close.len() == 0
        }),
{
}

/// A connection that is given up leaves its slot to the next one, and nothing in it.
pub proof fn lemma_closing_frees_the_slot(w: WorkerView, i: int)
    requires
        sound(w),
        0 <= i < w.conns.len(),
        w.conns[i].in_use,
    ensures
        ({
            let after = settled(w, i, Next::Close).0;
            &&& !after.conns[i].in_use
            &&& after.conns[i].client_fd == -1 && after.conns[i].upstream_fd == -1
            &&& after.conns[i].cbuf == 0xffff && after.conns[i].ubuf == 0xffff
            &&& after.free_conns.last() == i
            &&& after.free_conns.drop_last() == w.free_conns
            &&& after.idle == w.idle
        }),
{
    let after = settled(w, i, Next::Close).0;
    assert(after.free_conns.drop_last() =~= w.free_conns);
}

/// After a response on a connection that lives on, its upstream socket is there for the
/// next request while there is room for 1024, and the client's next request is read from
/// the start of its buffer. A connection that does not live on is given up.
pub proof fn lemma_response_ends(w: WorkerView, i: int)
    requires
        sound(w),
        0 <= i < w.conns.len(),
        w.conns[i].in_use,
        w.buf_size > 0,
    ensures
        ({
            let c = w.conns[i];
            let (after, step) = settled(w, i, Next::Finish);
            &&& c.keep_alive && c.upstream_fd >= 0 && w.idle.len() < 1024 ==> after.idle
                == w.idle.push(c.upstream_fd) && step.close.len() == 0
            &&& c.keep_alive && c.upstream_fd >= 0 && w.idle.len() >= 1024 ==> after.idle == w.idle
                && step.close == seq![c.upstream_fd]
            &&& c.keep_alive ==> {
                &&& step.submit matches Submit::ReadFixed { fd, buf, offset, len, .. } && fd
                    == c.client_fd && buf == c.cbuf && offset == 0 && len == w.buf_size
                &&& after.conns[i].in_use
                &&& after.conns[i].state is ReadHead
                &&& after.conns[i].upstream_fd == -1
            }
            &&& !c.keep_alive ==> {
                &&& !after.conns[i].in_use
                &&& step.submit == Submit::Nothing
                &&& after.idle == w.idle
                &&& c.client_fd >= 0 ==> step.close.contains(c.client_fd)
                &&& c.upstream_fd >= 0 ==> step.close.contains(c.upstream_fd)
            }
        }),
{
    let c = w.conns[i];
    let step = settled(w, i, Next::Finish).1;
    if !c.keep_alive {
        if c.client_fd >= 0 {
            let k: int = if c.upstream_fd < 0 {
                0
            } else {
                1
            };
            assert(step.close[k] == c.client_fd);
        }
        if c.upstream_fd >= 0 {
            assert(step.close[0] == c.upstream_fd);
        }
    }
}

/// A new connection gets a free slot and a free buffer, under a generation that the slot
/// has not just had, and its request is read from the start. Where a slot or a buffer is
/// wanting its socket is closed.
pub proof fn lemma_newcomers_are_served_or_turned_away(w: WorkerView, fd: i32, peer: Seq<char>)
    requires
        sound(w),
        w.buf_size > 0,
    ensures
        ({
            let (after, step) = accepted(w, fd, peer);
            if w.free_conns.len() == 0 || w.free_bufs.len() == 0 {
                &&& step.close == seq![fd]
                &&& step.submit == Submit::Nothing
                &&& after.conns == w.conns
            } else {
                let i = w.free_conns.last() as int;
                let c = after.conns[i];
                &&& step.close.len() == 0
                &&& !w.conns[i].in_use && c.in_use && c.keep_alive
                &&& c.client_fd == fd && c.upstream_fd == -1
                &&& c.peer == peer
                &&& c.generation != w.conns[i].generation
                &&& w.free_bufs.contains(c.cbuf)
                &&& !after.free_bufs.contains(c.cbuf)
                &&& !after.free_conns.contains(i as u32)
                &&& step.submit matches Submit::ReadFixed { fd: socket, buf, offset, len, .. }
                    && socket == fd && buf == c.cbuf && offset == 0 && len == w.buf_size
                &&& forall|j: int| 0 <= j < w.conns.len() && j != i ==> after.conns[j] == w.conns[j]
            }
        }),
{
    let free = w.free_bufs;
    let slots = w.free_conns;
    if slots.len() > 0 && free.len() > 0 {
        assert(slots[slots.len() - 1] < w.conns.len());
        assert(free.contains(free.last()));
        let x = free.last();
        if free.drop_last().contains(x) {
            let k = choose|k: int| 0 <= k < free.drop_last().len() && free.drop_last()[k] == x;
            assert(free[k] == free[free.len() - 1]);
        }
        let s = slots.last();
        if slots.drop_last().contains(s) {
            let k = choose|k: int| 0 <= k < slots.drop_last().len() && slots.drop_last()[k] == s;
            assert(slots[k] == slots[slots.len() - 1]);
        }
        lemma_generation_moves_on(w.conns[s as int].generation);
    }
}

/// What a mark names.
proof fn lemma_mark(op: Op, c: ConnView, i: int)
    requires
        c.generation < 0x100_0000,
        0 <= i <= u32::MAX,
    ensures
        slot_of(ticket(op, c, i)) == i,
        code_of(ticket(op, c, i)) == op_code(op),
        (ticket(op, c, i) as int / 0x1_0000_0000) % 0x100_0000 == c.generation,
{
    lemma_unpack_undoes_pack(op, c.generation, i as u32);
}

/// Whatever is submitted for a connection comes back to it: its mark names the
/// connection's slot and the generation that is in it.
#[verifier::spinoff_prover]
#[verifier::rlimit(40)]
pub proof fn lemma_completions_find_their_way(w: WorkerView, i: int, next: Next)
    requires
        sound(w),
        0 <= i < w.conns.len(),
        w.conns[i].in_use,
    ensures
        ({
            let (after, step) = settled(w, i, next);
            mark_of(step.submit) matches Some(mark) ==> slot_of(mark) == i && is_current(after, mark)
                && 2 <= code_of(mark) <= 6
        }),
{
    let (after, step) = settled(w, i, next);
    let d = after.conns[i];
    assert(w.conns[i].generation < 0x100_0000);
    assert(after.conns.len() == w.conns.len());
    assert(d.generation == w.conns[i].generation);
    lemma_mark(Op::ClientRead, d, i);
    lemma_mark(Op::ClientWrite, d, i);
    lemma_mark(Op::UpstreamWrite, d, i);
    lemma_mark(Op::UpstreamRead, d, i);
    assert(mark_of(step.submit) matches Some(mark) ==> d.in_use && (mark == ticket(
        Op::ClientRead,
        d,
        i,
    ) || mark == ticket(Op::ClientWrite, d, i) || mark == ticket(Op::UpstreamWrite, d, i) || mark
        == ticket(Op::UpstreamRead, d, i)));
}

/// A short write is taken up where it broke off, and a whole one is followed by what the
/// connection still owes: the response to await, or the body behind its head.
pub proof fn lemma_writes_go_on_where_they_broke_off(c: ConnView, res: int)
    requires
        0 < res <= c.out.len() - c.out_sent,
    ensures
        upstream_written(c, res).0.out_sent == c.out_sent + res,
        upstream_written(c, res).0.out == c.out,
        upstream_written(c, res).1 == (if c.out_sent + res == c.out.len() {
            Next::AwaitResponse
        } else {
            Next::WriteUpstream
        }),
        !(c.state is SendBody) ==> {
            let (d, next) = client_written(c, res);
            &&& d.out_sent == c.out_sent + res
            &&& d.out == c.out
            &&& c.out_sent + res < c.out.len() ==> next == Next::WriteClient
            &&& c.out_sent + res == c.out.len() && c.ubuf_len > c.ubuf_off ==> next
                == Next::WriteBody && d.ubuf_off == c.ubuf_off && d.ubuf_len == c.ubuf_len
            &&& c.out_sent + res == c.out.len() && c.ubuf_len <= c.ubuf_off && c.upstream_fd >= 0
                && (c.body_until_close || c.body_remaining > 0) ==> next == Next::ReadUpstream
            &&& c.out_sent + res == c.out.len() && c.ubuf_len <= c.ubuf_off && !c.body_until_close
                && c.body_remaining == 0 ==> next == Next::Finish
        },
{
}

/// A body is written to its end before more of it is read, and read as long as any of it
/// is owed.
pub proof fn lemma_body_is_written_before_more_is_read(c: ConnView, res: int)
    requires
        c.state is SendBody,
        0 < res <= c.ubuf_len - c.ubuf_off,
    ensures
        ({
            let (d, next) = client_written(c, res);
            if c.ubuf_off + res < c.ubuf_len {
                next == Next::WriteBody && d.ubuf_off == c.ubuf_off + res && d.ubuf_len
                    == c.ubuf_len
            } else if c.upstream_fd >= 0 && (c.body_until_close || c.body_remaining > 0) {
                next == Next::ReadUpstream && d.state is StreamBody
            } else {
                next == Next::Finish
            }
        }),
{
}

/// A side that fails is not waited for: a client that is gone ends its connection, and an
/// upstream that is gone is reported, unless its going is what ends the body.
pub proof fn lemma_lost_sides_are_not_waited_for(
    c: ConnView,
    res: int,
    buf: Seq<u8>,
    table: Table,
    draw: int,
)
    requires
        res <= 0,
    ensures
        conn_event(2, c, res, buf, table, draw).1 == Next::Close,
        conn_event(3, c, res, buf, table, draw).1 == Next::Close,
        res < 0 ==> conn_event(4, c, res, buf, table, draw).1 == Next::Fail(Failure::BadGateway),
        conn_event(5, c, res, buf, table, draw).1 == Next::Fail(Failure::BadGateway),
        res < 0 || !(c.state is StreamBody) || !c.body_until_close ==> conn_event(
            6,
            c,
            res,
            buf,
            table,
            draw,
        ).1 == Next::Fail(Failure::BadGateway),
        res == 0 && c.state is StreamBody && c.body_until_close ==> conn_event(
            6,
            c,
            res,
            buf,
            table,
            draw,
        ).1 == Next::Finish,
        res == 0 ==> conn_event(4, c, res, buf, table, draw).1 == Next::WriteUpstream,
{
}

} // verus!
