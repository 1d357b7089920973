//! One event loop's connections and the resources they share.
//!
//! There is no executor, no future, and no waker. A completion identifies its
//! connection by slot index and advances it directly; what comes out is the one
//! operation to submit next and the sockets to close.

use vstd::prelude::*;

use crate::lb_core::route_table::{RouteTable, Table, TableOf};
use crate::lb_core::target::TargetGroup;
use crate::proxy_native::conn::{
    client_read, client_written, conn_ok, next_request, read_draws, upstream_read,
    upstream_written, vacant,
    Conn, ConnView, Failure, Next, State, NO_BUFFER,
};
use crate::proxy_native::message::{status_bytes, status_response};
use crate::proxy_native::ring::{
    distinct, op_code, pack, packed, unpack, BufferPool, Op, PoolError,
};

verus! {

/// Upstream sockets that are kept for reuse.
pub const MAX_IDLE_UPSTREAM: usize = 1024;

/// The operation to submit for a connection.
#[derive(Debug, Clone, Copy, PartialEq, Eq, Structural)]
pub enum Submit {
    /// Nothing.
    Nothing,
    /// Read into a registered buffer, `len` bytes from `offset` on.
    ReadFixed { fd: i32, buf: u16, offset: usize, len: usize, user_data: u64 },
    /// Write `len` bytes of the connection's `out`, from `offset` on.
    Send { fd: i32, offset: usize, len: usize, user_data: u64 },
    /// Write from a registered buffer, `len` bytes from `offset` on.
    WriteFixed { fd: i32, buf: u16, offset: usize, len: usize, user_data: u64 },
    /// Read the connection's upstream address as a socket address, and report.
    Resolve,
    /// Open a socket for the connection's upstream address, and report.
    Open,
    /// Connect the socket to the connection's upstream address.
    Connect { fd: i32, user_data: u64 },
}

/// What to do after an event: close sockets, then submit.
#[derive(Debug)]
pub struct Step {
    /// The connection that `submit` is for.
    pub index: usize,
    pub close: Vec<i32>,
    pub submit: Submit,
}

/// What a step asks for.
pub struct StepView {
    pub close: Seq<i32>,
    pub submit: Submit,
}

impl View for Step {
    type V = StepView;

    open spec fn view(&self) -> StepView {
        StepView { close: self.close@, submit: self.submit }
    }
}

/// What an event loop holds.
pub struct WorkerView {
    pub conns: Seq<ConnView>,
    pub free_conns: Seq<u32>,
    pub free_bufs: Seq<u16>,
    pub buf_size: nat,
    pub idle: Seq<i32>,
    pub requests: nat,
}

/// An event loop's connections, buffers and idle upstream sockets.
#[derive(Debug)]
pub struct Worker {
    pool: BufferPool,
    conns: Vec<Conn>,
    free_conns: Vec<u32>,
    /// Idle upstream sockets, reused across requests on this core alone.
    idle_upstream: Vec<i32>,
    requests: u64,
    accept_armed: bool,
}

/// What the connections of a list hold.
pub open spec fn conn_views(list: Seq<Conn>) -> Seq<ConnView> {
    Seq::new(list.len(), |i: int| list[i]@)
}

impl View for Worker {
    type V = WorkerView;

    closed spec fn view(&self) -> WorkerView {
        WorkerView {
            conns: conn_views(self.conns@),
            free_conns: self.free_conns@,
            free_bufs: self.pool.free(),
            buf_size: self.pool.size(),
            idle: self.idle_upstream@,
            requests: self.requests as nat,
        }
    }
}

/// A worker with another connection in a slot.
pub open spec fn with_conn(w: WorkerView, i: int, c: ConnView) -> WorkerView {
    WorkerView { conns: w.conns.update(i, c), ..w }
}

/// A list of free buffers with `b` given back, if it is one.
pub open spec fn given_back(free: Seq<u16>, b: u16) -> Seq<u16> {
    if b == NO_BUFFER {
        free
    } else {
        free.push(b)
    }
}

/// A descriptor to close, if it is one.
pub open spec fn closing(fd: i32) -> Seq<i32> {
    if fd >= 0 {
        seq![fd]
    } else {
        Seq::empty()
    }
}

/// The `user_data` of an operation on a slot.
pub open spec fn ticket(op: Op, c: ConnView, i: int) -> u64 {
    packed(op, c.generation, i as u32) as u64
}

/// Writing the rest of `out` to the client.
pub open spec fn client_send(c: ConnView, i: int) -> Submit {
    Submit::Send {
        fd: c.client_fd,
        offset: c.out_sent as usize,
        len: (c.out.len() - c.out_sent) as usize,
        user_data: ticket(Op::ClientWrite, c, i),
    }
}

/// Reply with a fixed status: the upstream socket is closed, because a failed
/// exchange must not return a possibly desynchronised socket to the idle pool,
/// and the upstream buffer is given back.
pub open spec fn failed(w: WorkerView, i: int, f: Failure) -> (WorkerView, StepView) {
    let c = w.conns[i];
    let after = ConnView {
        upstream_fd: -1i32 as i32,
        ubuf: NO_BUFFER,
        out: status_bytes(f.status_of(), f.reason_of()),
        out_sent: 0,
        cfilled: 0,
        ufilled: 0,
        ubuf_off: 0,
        ubuf_len: 0,
        chunked: None,
        body_remaining: 0,
        body_until_close: false,
        state: State::SendClient,
        ..c
    };
    (
        WorkerView {
            free_bufs: given_back(w.free_bufs, c.ubuf),
            ..with_conn(w, i, after)
        },
        StepView { close: closing(c.upstream_fd), submit: client_send(after, i) },
    )
}

/// Give a connection up: its sockets are closed, its buffers given back, and its
/// slot is free.
pub open spec fn closed_down(w: WorkerView, i: int) -> (WorkerView, StepView) {
    let c = w.conns[i];
    if !c.in_use {
        (w, StepView { close: Seq::empty(), submit: Submit::Nothing })
    } else {
        (
            WorkerView {
                free_bufs: given_back(given_back(w.free_bufs, c.cbuf), c.ubuf),
                free_conns: w.free_conns.push(i as u32),
                ..with_conn(
                    w,
                    i,
                    ConnView {
                        in_use: false,
                        state: State::Closed,
                        client_fd: -1i32 as i32,
                        upstream_fd: -1i32 as i32,
                        cbuf: NO_BUFFER,
                        ubuf: NO_BUFFER,
                        ..c
                    },
                )
            },
            StepView {
                close: closing(c.client_fd) + closing(c.upstream_fd),
                submit: Submit::Nothing,
            },
        )
    }
}

/// Read more of a request, or refuse it where the buffer is full.
pub open spec fn read_client(w: WorkerView, i: int) -> (WorkerView, StepView) {
    let c = w.conns[i];
    if c.cfilled >= w.buf_size {
        failed(w, i, Failure::HeadTooLarge)
    } else {
        (
            w,
            StepView {
                close: Seq::empty(),
                submit: Submit::ReadFixed {
                    fd: c.client_fd,
                    buf: c.cbuf,
                    offset: c.cfilled as usize,
                    len: (w.buf_size - c.cfilled) as usize,
                    user_data: ticket(Op::ClientRead, c, i),
                },
            },
        )
    }
}

/// Read more of a response, or give it up where the buffer is full.
pub open spec fn read_upstream(w: WorkerView, i: int) -> (WorkerView, StepView) {
    let c = w.conns[i];
    if c.ufilled >= w.buf_size {
        failed(w, i, Failure::BadGateway)
    } else {
        (
            w,
            StepView {
                close: Seq::empty(),
                submit: Submit::ReadFixed {
                    fd: c.upstream_fd,
                    buf: c.ubuf,
                    offset: c.ufilled as usize,
                    len: (w.buf_size - c.ufilled) as usize,
                    user_data: ticket(Op::UpstreamRead, c, i),
                },
            },
        )
    }
}

/// Writing the rest of `out` to the upstream.
pub open spec fn upstream_send(c: ConnView, i: int) -> Submit {
    Submit::Send {
        fd: c.upstream_fd,
        offset: c.out_sent as usize,
        len: (c.out.len() - c.out_sent) as usize,
        user_data: ticket(Op::UpstreamWrite, c, i),
    }
}

/// End a response: the upstream socket is parked for the next request if the
/// connection lives on and there is room, and closed otherwise; the upstream
/// buffer is given back; then the next request is read or the connection ends.
pub open spec fn finished_response(w: WorkerView, i: int) -> (WorkerView, StepView) {
    let c = w.conns[i];
    let parked = c.upstream_fd >= 0 && c.keep_alive && w.idle.len() < MAX_IDLE_UPSTREAM;
    let shut = if parked {
        Seq::<i32>::empty()
    } else {
        closing(c.upstream_fd)
    };
    let w1 = WorkerView {
        idle: if parked {
            w.idle.push(c.upstream_fd)
        } else {
            w.idle
        },
        free_bufs: given_back(w.free_bufs, c.ubuf),
        ..with_conn(w, i, ConnView { upstream_fd: -1i32 as i32, ubuf: NO_BUFFER, ..c })
    };
    let (w2, step) = if !c.keep_alive {
        closed_down(w1, i)
    } else {
        read_client(with_conn(w1, i, next_request(w1.conns[i])), i)
    };
    (w2, StepView { close: shut + step.close, ..step })
}

/// Start reading a response, into a buffer that is taken if need be.
pub open spec fn awaiting_response(w: WorkerView, i: int) -> (WorkerView, StepView) {
    let c = w.conns[i];
    if c.ubuf == NO_BUFFER && w.free_bufs.len() == 0 {
        failed(w, i, Failure::Unavailable)
    } else {
        let w1 = if c.ubuf == NO_BUFFER {
            WorkerView {
                free_bufs: w.free_bufs.drop_last(),
                ..with_conn(w, i, ConnView { ubuf: w.free_bufs.last(), ..c })
            }
        } else {
            w
        };
        read_upstream(
            with_conn(
                w1,
                i,
                ConnView { ufilled: 0, state: State::RecvHead, ..w1.conns[i] },
            ),
            i,
        )
    }
}

/// What becomes of the worker when a connection asks for something.
pub open spec fn settled(w: WorkerView, i: int, next: Next) -> (WorkerView, StepView) {
    let c = w.conns[i];
    let submit = |s: Submit| (w, StepView { close: Seq::empty(), submit: s });
    match next {
        Next::ReadClient => read_client(w, i),
        Next::Dial => submit(Submit::Resolve),
        Next::WriteUpstream => submit(upstream_send(c, i)),
        Next::AwaitResponse => awaiting_response(w, i),
        Next::ReadUpstream => read_upstream(w, i),
        Next::WriteClient => submit(client_send(c, i)),
        Next::WriteBody => submit(
            Submit::WriteFixed {
                fd: c.client_fd,
                buf: c.ubuf,
                offset: c.ubuf_off as usize,
                len: (c.ubuf_len - c.ubuf_off) as usize,
                user_data: ticket(Op::ClientWrite, c, i),
            },
        ),
        Next::Finish => finished_response(w, i),
        Next::Fail(f) => failed(w, i, f),
        Next::Close => closed_down(w, i),
    }
}

/// Nothing changes and nothing is to be done.
pub open spec fn unchanged(w: WorkerView) -> (WorkerView, StepView) {
    (w, StepView { close: Seq::empty(), submit: Submit::Nothing })
}

/// A new connection: it takes a slot and a buffer, and its request is read. Where
/// either has run out the socket is closed, and what was taken stays taken.
pub open spec fn accepted(w: WorkerView, fd: i32, peer: Seq<char>) -> (WorkerView, StepView) {
    let w1 = WorkerView {
        free_conns: if w.free_conns.len() > 0 {
            w.free_conns.drop_last()
        } else {
            w.free_conns
        },
        free_bufs: if w.free_bufs.len() > 0 {
            w.free_bufs.drop_last()
        } else {
            w.free_bufs
        },
        ..w
    };
    if w.free_conns.len() == 0 || w.free_bufs.len() == 0 {
        (w1, StepView { close: seq![fd], submit: Submit::Nothing })
    } else {
        let i = w.free_conns.last() as int;
        let c = w.conns[i];
        let fresh = next_request(
            ConnView {
                generation: next_generation(c.generation),
                client_fd: fd,
                upstream_fd: -1i32 as i32,
                peer,
                cbuf: w.free_bufs.last(),
                ubuf: NO_BUFFER,
                keep_alive: true,
                in_use: true,
                upstream_addr: None,
                ..c
            },
        );
        read_client(with_conn(w1, i, fresh), i)
    }
}

/// The generation of a slot's next occupant.
pub open spec fn next_generation(g: u32) -> u32 {
    ((g + 1) % 0x100_0000) as u32
}

/// Whether no buffer and no slot is in two hands: free ones are not in use, and no
/// two connections, nor the two sides of one, share a buffer.
pub open spec fn sound(w: WorkerView) -> bool {
    &&& distinct(w.free_bufs)
    &&& !w.free_bufs.contains(NO_BUFFER)
    &&& forall|i: int|
        0 <= i < w.conns.len() ==> {
            let c = #[trigger] w.conns[i];
            &&& conn_ok(c, w.buf_size)
            &&& c.generation < 0x100_0000
            &&& !w.free_bufs.contains(c.cbuf)
            &&& !w.free_bufs.contains(c.ubuf)
            &&& c.cbuf == c.ubuf ==> c.cbuf == NO_BUFFER
            &&& !c.in_use ==> c.cbuf == NO_BUFFER && c.ubuf == NO_BUFFER
        }
    &&& forall|i: int, j: int|
        0 <= i < w.conns.len() && 0 <= j < w.conns.len() && i != j ==> apart(
            #[trigger] w.conns[i],
            #[trigger] w.conns[j],
        )
    &&& forall|k: int|
        0 <= k < w.free_conns.len() ==> (#[trigger] w.free_conns[k]) < w.conns.len()
            && !w.conns[w.free_conns[k] as int].in_use
    &&& forall|k: int, m: int|
        0 <= k < m < w.free_conns.len() ==> w.free_conns[k] != w.free_conns[m]
    &&& w.conns.len() <= u32::MAX
    &&& w.buf_size <= usize::MAX
}

/// Whether two connections share no buffer.
pub open spec fn apart(a: ConnView, b: ConnView) -> bool {
    &&& a.cbuf != NO_BUFFER ==> a.cbuf != b.cbuf && a.cbuf != b.ubuf
    &&& a.ubuf != NO_BUFFER ==> a.ubuf != b.cbuf && a.ubuf != b.ubuf
}

/// Whether one connection may stand in a slot instead of another without bringing
/// a buffer into two hands: it is well-formed and owns no buffer that its
/// predecessor did not own, apart from one that was free.
proof fn lemma_replace(
    w: WorkerView,
    i: int,
    c: ConnView,
    free: Seq<u16>,
    slots: Seq<u32>,
    idle: Seq<i32>,
    requests: nat,
)
    requires
        sound(w),
        0 <= i < w.conns.len(),
        conn_ok(c, w.buf_size),
        c.generation < 0x100_0000,
        distinct(free),
        !free.contains(NO_BUFFER),
        !free.contains(c.cbuf),
        !free.contains(c.ubuf),
        c.cbuf == c.ubuf ==> c.cbuf == NO_BUFFER,
        !c.in_use ==> c.cbuf == NO_BUFFER && c.ubuf == NO_BUFFER,
        // What is free or owned here was free or owned here before.
        forall|b: u16| #[trigger]
            free.contains(b) ==> w.free_bufs.contains(b) || b == w.conns[i].cbuf || b
                == w.conns[i].ubuf,
        c.cbuf == NO_BUFFER || w.free_bufs.contains(c.cbuf) || c.cbuf == w.conns[i].cbuf || c.cbuf
            == w.conns[i].ubuf,
        c.ubuf == NO_BUFFER || w.free_bufs.contains(c.ubuf) || c.ubuf == w.conns[i].cbuf || c.ubuf
            == w.conns[i].ubuf,
        forall|k: int| 0 <= k < slots.len() ==> (#[trigger] slots[k]) < w.conns.len(),
        forall|k: int|
            0 <= k < slots.len() ==> (if #[trigger] slots[k] == i {
                !c.in_use
            } else {
                !w.conns[slots[k] as int].in_use
            }),
        forall|k: int, m: int| 0 <= k < m < slots.len() ==> slots[k] != slots[m],
    ensures
        sound(
            WorkerView {
                conns: w.conns.update(i, c),
                free_conns: slots,
                free_bufs: free,
                buf_size: w.buf_size,
                idle,
                requests,
            },
        ),
{
    let conns = w.conns.update(i, c);
    assert forall|j: int| 0 <= j < conns.len() && j != i implies {
        let d = #[trigger] conns[j];
        &&& !free.contains(d.cbuf)
        &&& !free.contains(d.ubuf)
        &&& apart(c, d)
        &&& apart(d, c)
    } by {
        let d = w.conns[j];
        assert(conns[j] == d);
        assert(apart(w.conns[i], w.conns[j]));
        assert(apart(w.conns[j], w.conns[i]));
        assert(!w.free_bufs.contains(d.cbuf));
        assert(!w.free_bufs.contains(d.ubuf));
    }
    assert forall|j: int, k: int|
        0 <= j < conns.len() && 0 <= k < conns.len() && j != k implies apart(
        #[trigger] conns[j],
        #[trigger] conns[k],
    ) by {
        if j != i && k != i {
            assert(conns[j] == w.conns[j]);
            assert(conns[k] == w.conns[k]);
            assert(apart(w.conns[j], w.conns[k]));
        }
    }
}

proof fn lemma_given_back(w: WorkerView, i: int)
    requires
        sound(w),
        0 <= i < w.conns.len(),
    ensures
        ({
            let c = w.conns[i];
            let one = given_back(w.free_bufs, c.ubuf);
            let both = given_back(given_back(w.free_bufs, c.cbuf), c.ubuf);
            &&& distinct(one)
            &&& !one.contains(NO_BUFFER)
            &&& !one.contains(c.cbuf)
            &&& forall|b: u16| #[trigger]
                one.contains(b) ==> w.free_bufs.contains(b) || b == c.ubuf
            &&& distinct(both)
            &&& !both.contains(NO_BUFFER)
            &&& forall|b: u16| #[trigger]
                both.contains(b) ==> w.free_bufs.contains(b) || b == c.cbuf || b == c.ubuf
        }),
{
    let c = w.conns[i];
    lemma_push_free(w.free_bufs, c.ubuf);
    lemma_push_free(w.free_bufs, c.cbuf);
    lemma_push_free(given_back(w.free_bufs, c.cbuf), c.ubuf);
}

proof fn lemma_push_free(free: Seq<u16>, b: u16)
    requires
        distinct(free),
        !free.contains(b) || b == NO_BUFFER,
        !free.contains(NO_BUFFER),
    ensures
        distinct(given_back(free, b)),
        !given_back(free, b).contains(NO_BUFFER),
        forall|x: u16| #[trigger]
            given_back(free, b).contains(x) <==> free.contains(x) || (x == b && b != NO_BUFFER),
{
    if b != NO_BUFFER {
        let grown = free.push(b);
        assert forall|x: u16| #[trigger] grown.contains(x) <==> free.contains(x) || x == b by {
            if free.contains(x) {
                let k = choose|k: int| 0 <= k < free.len() && free[k] == x;
                assert(grown[k] == x);
            }
            assert(grown[free.len() as int] == b);
            if grown.contains(x) && x != b {
                let k = choose|k: int| 0 <= k < grown.len() && grown[k] == x;
                assert(free[k] == x);
            }
        }
        assert forall|k: int, m: int| 0 <= k < m < grown.len() implies grown[k] != grown[m] by {
            if m == free.len() {
                assert(free.contains(free[k]));
            }
        }
    }
}

/// Answering with a fixed status keeps the worker sound.
proof fn lemma_failed_sound(w: WorkerView, i: int, f: Failure)
    requires
        sound(w),
        0 <= i < w.conns.len(),
    ensures
        sound(failed(w, i, f).0),
{
    lemma_given_back(w, i);
    let c = w.conns[i];
    let after = failed(w, i, f).0;
    lemma_replace(w, i, after.conns[i], after.free_bufs, w.free_conns, w.idle, w.requests);
    assert(after =~= WorkerView {
        conns: w.conns.update(i, after.conns[i]),
        free_conns: w.free_conns,
        free_bufs: after.free_bufs,
        buf_size: w.buf_size,
        idle: w.idle,
        requests: w.requests,
    });
}

/// Giving a connection up keeps the worker sound.
proof fn lemma_closed_sound(w: WorkerView, i: int)
    requires
        sound(w),
        0 <= i < w.conns.len(),
    ensures
        sound(closed_down(w, i).0),
{
    let c = w.conns[i];
    if c.in_use {
        lemma_given_back(w, i);
        let after = closed_down(w, i).0;
        let slots = w.free_conns.push(i as u32);
        assert forall|k: int, m: int| 0 <= k < m < slots.len() implies slots[k] != slots[m] by {
            if m == w.free_conns.len() {
                assert(!w.conns[w.free_conns[k] as int].in_use);
            }
        }
        assert forall|k: int| 0 <= k < slots.len() implies (#[trigger] slots[k]) < w.conns.len()
            by {
            if k < w.free_conns.len() {
                assert(w.free_conns[k] < w.conns.len());
            }
        }
        assert forall|k: int| 0 <= k < slots.len() implies (if #[trigger] slots[k] == i {
            !after.conns[i].in_use
        } else {
            !w.conns[slots[k] as int].in_use
        }) by {
            if k < w.free_conns.len() {
                assert(!w.conns[w.free_conns[k] as int].in_use);
            }
        }
        lemma_replace(w, i, after.conns[i], after.free_bufs, slots, w.idle, w.requests);
        assert(after =~= WorkerView {
            conns: w.conns.update(i, after.conns[i]),
            free_conns: slots,
            free_bufs: after.free_bufs,
            buf_size: w.buf_size,
            idle: w.idle,
            requests: w.requests,
        });
    }
}

/// A connection that keeps its buffers and its place may change otherwise.
proof fn lemma_same_buffers_sound(w: WorkerView, i: int, c: ConnView, idle: Seq<i32>, n: nat)
    requires
        sound(w),
        0 <= i < w.conns.len(),
        conn_ok(c, w.buf_size),
        c.generation < 0x100_0000,
        c.cbuf == w.conns[i].cbuf,
        c.ubuf == w.conns[i].ubuf,
        c.in_use == w.conns[i].in_use,
    ensures
        sound(WorkerView { idle, requests: n, ..with_conn(w, i, c) }),
{
    assert(!w.free_bufs.contains(w.conns[i].cbuf));
    lemma_replace(w, i, c, w.free_bufs, w.free_conns, idle, n);
    assert((WorkerView { idle, requests: n, ..with_conn(w, i, c) }) =~= WorkerView {
        conns: w.conns.update(i, c),
        free_conns: w.free_conns,
        free_bufs: w.free_bufs,
        buf_size: w.buf_size,
        idle,
        requests: n,
    });
}

proof fn lemma_finished_sound(w: WorkerView, i: int)
    requires
        sound(w),
        0 <= i < w.conns.len(),
    ensures
        sound(finished_response(w, i).0),
{
    let c = w.conns[i];
    lemma_given_back(w, i);
    let parked = c.upstream_fd >= 0 && c.keep_alive && w.idle.len() < MAX_IDLE_UPSTREAM;
    let w1 = WorkerView {
        idle: if parked {
            w.idle.push(c.upstream_fd)
        } else {
            w.idle
        },
        free_bufs: given_back(w.free_bufs, c.ubuf),
        ..with_conn(w, i, ConnView { upstream_fd: -1i32 as i32, ubuf: NO_BUFFER, ..c })
    };
    lemma_replace(w, i, w1.conns[i], w1.free_bufs, w.free_conns, w1.idle, w.requests);
    assert(w1 =~= WorkerView {
        conns: w.conns.update(i, w1.conns[i]),
        free_conns: w.free_conns,
        free_bufs: w1.free_bufs,
        buf_size: w.buf_size,
        idle: w1.idle,
        requests: w.requests,
    });
    assert(sound(w1));
    if !c.keep_alive {
        lemma_closed_sound(w1, i);
    } else {
        lemma_same_buffers_sound(w1, i, next_request(w1.conns[i]), w1.idle, w1.requests);
        let w2 = with_conn(w1, i, next_request(w1.conns[i]));
        assert(w2 =~= WorkerView {
            idle: w1.idle,
            requests: w1.requests,
            ..with_conn(w1, i, next_request(w1.conns[i]))
        });
        lemma_failed_sound(w2, i, Failure::HeadTooLarge);
    }
}

proof fn lemma_taken_sound(w: WorkerView, i: int, c: ConnView, slots: Seq<u32>)
    requires
        sound(w),
        0 <= i < w.conns.len(),
        w.free_bufs.len() > 0,
        conn_ok(c, w.buf_size),
        c.generation < 0x100_0000,
        c.in_use,
        (c.cbuf == w.free_bufs.last() && w.conns[i].cbuf == NO_BUFFER && c.ubuf
            == w.conns[i].ubuf) || (c.ubuf == w.free_bufs.last() && c.cbuf == w.conns[i].cbuf),
        forall|k: int| 0 <= k < slots.len() ==> (#[trigger] slots[k]) < w.conns.len(),
        forall|k: int|
            0 <= k < slots.len() ==> #[trigger] slots[k] != i && !w.conns[slots[k] as int].in_use,
        forall|k: int, m: int| 0 <= k < m < slots.len() ==> slots[k] != slots[m],
    ensures
        sound(
            WorkerView {
                free_bufs: w.free_bufs.drop_last(),
                free_conns: slots,
                ..with_conn(w, i, c)
            },
        ),
{
    let free = w.free_bufs.drop_last();
    let b = w.free_bufs.last();
    assert(w.free_bufs[w.free_bufs.len() - 1] == b);
    assert(w.free_bufs.contains(b));
    assert(!free.contains(b)) by {
        if free.contains(b) {
            let k = choose|k: int| 0 <= k < free.len() && free[k] == b;
            assert(w.free_bufs[k] == b);
        }
    }
    assert forall|x: u16| #[trigger] free.contains(x) implies w.free_bufs.contains(x) by {
        let k = choose|k: int| 0 <= k < free.len() && free[k] == x;
        assert(w.free_bufs[k] == x);
    }
    assert(!w.free_bufs.contains(w.conns[i].cbuf));
    assert(!w.free_bufs.contains(w.conns[i].ubuf));
    lemma_replace(w, i, c, free, slots, w.idle, w.requests);
    assert((WorkerView { free_bufs: free, free_conns: slots, ..with_conn(w, i, c) })
        =~= WorkerView {
        conns: w.conns.update(i, c),
        free_conns: slots,
        free_bufs: free,
        buf_size: w.buf_size,
        idle: w.idle,
        requests: w.requests,
    });
}

proof fn lemma_awaiting_sound(w: WorkerView, i: int)
    requires
        sound(w),
        0 <= i < w.conns.len(),
        w.conns[i].in_use,
    ensures
        sound(awaiting_response(w, i).0),
{
    let c = w.conns[i];
    if c.ubuf == NO_BUFFER && w.free_bufs.len() == 0 {
        lemma_failed_sound(w, i, Failure::Unavailable);
    } else {
        let w1 = if c.ubuf == NO_BUFFER {
            WorkerView {
                free_bufs: w.free_bufs.drop_last(),
                ..with_conn(w, i, ConnView { ubuf: w.free_bufs.last(), ..c })
            }
        } else {
            w
        };
        if c.ubuf == NO_BUFFER {
            assert forall|k: int| 0 <= k < w.free_conns.len() implies #[trigger] w.free_conns[k]
                != i && !w.conns[w.free_conns[k] as int].in_use by {
                assert(!w.conns[w.free_conns[k] as int].in_use);
            }
            lemma_taken_sound(
                w,
                i,
                ConnView { ubuf: w.free_bufs.last(), ..c },
                w.free_conns,
            );
            assert(w1 =~= WorkerView {
                free_bufs: w.free_bufs.drop_last(),
                free_conns: w.free_conns,
                ..with_conn(w, i, ConnView { ubuf: w.free_bufs.last(), ..c })
            });
        }
        let c2 = ConnView { ufilled: 0, state: State::RecvHead, ..w1.conns[i] };
        lemma_same_buffers_sound(w1, i, c2, w1.idle, w1.requests);
        let w2 = with_conn(w1, i, c2);
        assert(w2 =~= WorkerView { idle: w1.idle, requests: w1.requests, ..with_conn(w1, i, c2) });
        lemma_failed_sound(w2, i, Failure::BadGateway);
    }
}

/// Whatever a connection in use asks for, the worker stays sound.
pub proof fn lemma_settling_stays_sound(w: WorkerView, i: int, next: Next)
    requires
        sound(w),
        0 <= i < w.conns.len(),
        w.conns[i].in_use,
    ensures
        sound(settled(w, i, next).0),
{
    match next {
        Next::ReadClient => lemma_failed_sound(w, i, Failure::HeadTooLarge),
        Next::ReadUpstream => lemma_failed_sound(w, i, Failure::BadGateway),
        Next::AwaitResponse => lemma_awaiting_sound(w, i),
        Next::Finish => lemma_finished_sound(w, i),
        Next::Fail(f) => lemma_failed_sound(w, i, f),
        Next::Close => lemma_closed_sound(w, i),
        _ => {},
    }
}

/// A new connection keeps the worker sound.
pub proof fn lemma_accepting_stays_sound(w: WorkerView, fd: i32, peer: Seq<char>)
    requires
        sound(w),
    ensures
        sound(accepted(w, fd, peer).0),
{
    if w.free_conns.len() == 0 || w.free_bufs.len() == 0 {
        let w1 = accepted(w, fd, peer).0;
        assert forall|x: u16| #[trigger] w1.free_bufs.contains(x) implies w.free_bufs.contains(
            x,
        ) by {
            let k = choose|k: int| 0 <= k < w1.free_bufs.len() && w1.free_bufs[k] == x;
            assert(w.free_bufs[k] == x);
        }
        assert forall|k: int| 0 <= k < w1.free_conns.len() implies (#[trigger] w1.free_conns[k])
            < w.conns.len() && !w.conns[w1.free_conns[k] as int].in_use by {
            assert(w.free_conns[k] == w1.free_conns[k]);
        }
    } else {
        let slots = w.free_conns.drop_last();
        let last = w.free_conns.len() - 1;
        let i = w.free_conns.last() as int;
        assert(w.free_conns[last] == w.free_conns.last());
        let c = w.conns[i];
        assert(!c.in_use);
        let fresh = next_request(
            ConnView {
                generation: next_generation(c.generation),
                client_fd: fd,
                upstream_fd: -1i32 as i32,
                peer,
                cbuf: w.free_bufs.last(),
                ubuf: NO_BUFFER,
                keep_alive: true,
                in_use: true,
                upstream_addr: None,
                ..c
            },
        );
        assert forall|k: int| 0 <= k < slots.len() implies (#[trigger] slots[k]) < w.conns.len()
            && slots[k] != i && !w.conns[slots[k] as int].in_use by {
            assert(slots[k] == w.free_conns[k]);
        }
        lemma_taken_sound(w, i, fresh, slots);
        let w2 = WorkerView {
            free_bufs: w.free_bufs.drop_last(),
            free_conns: slots,
            ..with_conn(w, i, fresh)
        };
        lemma_failed_sound(w2, i, Failure::HeadTooLarge);
        let w1 = WorkerView {
            free_conns: slots,
            free_bufs: w.free_bufs.drop_last(),
            ..w
        };
        assert(with_conn(w1, i, fresh) =~= w2);
    }
}

/// Whether a buffer lies within the pool's memory.
pub open spec fn lies_within(b: u16, buf_size: nat, len: nat) -> bool {
    b == NO_BUFFER || (b + 1) * buf_size <= len
}

/// Whether every buffer that is free or owned lies within the pool's memory.
pub open spec fn in_memory(w: WorkerView, len: nat) -> bool {
    &&& forall|k: int|
        0 <= k < w.free_bufs.len() ==> lies_within(#[trigger] w.free_bufs[k], w.buf_size, len)
    &&& forall|i: int|
        0 <= i < w.conns.len() ==> lies_within((#[trigger] w.conns[i]).cbuf, w.buf_size, len)
            && lies_within(w.conns[i].ubuf, w.buf_size, len)
}

proof fn lemma_settled_in_memory(w: WorkerView, i: int, next: Next, len: nat)
    requires
        in_memory(w, len),
        0 <= i < w.conns.len(),
    ensures
        in_memory(settled(w, i, next).0, len),
{
    assert(lies_within(w.conns[i].cbuf, w.buf_size, len));
    match next {
        Next::Finish => {
            let c = w.conns[i];
            let w1 = finished_response(w, i).0;
            assert(lies_within(c.ubuf, w.buf_size, len));
        },
        Next::AwaitResponse => {
            if w.free_bufs.len() > 0 {
                assert(lies_within(w.free_bufs[w.free_bufs.len() - 1], w.buf_size, len));
            }
        },
        _ => {},
    }
}

proof fn lemma_accepted_in_memory(w: WorkerView, fd: i32, peer: Seq<char>, len: nat)
    requires
        in_memory(w, len),
        sound(w),
    ensures
        in_memory(accepted(w, fd, peer).0, len),
{
    if w.free_bufs.len() > 0 {
        assert(lies_within(w.free_bufs[w.free_bufs.len() - 1], w.buf_size, len));
    }
    if w.free_conns.len() > 0 {
        assert(w.free_conns[w.free_conns.len() - 1] < w.conns.len());
    }
}

/// Whether a connection asks for anything that counts as a request that was read.
pub open spec fn counts_as_request(next: Next) -> bool {
    next == Next::Dial || next == Next::Fail(Failure::NotFound)
}

/// A worker after a connection event.
pub open spec fn stepped(w: WorkerView, i: int, c: ConnView, next: Next) -> (WorkerView, StepView) {
    settled(with_conn(w, i, c), i, next)
}

/// A worker that has counted a request, if there was one.
pub open spec fn counted(w: WorkerView, code: int, next: Next) -> WorkerView {
    if code == 2 && counts_as_request(next) {
        WorkerView { requests: ((w.requests + 1) % 0x1_0000_0000_0000_0000) as nat, ..w }
    } else {
        w
    }
}

/// The slot that a `user_data` names.
pub open spec fn slot_of(user_data: u64) -> int {
    user_data as int % 0x1_0000_0000
}

/// The number of the operation that a `user_data` names.
pub open spec fn code_of(user_data: u64) -> int {
    user_data as int / 0x100_0000_0000_0000
}

/// Whether a completion belongs to the connection that occupies its slot now. One
/// for a slot that has since been recycled belongs to the previous occupant;
/// applying it would corrupt the current one.
pub open spec fn is_current(w: WorkerView, user_data: u64) -> bool {
    &&& slot_of(user_data) < w.conns.len()
    &&& w.conns[slot_of(user_data)].in_use
    &&& w.conns[slot_of(user_data)].generation == (user_data as int / 0x1_0000_0000) % 0x100_0000
}

/// What a completion does. A stale one, and one that names no operation, does
/// nothing.
pub open spec fn dispatched(
    w: WorkerView,
    user_data: u64,
    res: i32,
    peer: Seq<char>,
    buf: Seq<u8>,
    table: Table,
    draw: int,
) -> (WorkerView, StepView) {
    let i = slot_of(user_data);
    let c = w.conns[i];
    let code = code_of(user_data);
    if code == 1 {
        if res >= 0 {
            accepted(w, res, peer)
        } else {
            unchanged(w)
        }
    } else if !(2 <= code <= 6) || !is_current(w, user_data) {
        unchanged(w)
    } else {
        let (d, next) = conn_event(code, c, res as int, buf, table, draw);
        stepped(counted(w, code, next), i, d, next)
    }
}

/// Whether a ticket was drawn from the group of the route that a request takes which a
/// completion has brought in, where it has and there is one.
pub open spec fn completion_draws(
    w: WorkerView,
    user_data: u64,
    res: i32,
    buf: Seq<u8>,
    groups: TableOf<TargetGroup>,
    draw: usize,
) -> bool {
    code_of(user_data) == 2 && is_current(w, user_data) ==> read_draws(
        groups,
        res as int,
        buf,
        draw,
    )
}

/// What the completion of an operation does to its connection, and what the
/// connection asks for next.
pub open spec fn conn_event(
    code: int,
    c: ConnView,
    res: int,
    buf: Seq<u8>,
    table: Table,
    draw: int,
) -> (ConnView, Next) {
    if code == 2 {
        client_read(c, res, buf, table, draw)
    } else if code == 3 {
        client_written(c, res)
    } else if code == 4 {
        upstream_connected(c, res)
    } else if code == 5 {
        upstream_written(c, res)
    } else {
        upstream_read(c, res, buf)
    }
}

/// A connection after its upstream has been connected, or not.
pub open spec fn upstream_connected(c: ConnView, res: int) -> (ConnView, Next) {
    if res < 0 {
        (c, Next::Fail(Failure::BadGateway))
    } else {
        (ConnView { state: State::SendUpstream, ..c }, Next::WriteUpstream)
    }
}

/// Whether an operation of a connection reports no more than was asked for.
pub open spec fn fair(c: ConnView, code: int, res: i32, buf_size: nat) -> bool {
    res > 0 ==> {
        &&& code == 2 ==> c.cbuf != NO_BUFFER && c.cfilled + res <= buf_size
        &&& code == 3 ==> if c.state is SendBody {
            c.ubuf_off + res <= c.ubuf_len
        } else {
            c.out_sent + res <= c.out.len()
        }
        &&& code == 5 ==> c.out_sent + res <= c.out.len()
        &&& code == 6 ==> c.ubuf != NO_BUFFER && c.ufilled + res <= buf_size
    }
}

/// An event leaves a connection its slot and its buffers, and its counters within
/// them.
proof fn lemma_event_keeps(
    code: int,
    c: ConnView,
    res: i32,
    buf: Seq<u8>,
    table: Table,
    draw: int,
    buf_size: nat,
)
    requires
        conn_ok(c, buf_size),
        fair(c, code, res, buf_size),
        code == 2 && res > 0 ==> buf.len() == c.cfilled + res,
    ensures
        ({
            let d = conn_event(code, c, res as int, buf, table, draw).0;
            &&& 2 <= code <= 5 ==> conn_ok(d, buf_size)
            &&& d.cbuf == c.cbuf
            &&& d.ubuf == c.ubuf
            &&& d.in_use == c.in_use
            &&& d.generation == c.generation
        }),
{
}

/// Whether a completion reports no more than was asked for.
pub open spec fn plausible(w: WorkerView, user_data: u64, res: i32) -> bool {
    is_current(w, user_data) ==> fair(
        w.conns[slot_of(user_data)],
        code_of(user_data),
        res,
        w.buf_size,
    )
}

/// What a completion leaves in the buffer that it filled: what was there and what
/// it read.
pub open spec fn read_into(
    c: ConnView,
    code: int,
    res: i32,
    buf_size: nat,
    memory: Seq<u8>,
) -> Seq<u8> {
    if code == 2 {
        memory.subrange(c.cbuf * buf_size, c.cbuf * buf_size + c.cfilled + res)
    } else {
        memory.subrange(c.ubuf * buf_size, c.ubuf * buf_size + c.ufilled + res)
    }
}

impl Worker {
    /// The pool's memory.
    pub closed spec fn memory(&self) -> Seq<u8> {
        self.pool.memory()
    }

    /// Whether an accept is armed.
    pub closed spec fn armed(&self) -> bool {
        self.accept_armed
    }

    /// Whether nothing is in two hands and every buffer is where it should be.
    pub open spec fn wf(&self) -> bool {
        sound(self@) && in_memory(self@, self.memory().len())
    }

    /// What a completion leaves in the buffer that it filled.
    pub open spec fn filled(&self, user_data: u64, res: i32) -> Seq<u8> {
        read_into(
            self@.conns[slot_of(user_data)],
            code_of(user_data),
            res,
            self@.buf_size,
            self.memory(),
        )
    }

    /// A worker with `max_conns` free slots and `buf_count` free buffers.
    pub fn new(max_conns: usize, buf_count: usize, buf_size: usize) -> (r: Result<
        Self,
        PoolError,
    >)
        requires
            buf_count * buf_size <= isize::MAX,
            max_conns <= u32::MAX,
        ensures
            r is Ok <==> 1 <= buf_count <= 65535,
            r matches Ok(w) ==> {
                &&& w.wf()
                &&& !w.armed()
                &&& w.memory().len() == buf_count * buf_size
                &&& w@ == (WorkerView {
                    conns: Seq::new(max_conns as nat, |i: int| vacant()),
                    free_conns: Seq::new(
                        max_conns as nat,
                        |i: int| (max_conns - 1 - i) as u32,
                    ),
                    free_bufs: Seq::new(buf_count as nat, |i: int| (buf_count - 1 - i) as u16),
                    buf_size: buf_size as nat,
                    idle: Seq::empty(),
                    requests: 0,
                })
            },
            r matches Err(e) ==> e == PoolError::InvalidCount,
    {
        let pool = match BufferPool::new(buf_count, buf_size) {
            Ok(pool) => pool,
            Err(e) => return Err(e),
        };
        let mut conns: Vec<Conn> = Vec::new();
        let mut free_conns: Vec<u32> = Vec::new();
        let mut left: usize = max_conns;
        while left > 0
            invariant
                left <= max_conns <= u32::MAX,
                conns@.len() == max_conns - left,
                free_conns@.len() == max_conns - left,
                forall|i: int| 0 <= i < conns@.len() ==> (#[trigger] conns@[i])@ == vacant(),
                forall|i: int|
                    0 <= i < free_conns@.len() ==> #[trigger] free_conns@[i] == max_conns - 1 - i,
            decreases left,
        {
            left = left - 1;
            conns.push(Conn::vacant());
            free_conns.push(left as u32);
        }
        let w = Self {
            pool,
            conns,
            free_conns,
            idle_upstream: Vec::new(),
            requests: 0,
            accept_armed: false,
        };
        proof {
            assert(w@.conns =~= Seq::new(max_conns as nat, |i: int| vacant()));
            assert(w@.free_conns =~= Seq::new(
                max_conns as nat,
                |i: int| (max_conns - 1 - i) as u32,
            ));
            assert(w@.idle =~= Seq::empty());
            assert forall|k: int| 0 <= k < w@.free_bufs.len() implies lies_within(
                #[trigger] w@.free_bufs[k],
                w@.buf_size,
                w.memory().len(),
            ) by {
                let b = w@.free_bufs[k];
                assert((b + 1) * buf_size <= buf_count * buf_size) by (nonlinear_arith)
                    requires
                        b + 1 <= buf_count,
                        0 <= buf_size,
                ;
            }
        }
        Ok(w)
    }

    /// All buffers' bytes, for the caller to register and to have filled.
    pub fn memory_mut(&mut self) -> (r: &mut [u8])
        ensures
            (*r)@ == old(self).memory(),
            final(self).memory() == final(r)@,
            final(self)@ == old(self)@,
            final(self).armed() == old(self).armed(),
    {
        self.pool.memory_mut()
    }

    /// The bytes that a connection writes from.
    #[must_use]
    pub fn out(&self, index: usize) -> (r: &[u8])
        requires
            index < self@.conns.len(),
        ensures
            r@ == self@.conns[index as int].out,
    {
        self.conns[index].out.as_slice()
    }

    /// The upstream address of a connection's request.
    #[must_use]
    pub fn upstream_addr(&self, index: usize) -> (r: Option<&str>)
        requires
            index < self@.conns.len(),
        ensures
            r is Some <==> self@.conns[index as int].upstream_addr is Some,
            r matches Some(a) ==> Some(a@) == self@.conns[index as int].upstream_addr,
    {
        match &self.conns[index].upstream_addr {
            Some(a) => Some(a.as_str()),
            None => None,
        }
    }

    /// Number of slots.
    #[must_use]
    pub fn slots(&self) -> (r: usize)
        ensures
            r == self@.conns.len(),
    {
        self.conns.len()
    }

    /// Number of requests read so far.
    #[must_use]
    pub fn requests(&self) -> (r: u64)
        ensures
            r == self@.requests,
    {
        self.requests
    }

    /// Whether an accept is armed.
    #[must_use]
    pub fn accept_armed(&self) -> (r: bool)
        ensures
            r == self.armed(),
    {
        self.accept_armed
    }

    /// The accept to submit: one submission yields a completion per connection
    /// until the kernel says it is done.
    pub fn arm_accept(&mut self) -> (user_data: u64)
        ensures
            user_data == packed(Op::Accept, 0, 0),
            final(self).armed(),
            final(self)@ == old(self)@,
            final(self).memory() == old(self).memory(),
    {
        self.accept_armed = true;
        pack(Op::Accept, 0, 0)
    }

    /// Whether a completion reports no more than was asked for.
    #[must_use]
    pub fn expects(&self, user_data: u64, res: i32) -> (r: bool)
        requires
            self.wf(),
        ensures
            r == plausible(self@, user_data, res),
    {
        if res <= 0 {
            return true;
        }
        let (op, generation, index) = match unpack(user_data) {
            Some(parts) => parts,
            None => return true,
        };
        let i: usize = index as usize;
        if i >= self.conns.len() || !self.conns[i].in_use || self.conns[i].generation
            != generation {
            return true;
        }
        let c = &self.conns[i];
        assert(c@ == self@.conns[i as int]);
        assert(conn_ok(c@, self@.buf_size));
        let more: usize = res as usize;
        match op {
            Op::ClientRead => c.cbuf != NO_BUFFER && more <= self.pool.buf_size() - c.cfilled,
            Op::ClientWrite => if c.state == State::SendBody {
                more <= c.ubuf_len - c.ubuf_off
            } else {
                more <= c.out.len() - c.out_sent
            },
            Op::UpstreamWrite => more <= c.out.len() - c.out_sent,
            Op::UpstreamRead => c.ubuf != NO_BUFFER && more <= self.pool.buf_size() - c.ufilled,
            _ => true,
        }
    }

    /// Apply a completion. `more` says whether the kernel keeps a multishot accept
    /// armed, and `peer` is the address of a connection that was accepted.
    ///
    /// Which backend a routed request goes to depends on the other threads.
    pub fn dispatch(
        &mut self,
        user_data: u64,
        res: i32,
        more: bool,
        peer: &str,
        table: &RouteTable,
    ) -> (step: Step)
        requires
            old(self).wf(),
            plausible(old(self)@, user_data, res),
        ensures
            final(self).wf(),
            final(self).memory() == old(self).memory(),
            final(self).armed() == (if code_of(user_data) == 1 && !more {
                false
            } else {
                old(self).armed()
            }),
            exists|draw: usize|
                completion_draws(
                    old(self)@,
                    user_data,
                    res,
                    old(self).filled(user_data, res),
                    table.groups(),
                    draw,
                ) && (final(self)@, step@) == #[trigger] dispatched(
                    old(self)@,
                    user_data,
                    res,
                    peer@,
                    old(self).filled(user_data, res),
                    table@,
                    draw as int,
                ),
            step.index == slot_of(user_data) || code_of(user_data) == 1,
            code_of(user_data) == 1 && res >= 0 && old(self)@.free_conns.len() > 0 && old(
                self,
            )@.free_bufs.len() > 0 ==> step.index == old(self)@.free_conns.last(),
            !(step.submit is Nothing) ==> step.index < final(self)@.conns.len(),
    {
        let ghost w = self@;
        let ghost buf = self.filled(user_data, res);
        proof {
            assert(0usize as int == 0);
        }
        let (op, generation, index) = match unpack(user_data) {
            Some(parts) => parts,
            None => {
                let step = Self::nothing(low_half(user_data));
                assert((self@, step@) == dispatched(
                    w,
                    user_data,
                    res,
                    peer@,
                    buf,
                    table@,
                    0usize as int,
                ));
                return step;
            },
        };
        if op == Op::Accept {
            if !more {
                self.accept_armed = false;
            }
            assert(self@ == w);
            let step = if res >= 0 {
                self.on_accept(res, peer)
            } else {
                Self::nothing(index as usize)
            };
            assert((self@, step@) == dispatched(
                w,
                user_data,
                res,
                peer@,
                buf,
                table@,
                0usize as int,
            ));
            return step;
        }
        let i: usize = index as usize;
        // A completion for a slot that has since been recycled belongs to the
        // previous occupant; applying it would corrupt the current one.
        if op == Op::Close || i >= self.conns.len() || !self.conns[i].in_use
            || self.conns[i].generation != generation {
            let step = Self::nothing(i);
            assert((self@, step@) == dispatched(
                w,
                user_data,
                res,
                peer@,
                buf,
                table@,
                0usize as int,
            ));
            return step;
        }
        let next = self.advance(op, i, res, table);
        let ghost c = w.conns[i as int];
        let ghost d = self@.conns[i as int];
        let ghost code = code_of(user_data);
        let ghost draw = choose|draw: usize|
            (code == 2 ==> read_draws(table.groups(), res as int, buf, draw)) && (d, next)
                == #[trigger] conn_event(code, c, res as int, buf, table@, draw as int);
        assert(completion_draws(w, user_data, res, buf, table.groups(), draw));
        let ghost w1 = self@;
        assert(w1 == with_conn(counted(w, code, next), i as int, d));
        let step = self.settle(i, next);
        assert((self@, step@) == dispatched(
            w,
            user_data,
            res,
            peer@,
            buf,
            table@,
            draw as int,
        ));
        step
    }

    /// Hand a completion to its connection.
    #[verifier::rlimit(60)]
    fn advance(&mut self, op: Op, i: usize, res: i32, table: &RouteTable) -> (next: Next)
        requires
            old(self).wf(),
            i < old(self)@.conns.len(),
            old(self)@.conns[i as int].in_use,
            2 <= op_code(op) <= 6,
            fair(old(self)@.conns[i as int], op_code(op) as int, res, old(self)@.buf_size),
        ensures
            final(self).wf(),
            final(self).memory() == old(self).memory(),
            final(self).armed() == old(self).armed(),
            final(self)@ == with_conn(
                counted(old(self)@, op_code(op) as int, next),
                i as int,
                final(self)@.conns[i as int],
            ),
            final(self)@.conns[i as int].in_use,
            exists|draw: usize|
                (op_code(op) == 2 ==> read_draws(
                    table.groups(),
                    res as int,
                    read_into(
                        old(self)@.conns[i as int],
                        op_code(op) as int,
                        res,
                        old(self)@.buf_size,
                        old(self).memory(),
                    ),
                    draw,
                )) && (final(self)@.conns[i as int], next) == #[trigger] conn_event(
                    op_code(op) as int,
                    old(self)@.conns[i as int],
                    res as int,
                    read_into(
                        old(self)@.conns[i as int],
                        op_code(op) as int,
                        res,
                        old(self)@.buf_size,
                        old(self).memory(),
                    ),
                    table@,
                    draw as int,
                ),
    {
        let ghost w = self@;
        let ghost c = w.conns[i as int];
        let ghost code = op_code(op) as int;
        let ghost buf = read_into(c, code, res, w.buf_size, self.memory());
        proof {
            assert(c == self.conns@[i as int]@);
            assert(conn_ok(c, w.buf_size));
            assert(self.conns@[i as int].out.len() == c.out.len());
        }
        let ghost mut draw: usize = 0;
        let next: Next = match op {
            Op::ClientRead => {
                let next = self.client_read_completed(i, res, table);
                proof {
                    draw = choose|draw: usize|
                        read_draws(table.groups(), res as int, buf, draw) && (
                            self.conns@[i as int]@,
                            next,
                        ) == #[trigger] client_read(
                            c,
                            res as int,
                            buf,
                            table@,
                            draw as int,
                        );
                }
                next
            },
            Op::ClientWrite => {
                let conn = &mut self.conns[i];
                conn.on_client_write(res)
            },
            Op::UpstreamConnect => {
                let conn = &mut self.conns[i];
                conn.on_upstream_connect(res)
            },
            Op::UpstreamWrite => {
                let conn = &mut self.conns[i];
                conn.on_upstream_write(res)
            },
            _ => self.upstream_read_completed(i, res),
        };
        let ghost d = self.conns@[i as int]@;
        proof {
            assert((d, next) == conn_event(code, c, res as int, buf, table@, draw as int));
            assert(conn_views(self.conns@) =~= w.conns.update(i as int, d));
            if code == 2 && res > 0 {
                let size = w.buf_size;
                assert(lies_within(c.cbuf, size, self.memory().len()));
                assert((c.cbuf + 1) * size == c.cbuf * size + size && c.cbuf * size >= 0)
                    by (nonlinear_arith)
                    requires
                        c.cbuf >= 0,
                        size >= 0,
                ;
            }
            lemma_event_keeps(code, c, res, buf, table@, draw as int, w.buf_size);
            lemma_same_buffers_sound(w, i as int, d, w.idle, self@.requests);
            assert(self@ =~= (WorkerView {
                idle: w.idle,
                requests: self@.requests,
                ..with_conn(w, i as int, d)
            }));
            assert(self@ =~= with_conn(counted(w, code, next), i as int, d));
            assert(lies_within(c.cbuf, w.buf_size, self.memory().len()));
        }
        next
    }
}

impl Worker {
    fn nothing(index: usize) -> (r: Step)
        ensures
            r@ == (StepView { close: Seq::empty(), submit: Submit::Nothing }),
            r.index == index,
    {
        Step { index, close: Vec::new(), submit: Submit::Nothing }
    }

    fn only(index: usize, submit: Submit) -> (r: Step)
        ensures
            r@ == (StepView { close: Seq::empty(), submit }),
            r.index == index,
    {
        Step { index, close: Vec::new(), submit }
    }

    fn client_read_completed(&mut self, i: usize, res: i32, table: &RouteTable) -> (next: Next)
        requires
            old(self).wf(),
            i < old(self)@.conns.len(),
            res > 0 ==> old(self)@.conns[i as int].cbuf != NO_BUFFER
                && old(self)@.conns[i as int].cfilled + res <= old(self)@.buf_size,
        ensures
            final(self).pool == old(self).pool,
            final(self).free_conns == old(self).free_conns,
            final(self).idle_upstream == old(self).idle_upstream,
            final(self).accept_armed == old(self).accept_armed,
            final(self)@.requests == counted(old(self)@, 2, next).requests,
            final(self).conns@ == old(self).conns@.update(i as int, final(self).conns@[i as int]),
            exists|draw: usize|
                read_draws(
                    table.groups(),
                    res as int,
                    old(self).memory().subrange(
                        old(self)@.conns[i as int].cbuf * old(self)@.buf_size,
                        old(self)@.conns[i as int].cbuf * old(self)@.buf_size + old(
                            self,
                        )@.conns[i as int].cfilled + res,
                    ),
                    draw,
                ) && (final(self).conns@[i as int]@, next) == #[trigger] client_read(
                    old(self)@.conns[i as int],
                    res as int,
                    old(self).memory().subrange(
                        old(self)@.conns[i as int].cbuf * old(self)@.buf_size,
                        old(self)@.conns[i as int].cbuf * old(self)@.buf_size + old(
                            self,
                        )@.conns[i as int].cfilled + res,
                    ),
                    table@,
                    draw as int,
                ),
    {
        let ghost c = self@.conns[i as int];
        assert(c == self.conns@[i as int]@);
        assert(conn_ok(c, self@.buf_size));
        let cbuf: u16 = self.conns[i].cbuf;
        let len: usize = if res > 0 {
            self.conns[i].cfilled + res as usize
        } else {
            0
        };
        let next = if res > 0 {
            proof {
                let size = self@.buf_size;
                assert(lies_within(cbuf, size, self.memory().len()));
                assert((cbuf + 1) * size == cbuf * size + size) by (nonlinear_arith);
            }
            let buf = self.pool.slice(cbuf, 0, len);
            let conn = &mut self.conns[i];
            conn.on_client_read(res, buf, table)
        } else {
            let conn = &mut self.conns[i];
            let none: Vec<u8> = Vec::new();
            conn.on_client_read(res, none.as_slice(), table)
        };
        if next == Next::Dial || next == Next::Fail(Failure::NotFound) {
            self.requests = self.requests.wrapping_add(1);
        }
        proof {
            let ghost now = self.conns@[i as int]@;
            let buf = old(self).memory().subrange(
                c.cbuf * old(self)@.buf_size,
                c.cbuf * old(self)@.buf_size + c.cfilled + res,
            );
            let used: Seq<u8> = if res > 0 {
                buf
            } else {
                Seq::empty()
            };
            let draw = choose|draw: usize|
                read_draws(table.groups(), res as int, used, draw) && (now, next)
                    == #[trigger] client_read(c, res as int, used, table@, draw as int);
            assert(read_draws(table.groups(), res as int, buf, draw));
            assert((now, next) == client_read(c, res as int, buf, table@, draw as int));
        }
        next
    }

    fn upstream_read_completed(&mut self, i: usize, res: i32) -> (next: Next)
        requires
            old(self).wf(),
            i < old(self)@.conns.len(),
            res > 0 ==> old(self)@.conns[i as int].ubuf != NO_BUFFER
                && old(self)@.conns[i as int].ufilled + res <= old(self)@.buf_size,
        ensures
            final(self).pool == old(self).pool,
            final(self).free_conns == old(self).free_conns,
            final(self).idle_upstream == old(self).idle_upstream,
            final(self).accept_armed == old(self).accept_armed,
            final(self).requests == old(self).requests,
            final(self).conns@ == old(self).conns@.update(i as int, final(self).conns@[i as int]),
            conn_ok(final(self).conns@[i as int]@, old(self)@.buf_size),
            (final(self).conns@[i as int]@, next) == upstream_read(
                old(self)@.conns[i as int],
                res as int,
                old(self).memory().subrange(
                    old(self)@.conns[i as int].ubuf * old(self)@.buf_size,
                    old(self)@.conns[i as int].ubuf * old(self)@.buf_size + old(
                        self,
                    )@.conns[i as int].ufilled + res,
                ),
            ),
    {
        let ghost c = self@.conns[i as int];
        assert(c == self.conns@[i as int]@);
        assert(conn_ok(c, self@.buf_size));
        let ubuf: u16 = self.conns[i].ubuf;
        if res > 0 {
            let len: usize = self.conns[i].ufilled + res as usize;
            proof {
                let size = self@.buf_size;
                assert(lies_within(ubuf, size, self.memory().len()));
                assert((ubuf + 1) * size == ubuf * size + size) by (nonlinear_arith);
            }
            let buf = self.pool.slice(ubuf, 0, len);
            let conn = &mut self.conns[i];
            conn.on_upstream_read(res, buf)
        } else {
            let conn = &mut self.conns[i];
            let none: Vec<u8> = Vec::new();
            conn.on_upstream_read(res, none.as_slice())
        }
    }

    /// A connection has been accepted.
    pub fn on_accept(&mut self, fd: i32, peer: &str) -> (step: Step)
        requires
            old(self).wf(),
        ensures
            final(self).wf(),
            final(self).memory() == old(self).memory(),
            final(self).armed() == old(self).armed(),
            (final(self)@, step@) == accepted(old(self)@, fd, peer@),
            old(self)@.free_conns.len() > 0 && old(self)@.free_bufs.len() > 0 ==> step.index
                == old(self)@.free_conns.last(),
            !(step.submit is Nothing) ==> step.index < final(self)@.conns.len(),
    {
        let ghost w = self@;
        proof {
            lemma_accepting_stays_sound(w, fd, peer@);
            lemma_accepted_in_memory(w, fd, peer@, self.memory().len());
            if w.free_conns.len() > 0 {
                assert(w.free_conns[w.free_conns.len() - 1] < w.conns.len());
            }
        }
        let slot = self.free_conns.pop();
        let cbuf = self.pool.allocate();
        assert(w.free_conns.len() > 0 ==> self.free_conns@ =~= w.free_conns.drop_last());
        let (index, cbuf) = match (slot, cbuf) {
            (Some(index), Some(cbuf)) => (index, cbuf),
            _ => {
                // Out of slots or buffers: refuse rather than queue unboundedly.
                let mut close: Vec<i32> = Vec::new();
                close.push(fd);
                let step = Step { index: 0, close, submit: Submit::Nothing };
                assert(step@.close =~= seq![fd]);
                return step;
            },
        };
        let i: usize = index as usize;
        let generation: u32 = (self.conns[i].generation + 1) % 0x100_0000;
        let conn = &mut self.conns[i];
        conn.generation = generation;
        conn.client_fd = fd;
        conn.upstream_fd = -1;
        conn.peer = peer.to_owned();
        conn.cbuf = cbuf;
        conn.ubuf = NO_BUFFER;
        conn.keep_alive = true;
        conn.in_use = true;
        conn.upstream_addr = None;
        conn.reset_for_next_request();
        let ghost d = self.conns@[i as int]@;
        assert(conn_views(self.conns@) =~= w.conns.update(i as int, d));
        self.submit_client_read(i)
    }

    /// Read more of a request, or refuse it where the buffer is full.
    fn submit_client_read(&mut self, i: usize) -> (step: Step)
        requires
            i < old(self)@.conns.len() <= u32::MAX,
            old(self)@.conns[i as int].cfilled <= old(self)@.buf_size,
            old(self)@.conns[i as int].generation < 0x100_0000,
        ensures
            final(self).memory() == old(self).memory(),
            final(self).armed() == old(self).armed(),
            (final(self)@, step@) == read_client(old(self)@, i as int),
            step.index == i,
            final(self)@.conns.len() == old(self)@.conns.len(),
    {
        assert(self@.conns[i as int] == self.conns@[i as int]@);
        let filled: usize = self.conns[i].cfilled;
        let cap: usize = self.pool.buf_size() - filled;
        if cap == 0 {
            // The head does not fit in one buffer; refusing is the honest answer
            // at this size rather than growing without bound.
            return self.fail(i, Failure::HeadTooLarge);
        }
        let conn = &self.conns[i];
        Self::only(
            i,
            Submit::ReadFixed {
                fd: conn.client_fd,
                buf: conn.cbuf,
                offset: filled,
                len: cap,
                user_data: pack(Op::ClientRead, conn.generation, i as u32),
            },
        )
    }

    /// Read more of a response, or give it up where the buffer is full.
    fn submit_upstream_read(&mut self, i: usize) -> (step: Step)
        requires
            i < old(self)@.conns.len() <= u32::MAX,
            old(self)@.conns[i as int].ufilled <= old(self)@.buf_size,
            old(self)@.conns[i as int].generation < 0x100_0000,
        ensures
            final(self).memory() == old(self).memory(),
            final(self).armed() == old(self).armed(),
            (final(self)@, step@) == read_upstream(old(self)@, i as int),
            step.index == i,
            final(self)@.conns.len() == old(self)@.conns.len(),
    {
        assert(self@.conns[i as int] == self.conns@[i as int]@);
        let filled: usize = self.conns[i].ufilled;
        let cap: usize = self.pool.buf_size() - filled;
        if cap == 0 {
            return self.fail(i, Failure::BadGateway);
        }
        let conn = &self.conns[i];
        Self::only(
            i,
            Submit::ReadFixed {
                fd: conn.upstream_fd,
                buf: conn.ubuf,
                offset: filled,
                len: cap,
                user_data: pack(Op::UpstreamRead, conn.generation, i as u32),
            },
        )
    }

    /// Reply with a fixed status and then continue or close.
    fn fail(&mut self, i: usize, failure: Failure) -> (step: Step)
        requires
            i < old(self)@.conns.len() <= u32::MAX,
            old(self)@.conns[i as int].generation < 0x100_0000,
        ensures
            final(self).memory() == old(self).memory(),
            final(self).armed() == old(self).armed(),
            (final(self)@, step@) == failed(old(self)@, i as int, failure),
            step.index == i,
            final(self)@.conns.len() == old(self)@.conns.len(),
    {
        let ghost w = self@;
        assert(w.conns[i as int] == self.conns@[i as int]@);
        let upstream: i32 = self.conns[i].upstream_fd;
        let ubuf: u16 = self.conns[i].ubuf;
        let mut close: Vec<i32> = Vec::new();
        if upstream >= 0 {
            close.push(upstream);
        }
        assert(close@ =~= closing(upstream));
        if ubuf != NO_BUFFER {
            self.pool.release(ubuf);
        }
        let out = status_response(failure.status(), failure.reason());
        let len: usize = out.len();
        let conn = &mut self.conns[i];
        conn.upstream_fd = -1;
        conn.ubuf = NO_BUFFER;
        conn.out = out;
        conn.out_sent = 0;
        conn.cfilled = 0;
        conn.ufilled = 0;
        conn.ubuf_off = 0;
        conn.ubuf_len = 0;
        conn.chunked = None;
        conn.body_remaining = 0;
        conn.body_until_close = false;
        conn.state = State::SendClient;
        let submit = Submit::Send {
            fd: self.conns[i].client_fd,
            offset: 0,
            len,
            user_data: pack(Op::ClientWrite, self.conns[i].generation, i as u32),
        };
        proof {
            let d = self.conns@[i as int]@;
            assert(conn_views(self.conns@) =~= w.conns.update(i as int, d));
            assert(self@ =~= failed(w, i as int, failure).0);
        }
        Step { index: i, close, submit }
    }

    /// Give a connection up.
    fn close(&mut self, i: usize) -> (step: Step)
        requires
            i < old(self)@.conns.len() <= u32::MAX,
        ensures
            final(self).memory() == old(self).memory(),
            final(self).armed() == old(self).armed(),
            (final(self)@, step@) == closed_down(old(self)@, i as int),
            step.index == i,
            final(self)@.conns.len() == old(self)@.conns.len(),
    {
        let ghost w = self@;
        assert(w.conns[i as int] == self.conns@[i as int]@);
        if !self.conns[i].in_use {
            return Self::nothing(i);
        }
        let client: i32 = self.conns[i].client_fd;
        let upstream: i32 = self.conns[i].upstream_fd;
        let cbuf: u16 = self.conns[i].cbuf;
        let ubuf: u16 = self.conns[i].ubuf;
        let conn = &mut self.conns[i];
        conn.in_use = false;
        conn.state = State::Closed;
        conn.client_fd = -1;
        conn.upstream_fd = -1;
        conn.cbuf = NO_BUFFER;
        conn.ubuf = NO_BUFFER;
        if cbuf != NO_BUFFER {
            self.pool.release(cbuf);
        }
        if ubuf != NO_BUFFER {
            self.pool.release(ubuf);
        }
        let mut close: Vec<i32> = Vec::new();
        if client >= 0 {
            close.push(client);
        }
        if upstream >= 0 {
            close.push(upstream);
        }
        assert(close@ =~= closing(client) + closing(upstream));
        self.free_conns.push(i as u32);
        proof {
            let d = self.conns@[i as int]@;
            assert(conn_views(self.conns@) =~= w.conns.update(i as int, d));
            assert(self@ =~= closed_down(w, i as int).0);
        }
        Step { index: i, close, submit: Submit::Nothing }
    }

    /// End a response.
    fn finish_response(&mut self, i: usize) -> (step: Step)
        requires
            i < old(self)@.conns.len() <= u32::MAX,
            old(self)@.conns[i as int].generation < 0x100_0000,
        ensures
            final(self).memory() == old(self).memory(),
            final(self).armed() == old(self).armed(),
            (final(self)@, step@) == finished_response(old(self)@, i as int),
            step.index == i,
            final(self)@.conns.len() == old(self)@.conns.len(),
    {
        let ghost w = self@;
        assert(w.conns[i as int] == self.conns@[i as int]@);
        let keep_alive: bool = self.conns[i].keep_alive;
        // Park the upstream socket for the next request on this core.
        let upstream: i32 = self.conns[i].upstream_fd;
        let ubuf: u16 = self.conns[i].ubuf;
        let mut close: Vec<i32> = Vec::new();
        if upstream >= 0 {
            if keep_alive && self.idle_upstream.len() < MAX_IDLE_UPSTREAM {
                self.idle_upstream.push(upstream);
            } else {
                close.push(upstream);
            }
        }
        let ghost shut = close@;
        if ubuf != NO_BUFFER {
            self.pool.release(ubuf);
        }
        let conn = &mut self.conns[i];
        conn.upstream_fd = -1;
        conn.ubuf = NO_BUFFER;
        let ghost parked = upstream >= 0 && keep_alive && w.idle.len() < MAX_IDLE_UPSTREAM;
        let ghost w1 = WorkerView {
            idle: if parked {
                w.idle.push(upstream)
            } else {
                w.idle
            },
            free_bufs: given_back(w.free_bufs, ubuf),
            ..with_conn(
                w,
                i as int,
                ConnView { upstream_fd: -1i32 as i32, ubuf: NO_BUFFER, ..w.conns[i as int] },
            )
        };
        proof {
            let d = self.conns@[i as int]@;
            assert(conn_views(self.conns@) =~= w.conns.update(i as int, d));
            assert(self@ =~= w1);
            assert(shut =~= if parked {
                Seq::<i32>::empty()
            } else {
                closing(upstream)
            });
        }
        let mut step = if !keep_alive {
            self.close(i)
        } else {
            let conn = &mut self.conns[i];
            conn.reset_for_next_request();
            proof {
                let d = self.conns@[i as int]@;
                assert(conn_views(self.conns@) =~= w1.conns.update(i as int, d));
                assert(self@ =~= with_conn(w1, i as int, next_request(w1.conns[i as int])));
            }
            self.submit_client_read(i)
        };
        let ghost later = step.close@;
        close.append(&mut step.close);
        assert(close@ =~= shut + later);
        Step { index: i, close, submit: step.submit }
    }

    /// The request is away: start reading the response.
    fn await_response(&mut self, i: usize) -> (step: Step)
        requires
            i < old(self)@.conns.len() <= u32::MAX,
            old(self)@.conns[i as int].generation < 0x100_0000,
        ensures
            final(self).memory() == old(self).memory(),
            final(self).armed() == old(self).armed(),
            (final(self)@, step@) == awaiting_response(old(self)@, i as int),
            step.index == i,
            final(self)@.conns.len() == old(self)@.conns.len(),
    {
        let ghost w = self@;
        assert(w.conns[i as int] == self.conns@[i as int]@);
        if self.conns[i].ubuf == NO_BUFFER {
            match self.pool.allocate() {
                Some(ubuf) => {
                    let conn = &mut self.conns[i];
                    conn.ubuf = ubuf;
                },
                None => {
                    assert(self@ =~= w);
                    return self.fail(i, Failure::Unavailable);
                },
            }
        }
        let ghost c = w.conns[i as int];
        let ghost w1 = if c.ubuf == NO_BUFFER {
            WorkerView {
                free_bufs: w.free_bufs.drop_last(),
                ..with_conn(w, i as int, ConnView { ubuf: w.free_bufs.last(), ..c })
            }
        } else {
            w
        };
        proof {
            let d = self.conns@[i as int]@;
            assert(conn_views(self.conns@) =~= w1.conns);
            assert(self@ =~= w1);
        }
        let conn = &mut self.conns[i];
        conn.ufilled = 0;
        conn.state = State::RecvHead;
        proof {
            let d = self.conns@[i as int]@;
            assert(conn_views(self.conns@) =~= w1.conns.update(i as int, d));
            assert(self@ =~= with_conn(
                w1,
                i as int,
                ConnView { ufilled: 0, state: State::RecvHead, ..w1.conns[i as int] },
            ));
        }
        self.submit_upstream_read(i)
    }

    /// Do what a connection asks for.
    fn settle(&mut self, i: usize, next: Next) -> (step: Step)
        requires
            old(self).wf(),
            i < old(self)@.conns.len(),
            old(self)@.conns[i as int].in_use,
        ensures
            final(self).wf(),
            final(self).memory() == old(self).memory(),
            final(self).armed() == old(self).armed(),
            (final(self)@, step@) == settled(old(self)@, i as int, next),
            step.index == i,
            final(self)@.conns.len() == old(self)@.conns.len(),
    {
        let ghost w = self@;
        proof {
            lemma_settling_stays_sound(w, i as int, next);
            lemma_settled_in_memory(w, i as int, next, self.memory().len());
            assert(w.conns[i as int] == self.conns@[i as int]@);
            assert(conn_ok(w.conns[i as int], w.buf_size));
        }
        match next {
            Next::ReadClient => self.submit_client_read(i),
            Next::Dial => Self::only(i, Submit::Resolve),
            Next::WriteUpstream => {
                let conn = &self.conns[i];
                Self::only(
                    i,
                    Submit::Send {
                        fd: conn.upstream_fd,
                        offset: conn.out_sent,
                        len: conn.out.len() - conn.out_sent,
                        user_data: pack(Op::UpstreamWrite, conn.generation, i as u32),
                    },
                )
            },
            Next::AwaitResponse => self.await_response(i),
            Next::ReadUpstream => self.submit_upstream_read(i),
            Next::WriteClient => {
                let conn = &self.conns[i];
                Self::only(
                    i,
                    Submit::Send {
                        fd: conn.client_fd,
                        offset: conn.out_sent,
                        len: conn.out.len() - conn.out_sent,
                        user_data: pack(Op::ClientWrite, conn.generation, i as u32),
                    },
                )
            },
            Next::WriteBody => {
                let conn = &self.conns[i];
                Self::only(
                    i,
                    Submit::WriteFixed {
                        fd: conn.client_fd,
                        buf: conn.ubuf,
                        offset: conn.ubuf_off,
                        len: conn.ubuf_len - conn.ubuf_off,
                        user_data: pack(Op::ClientWrite, conn.generation, i as u32),
                    },
                )
            },
            Next::Finish => self.finish_response(i),
            Next::Fail(f) => self.fail(i, f),
            Next::Close => self.close(i),
        }
    }

    /// The upstream address of a connection has been read as a socket address, or
    /// is none. A pooled upstream socket is reused if there is one.
    pub fn on_resolved(&mut self, i: usize, valid: bool) -> (step: Step)
        requires
            old(self).wf(),
            i < old(self)@.conns.len(),
            old(self)@.conns[i as int].in_use,
        ensures
            final(self).wf(),
            final(self).memory() == old(self).memory(),
            final(self).armed() == old(self).armed(),
            (final(self)@, step@) == (if !valid {
                failed(old(self)@, i as int, Failure::BadGateway)
            } else if old(self)@.idle.len() > 0 {
                stepped(
                    WorkerView { idle: old(self)@.idle.drop_last(), ..old(self)@ },
                    i as int,
                    ConnView {
                        upstream_fd: old(self)@.idle.last(),
                        state: State::SendUpstream,
                        ..old(self)@.conns[i as int]
                    },
                    Next::WriteUpstream,
                )
            } else {
                (old(self)@, StepView { close: Seq::empty(), submit: Submit::Open })
            }),
            step.index == i,
    {
        let ghost w = self@;
        assert(w.conns[i as int] == self.conns@[i as int]@);
        if !valid {
            return self.settle(i, Next::Fail(Failure::BadGateway));
        }
        match self.idle_upstream.pop() {
            Some(fd) => {
                let conn = &mut self.conns[i];
                conn.upstream_fd = fd;
                conn.state = State::SendUpstream;
                proof {
                    let d = self.conns@[i as int]@;
                    assert(conn_views(self.conns@) =~= w.conns.update(i as int, d));
                    assert(conn_ok(w.conns[i as int], w.buf_size));
                    lemma_same_buffers_sound(w, i as int, d, w.idle.drop_last(), w.requests);
                    assert(self.idle_upstream@ =~= w.idle.drop_last());
                    assert(self@ =~= with_conn(
                        WorkerView { idle: w.idle.drop_last(), ..w },
                        i as int,
                        d,
                    ));
                    assert(self@ =~= (WorkerView {
                        idle: w.idle.drop_last(),
                        requests: w.requests,
                        ..with_conn(w, i as int, d)
                    }));
                }
                self.settle(i, Next::WriteUpstream)
            },
            None => {
                assert(self@ =~= w);
                Self::only(i, Submit::Open)
            },
        }
    }

    /// A socket for the upstream has been opened, or could not be (`fd < 0`).
    pub fn on_open(&mut self, i: usize, fd: i32) -> (step: Step)
        requires
            old(self).wf(),
            i < old(self)@.conns.len(),
            old(self)@.conns[i as int].in_use,
        ensures
            final(self).wf(),
            final(self).memory() == old(self).memory(),
            final(self).armed() == old(self).armed(),
            (final(self)@, step@) == (if fd < 0 {
                failed(old(self)@, i as int, Failure::BadGateway)
            } else {
                (
                    with_conn(
                        old(self)@,
                        i as int,
                        ConnView {
                            upstream_fd: fd,
                            state: State::Connecting,
                            ..old(self)@.conns[i as int]
                        },
                    ),
                    StepView {
                        close: Seq::empty(),
                        submit: Submit::Connect {
                            fd,
                            user_data: ticket(
                                Op::UpstreamConnect,
                                old(self)@.conns[i as int],
                                i as int,
                            ),
                        },
                    },
                )
            }),
            step.index == i,
    {
        let ghost w = self@;
        assert(w.conns[i as int] == self.conns@[i as int]@);
        if fd < 0 {
            return self.settle(i, Next::Fail(Failure::BadGateway));
        }
        let conn = &mut self.conns[i];
        conn.upstream_fd = fd;
        conn.state = State::Connecting;
        proof {
            let d = self.conns@[i as int]@;
            assert(conn_views(self.conns@) =~= w.conns.update(i as int, d));
            assert(conn_ok(w.conns[i as int], w.buf_size));
            lemma_same_buffers_sound(w, i as int, d, w.idle, w.requests);
            assert(self@ =~= with_conn(w, i as int, d));
            assert(self@ =~= (WorkerView {
                idle: w.idle,
                requests: w.requests,
                ..with_conn(w, i as int, d)
            }));
        }
        Self::only(
            i,
            Submit::Connect {
                fd,
                user_data: pack(Op::UpstreamConnect, self.conns[i].generation, i as u32),
            },
        )
    }
}

/// The low half of a 64-bit word.
fn low_half(v: u64) -> (r: usize)
    ensures
        r == v as int % 0x1_0000_0000,
{
    (v % 0x1_0000_0000) as usize
}

/// A completion for an earlier occupant of a slot changes nothing: the slot's
/// generation has moved on.
pub proof fn lemma_stale_completion_changes_nothing(
    w: WorkerView,
    op: Op,
    generation: u32,
    index: u32,
    res: i32,
    peer: Seq<char>,
    buf: Seq<u8>,
    table: Table,
    draw: int,
)
    requires
        op != Op::Accept,
        generation < 0x100_0000,
        index < w.conns.len() ==> !w.conns[index as int].in_use
            || w.conns[index as int].generation != generation,
    ensures
        dispatched(
            w,
            packed(op, generation, index) as u64,
            res,
            peer,
            buf,
            table,
            draw,
        ) == unchanged(w),
{
    crate::proxy_native::ring::lemma_unpack_undoes_pack(op, generation, index);
}

/// A slot's next occupant has another generation, so that the previous occupant's
/// completions are stale.
pub proof fn lemma_generation_moves_on(g: u32)
    requires
        g < 0x100_0000,
    ensures
        next_generation(g) != g,
        next_generation(g) < 0x100_0000,
{
}

} // verus!
