//! HTTP/2 (h2c) on the thread-per-core proxy: telling it apart from HTTP/1, and
//! turning its requests into HTTP/1.1 ones.

use vstd::prelude::*;
use vstd::slice::*;

use crate::lb_core::forward::{
    carried_out, drawn_for, outcome_by, prepare_with, BadRewrite, Prepared, RequestParts,
    UpstreamProtocol,
};
use crate::lb_core::route_table::RouteTable;
use crate::lb_core::shared_table::{was_in_force, SharedRouteTable};

verus! {

/// The HTTP/2 connection preface, `PRI * HTTP/2.0\r\n\r\nSM\r\n\r\n`. A client
/// that opens with these 24 bytes is speaking h2c with prior knowledge.
pub const H2_PREFACE: [u8; 24] = [
    80,
    82,
    73,
    32,
    42,
    32,
    72,
    84,
    84,
    80,
    47,
    50,
    46,
    48,
    13,
    10,
    13,
    10,
    83,
    77,
    13,
    10,
    13,
    10,
];

/// Whether bytes are the preface, are not, or could still become it.
pub open spec fn is_h2(buf: Seq<u8>) -> Option<bool> {
    let n: int = if buf.len() < 24 {
        buf.len() as int
    } else {
        24
    };
    if buf.take(n) != H2_PREFACE@.take(n) {
        Some(false)
    } else if buf.len() >= 24 {
        Some(true)
    } else {
        None
    }
}

/// Whether `buf` is (or could still become) the HTTP/2 preface.
///
/// Returns `None` when there are not yet enough bytes to decide, so the caller
/// keeps reading rather than mis-parsing a partial preface as HTTP/1.
#[must_use]
pub fn detect_h2(buf: &[u8]) -> (r: Option<bool>)
    ensures
        r == is_h2(buf@),
{
    let n: usize = if buf.len() < 24 {
        buf.len()
    } else {
        24
    };
    let mut i: usize = 0;
    while i < n
        invariant
            i <= n <= 24,
            n <= buf@.len(),
            forall|k: int| 0 <= k < i ==> buf@[k] == H2_PREFACE@[k],
        decreases n - i,
    {
        if buf[i] != H2_PREFACE[i] {
            assert(buf@.take(n as int)[i as int] != H2_PREFACE@.take(n as int)[i as int]);
            return Some(false);
        }
        i = i + 1;
    }
    assert(buf@.take(n as int) =~= H2_PREFACE@.take(n as int));
    if buf.len() >= 24 {
        Some(true)
    } else {
        None
    }
}

/// A decision stands, whatever else arrives.
pub proof fn lemma_detection_is_final(buf: Seq<u8>, more: Seq<u8>)
    requires
        is_h2(buf) is Some,
    ensures
        is_h2(buf + more) == is_h2(buf),
{
    let all = buf + more;
    let n: int = if buf.len() < 24 {
        buf.len() as int
    } else {
        24
    };
    let m: int = if all.len() < 24 {
        all.len() as int
    } else {
        24
    };
    if buf.take(n) != H2_PREFACE@.take(n) {
        if all.take(m) == H2_PREFACE@.take(m) {
            assert(buf.take(n) =~= all.take(m).take(n));
            assert(H2_PREFACE@.take(n) =~= H2_PREFACE@.take(m).take(n));
        }
    } else {
        assert(all.take(24) =~= buf.take(24));
    }
}

/// Bytes that were read while sniffing the protocol, to be replayed before the
/// stream.
#[derive(Debug)]
struct Replay {
    prefix: Vec<u8>,
    position: usize,
}

impl Replay {
    /// The bytes that are still to be replayed.
    spec fn pending(&self) -> Seq<u8> {
        self.prefix@.skip(self.position as int)
    }

    #[verifier::type_invariant]
    spec fn well_formed(&self) -> bool {
        self.position <= self.prefix@.len()
    }

    /// All of `prefix` is still to be replayed.
    fn new(prefix: Vec<u8>) -> (r: Self)
        ensures
            r.pending() == prefix@,
    {
        let r = Self { prefix, position: 0 };
        assert(r.pending() =~= prefix@);
        r
    }

    /// Number of bytes still to be replayed.
    fn remaining(&self) -> (r: usize)
        ensures
            r == self.pending().len(),
    {
        proof {
            use_type_invariant(self);
        }
        self.prefix.len() - self.position
    }

    /// Take up to `room` of the bytes to be replayed; nothing is left to take once
    /// all have been.
    fn replay(&mut self, room: usize) -> (r: Vec<u8>)
        ensures
            r@.len() == (if room < old(self).pending().len() {
                room as nat
            } else {
                old(self).pending().len()
            }),
            r@ + final(self).pending() == old(self).pending(),
    {
        proof {
            use_type_invariant(&*self);
        }
        let left: usize = self.prefix.len() - self.position;
        let n: usize = if room < left {
            room
        } else {
            left
        };
        let part = slice_subrange(self.prefix.as_slice(), self.position, self.position + n);
        let mut out: Vec<u8> = Vec::new();
        out.extend_from_slice(part);
        let ghost before = self.pending();
        self.position = self.position + n;
        assert(out@ + self.pending() =~= before);
        out
    }
}

/// A stream with the bytes that were read from it while sniffing the protocol, to be
/// replayed before the rest: the HTTP/2 server expects to read the preface itself.
#[derive(Debug)]
pub struct PrefixedIo<T> {
    replay: Replay,
    inner: T,
}

impl<T> PrefixedIo<T> {
    /// The bytes that are still to be replayed.
    pub closed spec fn pending(&self) -> Seq<u8> {
        self.replay.pending()
    }

    /// The stream behind the bytes.
    pub closed spec fn stream(&self) -> T {
        self.inner
    }

    /// All of `prefix` is still to be replayed.
    #[must_use]
    pub fn new(prefix: Vec<u8>, inner: T) -> (r: Self)
        ensures
            r.pending() == prefix@,
            r.stream() == inner,
    {
        Self { replay: Replay::new(prefix), inner }
    }

    /// Bytes of the prefix still to be replayed.
    #[must_use]
    pub fn remaining_prefix(&self) -> (r: usize)
        ensures
            r == self.pending().len(),
    {
        self.replay.remaining()
    }

    /// Take up to `room` of the bytes to be replayed; nothing is left to take once
    /// all have been.
    pub fn replay(&mut self, room: usize) -> (r: Vec<u8>)
        ensures
            r@.len() == (if room < old(self).pending().len() {
                room as nat
            } else {
                old(self).pending().len()
            }),
            r@ + final(self).pending() == old(self).pending(),
            final(self).stream() == old(self).stream(),
    {
        self.replay.replay(room)
    }

    /// The stream, for what comes behind the bytes.
    pub fn inner_mut(&mut self) -> (r: &mut T)
        ensures
            *r == old(self).stream(),
            final(self).stream() == *final(r),
            final(self).pending() == old(self).pending(),
    {
        &mut self.inner
    }
}

/// Turn an HTTP/2 request into an HTTP/1.1 one for the selected backend, under the
/// table in force.
pub fn prepare_h2(
    parts: &mut RequestParts,
    peer_ip: &str,
    routes: &SharedRouteTable,
    forwarded_headers: bool,
) -> (r: Prepared)
    ensures
        exists|table: RouteTable, ticket: usize|
            was_in_force(*routes, table) && drawn_for(table.groups(), old(parts)@, ticket)
                && carried_out(
                old(parts)@,
                final(parts)@,
                r,
                #[trigger] outcome_by(
                    old(parts)@,
                    peer_ip@,
                    table@,
                    ticket as int,
                    forwarded_headers,
                    UpstreamProtocol::Http1,
                    BadRewrite::UseRoot,
                ),
            ),
{
    let table = routes.load_full();
    prepare_with(
        parts,
        peer_ip,
        &table,
        forwarded_headers,
        UpstreamProtocol::Http1,
        BadRewrite::UseRoot,
    )
}

} // verus!
