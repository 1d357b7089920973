//! Settings of the server, and what it answers by itself.

use vstd::prelude::*;
use vstd::string::*;

use crate::lb_core::target::{authority_is_valid, BackendEndpoint};

verus! {

/// Listen backlog. Deep enough that a ramp to 25 000 connections does not overflow
/// the SYN queue and get counted as proxy latency.
pub const LISTEN_BACKLOG: i32 = 16_384;

/// Server tuning.
#[derive(Debug)]
pub struct ServerConfig {
    pub listen_addr: String,
    /// Accept loops, each with its own `SO_REUSEPORT` socket.
    pub workers: usize,
    /// Send `X-Forwarded-For` / `X-Forwarded-Proto`.
    pub forwarded_headers: bool,
    /// HTTP/1 read buffer per connection.
    pub h1_max_buf_size: usize,
    /// HTTP/2 initial stream window.
    pub h2_stream_window: u32,
    /// HTTP/2 initial connection window.
    pub h2_connection_window: u32,
}

impl ServerConfig {
    /// Defaults: one accept loop for each CPU, forwarding headers, and windows in
    /// which a payload of 1 MB does not stall on flow control mid-body.
    #[must_use]
    pub fn new(listen_addr: &str, cpus: usize) -> (r: Self)
        ensures
            r.listen_addr@ == listen_addr@,
            r.workers == cpus,
            r.forwarded_headers,
            r.h1_max_buf_size == 65_536,
            r.h2_stream_window == 1_048_576,
            r.h2_connection_window == 4_194_304,
    {
        Self {
            listen_addr: listen_addr.to_owned(),
            workers: cpus,
            forwarded_headers: true,
            h1_max_buf_size: 65_536,
            h2_stream_window: 1_048_576,
            h2_connection_window: 4_194_304,
        }
    }

    /// How many accept loops to run: one at least.
    #[must_use]
    pub fn accept_loops(&self) -> (r: usize)
        ensures
            r == (if self.workers == 0 {
                1
            } else {
                self.workers
            }),
    {
        if self.workers == 0 {
            1
        } else {
            self.workers
        }
    }
}

/// The headers of an answer without a body: its length, and for a request that no
/// route takes its type too.
#[must_use]
pub fn answer_headers(status: u16) -> (r: Vec<(&'static str, &'static str)>)
    ensures
        status == 404 ==> r@.len() == 2 && r@[0].0@ == "content-type"@ && r@[0].1@
            == "text/plain"@ && r@[1].0@ == "content-length"@ && r@[1].1@ == "0"@,
        status != 404 ==> r@.len() == 1 && r@[0].0@ == "content-length"@ && r@[0].1@ == "0"@,
{
    let mut r: Vec<(&'static str, &'static str)> = Vec::new();
    if status == 404 {
        r.push(("content-type", "text/plain"));
    }
    r.push(("content-length", "0"));
    r
}

/// The authority a backend address resolves to.
#[must_use]
pub fn authority_of(address: &str) -> (r: Option<String>)
    ensures
        r is Some <==> authority_is_valid(address@),
        r matches Some(authority) ==> authority@ == address@,
{
    let endpoint = BackendEndpoint::new(address.to_owned(), 1);
    match endpoint.authority() {
        Some(authority) => Some(authority.to_owned()),
        None => None,
    }
}

} // verus!
