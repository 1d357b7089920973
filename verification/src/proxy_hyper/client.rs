//! Settings of the connection-pooled upstream client.

use vstd::prelude::*;

use crate::lb_core::forward::UpstreamProtocol;

verus! {

/// Tuning for the upstream connection pool.
#[derive(Debug, Clone, Copy, PartialEq, Eq, Structural)]
pub struct ClientConfig {
    /// Idle connections kept per upstream host.
    pub pool_max_idle_per_host: usize,
    /// How long an idle pooled connection survives, in seconds.
    pub pool_idle_timeout_secs: u64,
    /// TCP connect timeout in seconds.
    pub connect_timeout_secs: u64,
    /// Speak HTTP/2 to upstreams (prior knowledge, no ALPN).
    pub http2_upstream: bool,
}

impl Default for ClientConfig {
    /// The pool is sized for sweeps over 25 000 connections: too small, and the proxy
    /// churns TCP handshakes that a benchmark then attributes to the runtime.
    fn default() -> (r: Self)
        ensures
            r == (ClientConfig {
                pool_max_idle_per_host: 8_192,
                pool_idle_timeout_secs: 90,
                connect_timeout_secs: 5,
                http2_upstream: false,
            }),
    {
        Self {
            pool_max_idle_per_host: 8_192,
            pool_idle_timeout_secs: 90,
            connect_timeout_secs: 5,
            http2_upstream: false,
        }
    }
}

impl ClientConfig {
    /// Whether the client speaks HTTP/2 to upstreams.
    #[must_use]
    pub fn is_http2_upstream(&self) -> (r: bool)
        ensures
            r == self.http2_upstream,
    {
        self.http2_upstream
    }

    /// How the upstream hop is spoken. The downstream version must not leak upstream.
    #[must_use]
    pub fn protocol(&self) -> (r: UpstreamProtocol)
        ensures
            r == (if self.http2_upstream {
                UpstreamProtocol::Http2
            } else {
                UpstreamProtocol::Http1
            }),
    {
        if self.http2_upstream {
            UpstreamProtocol::Http2
        } else {
            UpstreamProtocol::Http1
        }
    }
}

} // verus!
