//! A layer-7 load balancer: route tables, header and path rewriting, weighted
//! backend selection, HTTP/1 framing and the decisions of the proxies and of
//! the benchmark harness that measures them.

pub mod text;
pub mod text_laws;
pub mod wire;
pub mod bench;
pub mod lb_core;
pub mod proxy_hyper;
pub mod proxy_monoio;
pub mod proxy_native;
mod shared;
