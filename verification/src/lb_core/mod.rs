//! Routing, backend selection and header rules shared by every proxy.

pub mod allocator;
pub mod binary64;
pub mod headers;
pub mod rotation;
pub mod share_laws;
pub mod target;
pub mod proxy;
pub mod double;
pub mod filter;
pub mod hash;
pub mod simd;
pub mod matcher;
pub mod route_table;
pub mod shared_table;
pub mod route_laws;
pub mod forward;
pub mod forward_laws;
pub mod config;
pub mod config_laws;
pub mod gateway;
pub mod gateway_laws;
