//! The proxy over Hyper: its settings, and what it decides about a request.

pub mod client;
pub mod server;
