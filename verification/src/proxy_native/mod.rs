//! The proxy that drives its sockets through a completion ring: head parsing,
//! body framing, buffer bookkeeping and the per-connection state machine.

pub mod chunked;
pub mod head_laws;
pub mod message;
pub mod ring;
pub mod conn;
pub mod exchange_laws;
pub mod worker;
pub mod worker_laws;
