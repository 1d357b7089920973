//! The thread-per-core proxy: HTTP/1.1 framing on owned buffers, protocol
//! sniffing, the upstream connection pool and the decisions of a connection.

pub mod head_laws;
pub mod http1;
pub mod http2;
pub mod pool;
pub mod pool_laws;
pub mod relay_laws;
pub mod server;
pub mod session_laws;
pub mod exchange_laws;
