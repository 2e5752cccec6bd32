//! The wire-protocol core of a small HTTP/1.1 server: request parsing,
//! routing, response negotiation and serialisation, and the per-connection
//! state machine. Sockets and files are left to the caller.

pub mod bytes;
pub mod laws;
pub mod request;
pub mod response;
pub mod router;
pub mod server;
pub mod text;
pub mod utils;
