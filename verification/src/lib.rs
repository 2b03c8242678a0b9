//! Core of a real-time, connectionless networking stack over an unreliable
//! datagram transport: per-channel fragmentation, batching and reassembly of
//! application messages under per-channel memory ceilings, and a server-side
//! secure-session handshake (connect-token validation, challenge/response,
//! slot assignment, liveness timeouts).

pub mod byte_buf;
pub mod channel;
pub mod crypto;
pub mod packet;
pub mod slice_constructor;
pub mod server;
pub mod token;
pub mod unreliable;
