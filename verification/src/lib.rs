//! A reverse proxy for the Minecraft protocol, as a verified core.
//!
//! The crate holds the parts of the proxy that decide something: the wire
//! codec, the handshake sniffer that works on peeked bytes, the routing
//! table with its connection bookkeeping, and the control protocol. Sockets,
//! tasks and locks are left to the program that embeds it.

pub mod addr;
pub mod assoc;
pub mod buffer;
pub mod control;
pub mod cprot;
pub mod error;
pub mod laws;
pub mod manager;
pub mod prefixed;
pub mod prot;
pub mod proxy;
mod table;
pub mod text;
pub mod varint;
