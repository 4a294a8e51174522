//! A peer-to-peer file transfer node: multicast discovery, a framed
//! session protocol over TCP, and a chunked transfer engine that
//! partitions files into fixed-size windows.
//!
//! This crate holds the verified core: the wire codec, the chunk
//! partitioning and offset arithmetic, the peer and connection tables,
//! and the decision logic of the discovery and session loops. Socket
//! and disk I/O live outside, in thin adapters that hand plain values
//! in and out.

pub mod chunk;
pub mod codec;
pub mod discovery;
pub mod json;
pub mod protocol;
pub mod session;
pub mod state;
pub mod util;
