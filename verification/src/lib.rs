//! Local-network clipboard synchronisation: the peer-discovery and
//! content-distribution protocol.
//!
//! A node that changes its clipboard propagates the change to every known
//! peer over unreliable datagrams; a node receiving a change adopts it and
//! never echoes content it just received. The crate holds the protocol
//! logic: the wire codec, the peer registry, the dedup state, the chunked
//! image reassembly engine with its garbage collector, the discovery
//! handshake decisions, and the outbound fan-out plans. Sockets, clipboard
//! access and timers live outside, and hand these functions plain values.

pub mod dedup;
pub mod discovery;
pub mod distribution;
pub mod hashing;
pub mod listener;
pub mod reassembly;
pub mod registry;
pub mod util;
pub mod wire;
