//! Line-delimited JSON-RPC over a byte stream pair.
//!
//! The library holds the transport's logic: framing a byte stream into
//! request lines, framing replies, and the read-dispatch-write session
//! that decides, event by event, what the transport does next.
pub mod framer;
pub mod session;
