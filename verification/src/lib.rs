//! A coordination hub for a small fleet of robots that connect over TCP.
//!
//! Each link carries a length-prefixed, CRC-8-checksummed framing protocol
//! wrapping JSON-encoded tagged messages.  The library holds everything that
//! can be stated and proved: the frame codec, the message schema and its
//! byte-level JSON codec, the per-connection session state machine, the
//! role-to-channel routing registry, and the world-state reassembly logic.
//! Socket I/O, threads and clocks live outside, in the surrounding program,
//! which feeds this library plain bytes and events.

pub mod crc;
pub mod json;
pub mod msg;
pub mod registry;
pub mod session;
pub mod wire;
pub mod world;

