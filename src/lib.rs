//! A reliable, ordered message channel over an unreliable datagram transport.
//!
//! The library holds the protocol logic: sequence arithmetic, sequence-keyed
//! ring buffers, the wire framing with its checksum, the symmetric message
//! streams, the per-peer endpoint, and the decisions of the client and server
//! drivers. Sockets, clocks and pacing are left to the caller, which hands the
//! library plain values (bytes, addresses, timestamps in milliseconds).

pub mod endian;
pub mod buffer;
pub mod sequence;
pub mod sequence_buffer;
pub mod packet;
pub mod stream;
pub mod moving_average;
pub mod endpoint;
pub mod sim;
pub mod server;
pub mod client;
