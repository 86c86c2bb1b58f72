//! A connectionless datagram transport layer with selective reliability
//! signaling: per-peer sequence numbers, a sliding-window acknowledgment
//! bitfield that reports dropped packets without retransmitting them, and
//! transparent fragmentation and reassembly of oversized payloads.

pub mod ack;
pub mod address;
pub mod config;
pub mod connection;
pub mod error;
pub mod header;
pub mod packet;
pub mod protocol;
pub mod reassembly;
pub mod sequence_buffer;
pub mod socket_state;

pub use address::Address;
pub use config::NetworkConfig;
pub use connection::Connection;
pub use error::NetworkError;
pub use header::PacketHeader;
pub use packet::{Packet, PacketData};
pub use protocol::ProtocolCore;
pub use reassembly::ReassemblyData;
pub use sequence_buffer::SequenceBuffer;
pub use socket_state::SocketState;
