//! The transport layer: endpoints, their transmit queues, retries and timeouts.

pub mod endpoint;
pub mod interface;
pub mod transport;

pub use interface::{new_tid, PacketSettings, TransportCmd, TransportMode, TransportNotice, TransportRsp};
