//! Networking library for multiplayer Conway's Game of Life: the wire data model, sequence
//! number bookkeeping, reordering buffers, latency filters, and the per-peer state kept by the
//! filter layer.

pub mod app;
pub mod client;
pub mod common;
pub mod daemon;
pub mod filter;
pub mod net;
pub mod protocol;
pub mod server;
pub mod time;
pub mod transport;
pub mod utils;
