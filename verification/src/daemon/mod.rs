//! The server daemon's configuration and the answers it gives its control socket.

pub mod config;
pub mod contract;
