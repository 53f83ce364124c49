//! The application layer, above the filter layer.

pub mod server;
