//! The server side of the application layer: its command interface, its registration with a
//! public registry, the players in its lobby and its rooms.

pub mod interface;
pub mod players;
pub mod registry;
pub mod room;
pub mod rooms;

pub use registry::RegistryParams;
