//! The game server of the first protocol generation: its players, rooms and chat, and how it
//! answers the packets of its clients.

pub mod entity;
pub mod state;
pub mod util;

pub use util::{new_cookie, new_uuid, validate_client_version};
