//! The daemon's configuration, as read from its configuration file.
use vstd::prelude::*;

verus! {

/// The whole configuration.
#[derive(Debug)]
pub struct Config {
    pub server: ServerConfig,
    /// Present for a public server, which registers itself.
    pub registry: Option<RegistryConfig>,
    pub control: ControlConfig,
}

/// The game server: its name and where it listens.
#[derive(Debug)]
pub struct ServerConfig {
    pub name: String,
    pub bind_host: String,
    pub bind_port: u16,
}

/// Registration of a public server: the address published, and the registrar's URL.
#[derive(Debug)]
pub struct RegistryConfig {
    pub public_host: String,
    pub public_port: u16,
    pub url: String,
}

/// The control socket.
#[derive(Debug)]
pub struct ControlConfig {
    pub socket_path: String,
}

} // verus!
