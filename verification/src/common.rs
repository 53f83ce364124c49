//! Items shared by the layers of the second generation.
use vstd::prelude::*;

verus! {

/// Largest UDP payload sent, in bytes.
pub const UDP_MTU_SIZE: usize = 1440;

/// A peer's network address as the library sees it: the IP address (an IPv4 address is held
/// in the low 32 bits) and the port. Socket addresses are converted at the edge.
#[derive(Clone, Copy, Debug, PartialEq, Eq, Hash, Structural)]
pub struct Endpoint {
    pub ip: u128,
    pub port: u16,
    pub is_ipv6: bool,
}

/// A generation state diff of the game universe: the pattern to apply to generation `gen0` to
/// reach generation `gen1`.
#[derive(Clone, Debug, PartialEq, Eq)]
pub struct GenStateDiff {
    pub gen0: usize,
    pub gen1: usize,
    pub pattern: String,
}

} // verus!
