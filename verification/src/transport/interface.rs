//! What the transport layer exchanges with the filter layer above it.
use vstd::prelude::*;
use snowflake::ProcessUniqueId;
use std::time::Duration;
use crate::common::Endpoint;
use crate::protocol::Packet;

verus! {

/// Largest UDP payload accepted by the transport layer, in bytes.
pub const UDP_MTU_SIZE: usize = 1472;

#[verifier::external_type_specification]
#[verifier::external_body]
pub struct ExProcessUniqueId(snowflake::ProcessUniqueId);

/// `snowflake::ProcessUniqueId` derives `Clone` beside `Copy`: a clone is the same value.
pub assume_specification[ <ProcessUniqueId as Clone>::clone ](a: &ProcessUniqueId) -> (r: ProcessUniqueId)
    ensures
        r == *a,
;

/// `std::time::Duration` derives `Clone` beside `Copy`: a clone is the same value.
pub assume_specification[ <Duration as Clone>::clone ](d: &Duration) -> (r: Duration)
    ensures
        r == *d,
;

/// Calls `snowflake::ProcessUniqueId::new`: a transmit identifier unique within the process.
/// Nothing is claimed of its value.
#[verifier::external_body]
pub fn new_tid() -> (tid: ProcessUniqueId) {
    ProcessUniqueId::new()
}

/// Calls the derived `PartialEq::eq` of `snowflake::ProcessUniqueId`, which compares every
/// field: two identifiers are equal exactly when they are the same value.
#[verifier::external_body]
pub(crate) fn same_tid(a: &ProcessUniqueId, b: &ProcessUniqueId) -> (r: bool)
    ensures
        r == (*a == *b),
{
    *a == *b
}

/// Formats `message` followed by `tid` as `snowflake::ProcessUniqueId`'s `Display` writes it.
/// Claimed: the text begins with `message`; how the identifier is written is not stated.
#[verifier::external_body]
pub(crate) fn message_with_tid(message: &str, tid: &ProcessUniqueId) -> (s: String)
    ensures
        s@.len() >= message@.len(),
        s@.subrange(0, message@.len() as int) == message@,
{
    format!("{}{}", message, tid)
}

/// Which end the transport layer serves; used in log lines.
#[derive(Debug, Clone, PartialEq, Eq, Structural)]
pub enum TransportMode {
    Client,
    Server,
}

impl TransportMode {
    /// One letter naming the mode in log lines: `c` for a client, `s` for a server.
    pub fn to_string(&self) -> (r: String)
        ensures
            r@ == if *self is Client { seq!['c'] } else { seq!['s'] },
    {
        if *self == TransportMode::Client {
            let s = String::from_str("c");
            proof { reveal_strlit("c"); }
            s
        } else {
            let s = String::from_str("s");
            proof { reveal_strlit("s"); }
            s
        }
    }
}

/// How the transport layer treats one packet to send.
#[derive(Debug, Clone)]
pub struct PacketSettings {
    /// Transmit identifier, shared by the filter and transport layers for this packet.
    pub tid: ProcessUniqueId,
    /// Time between retries; zero means the packet is sent once.
    pub retry_interval: Duration,
}

/// Commands from the filter layer to manage endpoints and their packets.
#[derive(Debug, Clone)]
pub enum TransportCmd {
    NewEndpoint { endpoint: Endpoint, timeout: Duration },
    SendPackets { endpoint: Endpoint, packet_infos: Vec<PacketSettings>, packets: Vec<Packet> },
    DropEndpoint { endpoint: Endpoint },
    DropPacket { endpoint: Endpoint, tid: ProcessUniqueId },
    CancelTransmitQueue { endpoint: Endpoint },
    Shutdown,
}

/// The transport layer's answer to each command.
#[derive(Debug, Clone)]
pub enum TransportRsp {
    Accepted,
    BufferFull,
    ExceedsMtu { tid: ProcessUniqueId, size: usize, mtu: usize },
    EndpointError { error: TransportEndpointDataError },
    SendPacketsLengthMismatch,
}

/// What the transport layer tells the filter layer.
#[derive(Debug, Clone)]
pub enum TransportNotice {
    /// A packet received from this endpoint.
    PacketDelivery { endpoint: Endpoint, packet: Packet },
    /// Nothing was received from this endpoint for longer than its timeout.
    EndpointTimeout { endpoint: Endpoint },
    /// More than half the timeout passed since a packet was received or sent; told again only
    /// after traffic and enough time.
    EndpointIdle { endpoint: Endpoint },
}

/// Failures of the transport layer's endpoint bookkeeping.
#[derive(Debug, Clone)]
pub enum TransportEndpointDataError {
    EndpointNotFound { endpoint: Endpoint, message: String },
    EndpointExists { endpoint: Endpoint, entry_found: Endpoint },
    TransmitIDNotFound { endpoint: Endpoint, tid: ProcessUniqueId },
    PacketRemovalFailure { endpoint: Endpoint, tid: ProcessUniqueId, index: usize },
    EndpointDropFailed { endpoint: Endpoint, message: String },
}

} // verus!
