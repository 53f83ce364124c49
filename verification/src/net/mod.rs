//! First protocol generation: data model, reordering queues and the network manager.

pub mod model;

pub use model::{
    packet_is_sequenced, packet_seq, packet_with_ack, BroadcastChatMessage, ClientOptionValue, GameOptions, GameOutcome, GameUpdate,
    GenPartInfo, GenStateDiffPart, NetRegion, NetwaystePacketCodec, Packet, PingPong, PlayerInfo, RequestAction,
    ResponseCode, RoomList, UniUpdate,
};
pub mod queue;
pub mod manager;
pub mod expiry;
pub mod event;
pub mod version;

pub use event::NetwaysteEvent;
pub use manager::{has_connection_timed_out, NetworkManager, NetworkStatistics, TIMEOUT_IN_SECONDS};
pub use queue::{NetAttempt, NetQueue, NetworkQueue, Sequenced, NETWORK_QUEUE_LENGTH};
pub use version::{get_version, VERSION};
