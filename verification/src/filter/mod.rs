//! The filter layer: ordering, deduplication and acknowledgement of packets exchanged with
//! each peer, plus latency measurement.

pub mod client_update;
pub mod error;
pub mod filter;
pub mod interface;
pub mod per_endpoint;
pub mod ping;
pub mod server_status;
pub mod server_update;
pub mod sortedbuffer;

pub use filter::{determine_seq_num_advancement, is_seq_sufficiently_far_away, SeqNumAdvancement};
pub use interface::{command_reply, AuthDecision, ClientAuthFields, CommandReply, FilterCmd, FilterMode, FilterNotice, FilterRsp, Phase};
pub use ping::{LatencyFilter, PingPong};
pub use server_status::ServerStatus;
pub use sortedbuffer::SequencedMinHeap;
pub use server_update::{compress_and_split_gen_state_diff, ChatMessage, ServerRoom, UnackedQueue};
pub use error::FilterError;
