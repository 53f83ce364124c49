//! When the retransmissions due to a peer can be collected without failing, and what
//! collecting them does to its network manager.
use vstd::prelude::*;
use crate::net::manager::{all_below, retransmission_outcome, sent_as, NetworkManager};
use crate::net::model::Packet;

verus! {

/// `after` and `out` are what retransmitting the packets of `before` at `indices` gives (see
/// `NetworkManager::get_expired_tx_packets`), each sent to `addr` and carrying `ack`.
pub open spec fn expired_outcome<A>(before: NetworkManager, after: NetworkManager, addr: A, ack: Option<u64>,
    indices: Seq<usize>, out: Seq<(Packet, A)>) -> bool {
    &&& after.rx_packets == before.rx_packets
    &&& after.rx_chat_messages == before.rx_chat_messages
    &&& after.statistics == before.statistics
    &&& after.tx_packets.buffer_wrap_index == before.tx_packets.buffer_wrap_index
    &&& exists|stop: int| {
        &&& 0 <= stop <= indices.len()
        &&& all_below(indices, before.tx_packets.queue@.len() as int, stop)
        &&& stop < indices.len() ==> indices[stop] >= before.tx_packets.queue@.len()
        &&& #[trigger] retransmission_outcome(before.tx_packets.queue@, before.tx_packets.attempts@,
            after.tx_packets.queue@, after.tx_packets.attempts@, indices, stop, ack)
        &&& sent_as(before.tx_packets.queue@, before.tx_packets.attempts@, indices, stop, ack, addr, out)
    }
}

/// Retransmitting the packets of `nm` at `indices` cannot fail: no retry count can overflow,
/// and every packet the walk reaches is a request or a response.
pub open spec fn expiry_safe(nm: NetworkManager, indices: Seq<usize>) -> bool {
    &&& forall|j: int| 0 <= j < nm.tx_packets.attempts@.len()
        ==> #[trigger] nm.tx_packets.attempts@[j].retries + 3 * indices.len() < usize::MAX
    &&& forall|k: int| 0 <= k < indices.len() && all_below(indices, nm.tx_packets.queue@.len() as int, k)
        && #[trigger] indices[k] < nm.tx_packets.queue@.len()
        ==> nm.tx_packets.queue@[indices[k] as int] is Request || nm.tx_packets.queue@[indices[k] as int] is Response
}

/// The concatenation of `parts`.
pub open spec fn flatten<T>(parts: Seq<Seq<T>>) -> Seq<T>
    decreases parts.len(),
{
    if parts.len() == 0 { Seq::empty() } else { flatten(parts.drop_last()) + parts.last() }
}

pub fn expiry_is_safe(nm: &NetworkManager, indices: &Vec<usize>) -> (r: bool)
    ensures
        r == expiry_safe(*nm, indices@),
{
    let n = indices.len();
    let attempts = &nm.tx_packets.attempts;
    let mut j: usize = 0;
    while j < attempts.len()
        invariant
            j <= attempts@.len(),
            n == indices@.len(),
            *attempts == nm.tx_packets.attempts,
            forall|i: int| 0 <= i < j ==> #[trigger] attempts@[i].retries + 3 * n < usize::MAX,
        decreases attempts@.len() - j,
    {
        if attempts[j].retries as u128 + 3 * (n as u128) >= usize::MAX as u128 {
            return false;
        }
        j = j + 1;
    }
    let q = &nm.tx_packets.queue;
    let mut k: usize = 0;
    while k < n
        invariant
            k <= n,
            n == indices@.len(),
            *q == nm.tx_packets.queue,
            forall|i: int| 0 <= i < nm.tx_packets.attempts@.len()
                ==> #[trigger] nm.tx_packets.attempts@[i].retries + 3 * n < usize::MAX,
            all_below(indices@, q@.len() as int, k as int),
            forall|i: int| 0 <= i < k ==> (q@[#[trigger] indices@[i] as int] is Request || q@[indices@[i] as int] is Response),
        decreases n - k,
    {
        let idx = indices[k];
        if idx >= q.len() {
            proof {
                assert forall|i: int| 0 <= i < n && all_below(indices@, q@.len() as int, i)
                    && #[trigger] indices@[i] < q@.len()
                    implies q@[indices@[i] as int] is Request || q@[indices@[i] as int] is Response by {
                    if i > k { assert(indices@[k as int] < q@.len()); }
                }
            }
            return true;
        }
        match &q[idx] {
            Packet::Request { .. } => {},
            Packet::Response { .. } => {},
            _ => {
                return false;
            },
        }
        k = k + 1;
    }
    true
}

} // verus!
