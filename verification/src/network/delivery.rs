//! What is sent is what is received.

use crate::network::inbound_queue::{arrived, due, enqueued, in_arrival_order, QueuedView};
use crate::network::link::{marked, PacketAnomalies};
use crate::network::node::{EndpointView, NodeStatus};
use crate::network::NetworkView;
use crate::random::{drawn_u128, Roll};
use crate::search::{lemma_first_index, lemma_first_index_is, lemma_first_index_none};
use crate::time::Nanos;
use crate::transmit::{PacketView, TransmitView};
use vstd::prelude::*;

verus! {

/// Packets arrive unchanged: whatever happens to a packet on a link, nothing about it changes but
/// its congestion mark.
pub proof fn law_only_the_mark_changes(data: PacketView, anomalies: PacketAnomalies)
    ensures
        marked(data, anomalies) == (PacketView {
            transmit: TransmitView { ecn: marked(data, anomalies).transmit.ecn, ..data.transmit },
            ..data
        }),
        !anomalies.congestion_experienced ==> marked(data, anomalies) == data,
{
}

proof fn lemma_all_arrived(queue: Seq<QueuedView>, now: Nanos, n: int)
    requires
        in_arrival_order(queue),
        0 <= n <= queue.len(),
        forall|i: int| 0 <= i < n ==> (#[trigger] queue[i]).arrives_at <= now,
        n < queue.len() ==> queue[n].arrives_at > now,
    ensures
        arrived(queue, now) == n,
{
    let late = |p: QueuedView| p.arrives_at > now;
    if n < queue.len() {
        lemma_first_index_is(queue, late, n);
    } else {
        lemma_first_index_none(queue, late);
    }
}

/// A packet that is put in a queue on arrival can be read at once, behind the packets that arrived
/// before.
proof fn lemma_enqueued_can_be_read(queue: Seq<QueuedView>, packet: QueuedView, now: Nanos)
    requires
        in_arrival_order(queue),
        packet.arrives_at == now,
    ensures
        in_arrival_order(enqueued(queue, packet)),
        arrived(enqueued(queue, packet), now) == arrived(queue, now) + 1,
        0 <= arrived(queue, now) <= queue.len(),
        enqueued(queue, packet).take(arrived(queue, now) + 1) == queue.take(
            arrived(queue, now),
        ).push(packet),
{
    let k = arrived(queue, now);
    lemma_first_index(queue, |p: QueuedView| p.arrives_at > now);
    let after = enqueued(queue, packet);
    assert forall|i: int| 0 <= i < k implies (#[trigger] queue[i]).arrives_at <= now by {
        assert(!(|p: QueuedView| p.arrives_at > now)(queue[i]));
    }
    assert forall|i: int, j: int| 0 <= i <= j < after.len() implies (
    #[trigger] after[i]).arrives_at <= (#[trigger] after[j]).arrives_at by {
        let i0 = if i < k {
            i
        } else {
            i - 1
        };
        let j0 = if j < k {
            j
        } else {
            j - 1
        };
        if i != k && j != k {
            assert(queue[i0].arrives_at <= queue[j0].arrives_at);
        } else if i == k && j > k {
            assert(queue[k].arrives_at <= queue[j0].arrives_at);
        }
    }
    assert forall|i: int| 0 <= i < k + 1 implies (#[trigger] after[i]).arrives_at <= now by {}
    lemma_all_arrived(after, now, k + 1);
    assert(after.take(k + 1) =~= queue.take(k).push(packet));
}

/// A packet that reaches the node that it is destined for, and is not lost there, can be read at
/// once, behind the packets that reached the same port before. If the node duplicates it, so can the
/// duplicate, right behind it.
pub proof fn law_delivered_packets_can_be_read(
    network: NetworkView,
    node: int,
    data: PacketView,
    roll: Roll,
    now: Nanos,
    max: usize,
)
    requires
        network.wf(),
        0 <= node < network.nodes.len(),
        network.nodes[node].status == NodeStatus::Up,
        data.transmit.destination.ip == network.nodes[node].canonical_address,
        !network.nodes[node].loses(roll),
        network.nodes[node].with_endpoint(
            data.transmit.destination.port,
        ).udp_endpoints[network.nodes[node].endpoint_for(
            data.transmit.destination.port,
        )].inbound.len() + if network.nodes[node].duplicates(roll) {
            1int
        } else {
            0
        } < max,
    ensures
        ({
            let port = data.transmit.destination.port;
            let endpoint = network.nodes[node].endpoint_for(port);
            let inbound = network.nodes[node].with_endpoint(port).udp_endpoints[endpoint].inbound;
            let copy = PacketView { id: drawn_u128(roll.rng_state).1, duplicate: true, ..data };
            let read = inbound.take(arrived(inbound, now)).push(
                QueuedView { data, sent: now, arrives_at: now },
            );
            network.forwarded(node, data, roll, now).readable(node, endpoint, now, max)
                == if network.nodes[node].duplicates(roll) {
                read.push(QueuedView { data: copy, sent: now, arrives_at: now })
            } else {
                read
            }
        }),
{
    let n = network.nodes[node];
    assert(n.wf());
    let port = data.transmit.destination.port;
    let endpoint = n.endpoint_for(port);
    lemma_first_index(n.udp_endpoints, |e: EndpointView| e.addr.port == port);
    let inbound = n.with_endpoint(port).udp_endpoints[endpoint].inbound;
    assert(in_arrival_order(inbound));
    let packet = QueuedView { data, sent: now, arrives_at: now };
    lemma_enqueued_can_be_read(inbound, packet, now);
    let first = enqueued(inbound, packet);
    let once = n.delivered(now, data);
    assert(once.udp_endpoints[endpoint].inbound == first);
    if n.duplicates(roll) {
        let copy = PacketView { id: drawn_u128(roll.rng_state).1, duplicate: true, ..data };
        let second = QueuedView { data: copy, sent: now, arrives_at: now };
        let k = arrived(inbound, now);
        lemma_enqueued_can_be_read(first, second, now);
        // The endpoint of the port is there already
        let p = |e: EndpointView| e.addr.port == port;
        assert forall|j: int| 0 <= j < endpoint implies !p(#[trigger] once.udp_endpoints[j]) by {
            assert(!p(n.udp_endpoints[j]));
        }
        lemma_first_index_is(once.udp_endpoints, p, endpoint);
        assert(once.with_endpoint(port) == once);
        let after = network.forwarded(node, data, roll, now).nodes[node];
        assert(after == once.delivered(now, copy));
        assert(after.udp_endpoints[endpoint].inbound == enqueued(first, second));
    } else {
        assert(network.forwarded(node, data, roll, now).nodes[node] == once);
    }
}

/// Packets are read once: a reader with enough room leaves nothing behind that has arrived.
pub proof fn law_packets_are_read_once(
    network: NetworkView,
    node: int,
    endpoint: int,
    now: Nanos,
    max: usize,
)
    requires
        network.wf(),
        0 <= node < network.nodes.len(),
        0 <= endpoint < network.nodes[node].udp_endpoints.len(),
        arrived(network.nodes[node].udp_endpoints[endpoint].inbound, now) < max,
    ensures
        network.read(node, endpoint, now, max).readable(node, endpoint, now, max).len() == 0,
{
    assert(network.nodes[node].wf());
    let inbound = network.nodes[node].udp_endpoints[endpoint].inbound;
    let n = due(inbound, now, max);
    lemma_first_index(inbound, |p: QueuedView| p.arrives_at > now);
    let rest = inbound.skip(n);
    assert(network.read(node, endpoint, now, max).nodes[node].udp_endpoints[endpoint].inbound
        == rest);
    assert forall|i: int, j: int| 0 <= i <= j < rest.len() implies (#[trigger] rest[i]).arrives_at
        <= (#[trigger] rest[j]).arrives_at by {
        assert(inbound[i + n].arrives_at <= inbound[j + n].arrives_at);
    }
    lemma_all_arrived(rest, now, 0);
}

} // verus!
