//! What becomes of a packet that arrives at a node, told by what the node holds before and after.

use crate::network::accounting::TicketState;
use crate::network::inbound_queue::{arrived, enqueued, in_arrival_order, QueuedView};
use crate::network::node::{EndpointView, NodeStatus, NodeView};
use crate::network::NetworkView;
use crate::random::{drawn_u128, Roll};
use crate::search::{lemma_first_index, lemma_first_index_is};
use crate::time::Nanos;
use crate::tracing::simulation_step::{
    DropReason, GenericPacketEvent, PacketDropped, PacketInNode, SimulationStep, SimulationStepKind,
};
use crate::transmit::PacketView;
use vstd::prelude::*;

verus! {

/// The time that has passed between two moments, if the second one is not the earlier one.
pub open spec fn time_between(start: Nanos, now: Nanos) -> int {
    if start <= now {
        now - start
    } else {
        0
    }
}

/// The step says that the packet is in the node, at the given time.
pub open spec fn says_in_node(
    step: SimulationStep,
    at: int,
    id: String,
    data: PacketView,
    dropped: bool,
) -> bool {
    &&& step.relative_time == at
    &&& step.kind == SimulationStepKind::PacketInNode(
        PacketInNode {
            packet_id: data.id,
            packet_number: data.number,
            packet_size_bytes: data.transmit.contents.len() as usize,
            node_id: id,
            dropped_on_arrival: dropped,
        },
    )
}

/// The step says that the node dropped the packet, at the given time.
pub open spec fn says_dropped(
    step: SimulationStep,
    at: int,
    id: String,
    data: PacketView,
    reason: DropReason,
) -> bool {
    &&& step.relative_time == at
    &&& step.kind == SimulationStepKind::PacketDropped(
        PacketDropped { packet_id: data.id, node_id: id, reason },
    )
}

/// The step says that the node made the copy, at the given time.
pub open spec fn says_duplicated(step: SimulationStep, at: int, id: String, copy: PacketView) -> bool {
    &&& step.relative_time == at
    &&& step.kind == SimulationStepKind::PacketDuplicated(
        GenericPacketEvent {
            packet_id: copy.id,
            packet_number: copy.number,
            packet_size_bytes: copy.transmit.contents.len() as usize,
            node_id: id,
        },
    )
}

/// Only the given node, the reservations and the record can differ between the two networks.
pub open spec fn only_node_differs(before: NetworkView, after: NetworkView, node: int) -> bool {
    &&& after.links == before.links
    &&& after.routes_by_addr == before.routes_by_addr
    &&& after.messages == before.messages
    &&& after.next_transmit_number == before.next_transmit_number
    &&& after.tracer.simulation_start == before.tracer.simulation_start
    &&& after.nodes.len() == before.nodes.len()
    &&& forall|n: int|
        0 <= n < before.nodes.len() && n != node ==> #[trigger] after.nodes[n] == before.nodes[n]
    &&& before.tickets.len() <= after.tickets.len()
    &&& forall|t: int|
        0 <= t < before.tickets.len() ==> #[trigger] after.tickets[t] == before.tickets[t]
    &&& before.tracer.steps.len() <= after.tracer.steps.len()
    &&& forall|s: int|
        0 <= s < before.tracer.steps.len() ==> #[trigger] after.tracer.steps[s]
            == before.tracer.steps[s]
}

/// The node holds the same as before, but for its outbound buffer.
pub open spec fn same_but_buffer(before: NodeView, after: NodeView) -> bool {
    &&& after.id == before.id
    &&& after.canonical_address == before.canonical_address
    &&& after.addresses == before.addresses
    &&& after.routes == before.routes
    &&& after.injected_failures == before.injected_failures
    &&& after.status == before.status
    &&& after.last_buffer_clear == before.last_buffer_clear
    &&& after.keylog == before.keylog
    &&& after.udp_endpoints == before.udp_endpoints
    &&& after.outbound_buffer.capacity == before.outbound_buffer.capacity
}

/// The packets stand at the end of the node's outbound buffer, behind all that was in it before. Each
/// has a reservation of its own, which says how much of the node's space it takes.
pub open spec fn newly_buffered(
    before: NetworkView,
    after: NetworkView,
    node: int,
    packets: Seq<PacketView>,
    now: Nanos,
) -> bool {
    let old_node = before.nodes[node];
    let new_node = after.nodes[node];
    &&& same_but_buffer(old_node, new_node)
    &&& new_node.outbound.len() == old_node.outbound.len() + packets.len()
    &&& forall|k: int|
        0 <= k < old_node.outbound.len() ==> #[trigger] new_node.outbound[k]
            == old_node.outbound[k]
    &&& after.tickets.len() == before.tickets.len() + packets.len()
    &&& forall|p: int|
        0 <= p < packets.len() ==> {
            let kept = new_node.outbound[old_node.outbound.len() + p];
            let ticket = after.tickets[before.tickets.len() + p];
            &&& kept.data == #[trigger] packets[p]
            &&& kept.in_node_since == now
            &&& kept.ticket == before.tickets.len() + p
            &&& ticket.node == node
            &&& ticket.size == packets[p].transmit.contents.len()
            &&& ticket.state == TicketState::Waiting
        }
}

/// An injected copy of a packet: it has an id of its own, which is drawn, and is marked as a
/// duplicate; in all else it is the packet.
pub open spec fn is_copy_of(copy: PacketView, data: PacketView, roll: Roll) -> bool {
    &&& copy.id == drawn_u128(roll.rng_state).1
    &&& copy.duplicate
    &&& copy.source_id == data.source_id
    &&& copy.transmit == data.transmit
    &&& copy.number == data.number
}

/// A node that is down keeps nothing of what arrives: it only records that the packet was dropped on
/// arrival. Nothing is drawn for the packet.
pub proof fn law_a_node_that_is_down_drops_what_arrives(
    network: NetworkView,
    node: int,
    data: PacketView,
    roll: Roll,
    now: Nanos,
)
    requires
        0 <= node < network.nodes.len(),
        network.nodes[node].status != NodeStatus::Up,
    ensures
        ({
            let after = network.forwarded(node, data, roll, now);
            let at = time_between(network.tracer.simulation_start, now);
            let n = network.tracer.steps.len() as int;
            &&& only_node_differs(network, after, node)
            &&& after.nodes == network.nodes
            &&& after.tickets == network.tickets
            &&& after.rng_state == network.rng_state
            &&& after.tracer.steps.len() == n + 1
            &&& says_in_node(after.tracer.steps[n], at, network.nodes[node].id, data, true)
        }),
{
}

/// A node that is up loses a packet exactly if the draw is smaller than the loss ratio: it records
/// the packet and its loss, and keeps nothing, whatever the packet's destination.
pub proof fn law_packets_are_lost_at_the_loss_ratio(
    network: NetworkView,
    node: int,
    data: PacketView,
    roll: Roll,
    now: Nanos,
)
    requires
        0 <= node < network.nodes.len(),
        network.nodes[node].status == NodeStatus::Up,
        roll.value.bits < network.nodes[node].injected_failures.packet_loss_ratio.bits,
    ensures
        ({
            let after = network.forwarded(node, data, roll, now);
            let at = time_between(network.tracer.simulation_start, now);
            let id = network.nodes[node].id;
            let n = network.tracer.steps.len() as int;
            &&& only_node_differs(network, after, node)
            &&& after.nodes == network.nodes
            &&& after.tickets == network.tickets
            &&& after.rng_state == roll.rng_state
            &&& after.tracer.steps.len() == n + 2
            &&& says_in_node(after.tracer.steps[n], at, id, data, false)
            &&& says_dropped(after.tracer.steps[n + 1], at, id, data, DropReason::Random)
        }),
{
}

/// A node that is up duplicates a packet exactly if the draw is not smaller than the loss ratio, but
/// smaller than the sum of the loss and the duplication ratio. If the packet is for another node, and
/// there is room for it and its copy, both are put in the outbound buffer, the copy last.
pub proof fn law_packets_are_duplicated_at_the_duplication_ratio(
    network: NetworkView,
    node: int,
    data: PacketView,
    roll: Roll,
    now: Nanos,
)
    requires
        0 <= node < network.nodes.len() <= usize::MAX,
        network.tickets.len() < usize::MAX,
        network.nodes[node].status == NodeStatus::Up,
        network.nodes[node].injected_failures.packet_loss_ratio.bits <= roll.value.bits
            < network.nodes[node].injected_failures.packet_loss_or_duplication_ratio.bits,
        data.transmit.destination.ip != network.nodes[node].canonical_address,
        data.transmit.contents.len() <= usize::MAX,
        network.nodes[node].outbound_buffer.used + 2 * data.transmit.contents.len()
            <= network.nodes[node].outbound_buffer.capacity,
    ensures
        ({
            let after = network.forwarded(node, data, roll, now);
            let at = time_between(network.tracer.simulation_start, now);
            let id = network.nodes[node].id;
            let n = network.tracer.steps.len() as int;
            let copy = after.nodes[node].outbound.last().data;
            &&& only_node_differs(network, after, node)
            &&& is_copy_of(copy, data, roll)
            &&& newly_buffered(network, after, node, seq![data, copy], now)
            &&& after.nodes[node].outbound_buffer.used == network.nodes[node].outbound_buffer.used
                + 2 * data.transmit.contents.len()
            &&& after.rng_state == drawn_u128(roll.rng_state).0
            &&& after.tracer.steps.len() == n + 2
            &&& says_in_node(after.tracer.steps[n], at, id, data, false)
            &&& says_duplicated(after.tracer.steps[n + 1], at, id, copy)
        }),
{
}

/// If there is room for a packet that is to be duplicated, but not for its copy too, the packet is
/// kept, and the copy is dropped because the buffer is full.
pub proof fn law_copies_that_do_not_fit_are_dropped(
    network: NetworkView,
    node: int,
    data: PacketView,
    copy: PacketView,
    roll: Roll,
    now: Nanos,
)
    requires
        0 <= node < network.nodes.len() <= usize::MAX,
        network.tickets.len() < usize::MAX,
        network.nodes[node].status == NodeStatus::Up,
        network.nodes[node].injected_failures.packet_loss_ratio.bits <= roll.value.bits
            < network.nodes[node].injected_failures.packet_loss_or_duplication_ratio.bits,
        data.transmit.destination.ip != network.nodes[node].canonical_address,
        data.transmit.contents.len() <= usize::MAX,
        network.nodes[node].outbound_buffer.used + data.transmit.contents.len()
            <= network.nodes[node].outbound_buffer.capacity,
        network.nodes[node].outbound_buffer.used + 2 * data.transmit.contents.len()
            > network.nodes[node].outbound_buffer.capacity,
        is_copy_of(copy, data, roll),
    ensures
        ({
            let after = network.forwarded(node, data, roll, now);
            let at = time_between(network.tracer.simulation_start, now);
            let id = network.nodes[node].id;
            let n = network.tracer.steps.len() as int;
            &&& only_node_differs(network, after, node)
            &&& newly_buffered(network, after, node, seq![data], now)
            &&& after.nodes[node].outbound_buffer.used == network.nodes[node].outbound_buffer.used
                + data.transmit.contents.len()
            &&& after.tracer.steps.len() == n + 3
            &&& says_in_node(after.tracer.steps[n], at, id, data, false)
            &&& says_duplicated(after.tracer.steps[n + 1], at, id, copy)
            &&& says_dropped(after.tracer.steps[n + 2], at, id, copy, DropReason::BufferFull)
        }),
{
}

/// A packet that is for another node, and that the draw spares, is put at the end of the outbound
/// buffer, as it is, if there is room for it.
pub proof fn law_packets_for_others_are_buffered(
    network: NetworkView,
    node: int,
    data: PacketView,
    roll: Roll,
    now: Nanos,
)
    requires
        0 <= node < network.nodes.len() <= usize::MAX,
        network.tickets.len() <= usize::MAX,
        network.nodes[node].status == NodeStatus::Up,
        network.nodes[node].injected_failures.packet_loss_ratio.bits <= roll.value.bits,
        network.nodes[node].injected_failures.packet_loss_or_duplication_ratio.bits
            <= roll.value.bits,
        data.transmit.destination.ip != network.nodes[node].canonical_address,
        data.transmit.contents.len() <= usize::MAX,
        network.nodes[node].outbound_buffer.used + data.transmit.contents.len()
            <= network.nodes[node].outbound_buffer.capacity,
    ensures
        ({
            let after = network.forwarded(node, data, roll, now);
            let at = time_between(network.tracer.simulation_start, now);
            let n = network.tracer.steps.len() as int;
            &&& only_node_differs(network, after, node)
            &&& newly_buffered(network, after, node, seq![data], now)
            &&& after.nodes[node].outbound_buffer.used == network.nodes[node].outbound_buffer.used
                + data.transmit.contents.len()
            &&& after.rng_state == roll.rng_state
            &&& after.tracer.steps.len() == n + 1
            &&& says_in_node(after.tracer.steps[n], at, network.nodes[node].id, data, false)
        }),
{
}

/// A packet that is for another node, and that the draw spares, is dropped if there is no room for
/// it, and only then; its copy is dropped as well, if it is to be duplicated.
pub proof fn law_packets_that_do_not_fit_are_dropped(
    network: NetworkView,
    node: int,
    data: PacketView,
    copy: PacketView,
    roll: Roll,
    now: Nanos,
)
    requires
        0 <= node < network.nodes.len(),
        network.nodes[node].status == NodeStatus::Up,
        network.nodes[node].injected_failures.packet_loss_ratio.bits <= roll.value.bits,
        data.transmit.destination.ip != network.nodes[node].canonical_address,
        network.nodes[node].outbound_buffer.used + data.transmit.contents.len()
            > network.nodes[node].outbound_buffer.capacity,
        is_copy_of(copy, data, roll),
    ensures
        ({
            let after = network.forwarded(node, data, roll, now);
            let at = time_between(network.tracer.simulation_start, now);
            let id = network.nodes[node].id;
            let n = network.tracer.steps.len() as int;
            let duplicated = roll.value.bits
                < network.nodes[node].injected_failures.packet_loss_or_duplication_ratio.bits;
            &&& only_node_differs(network, after, node)
            &&& after.nodes == network.nodes
            &&& after.tickets == network.tickets
            &&& says_in_node(after.tracer.steps[n], at, id, data, false)
            &&& says_dropped(after.tracer.steps[n + 1], at, id, data, DropReason::BufferFull)
            &&& after.tracer.steps.len() == if duplicated {
                n + 4
            } else {
                n + 2
            }
            &&& duplicated ==> says_duplicated(after.tracer.steps[n + 2], at, id, copy)
                && says_dropped(after.tracer.steps[n + 3], at, id, copy, DropReason::BufferFull)
        }),
{
}

/// The packets are in the queue, and nothing else is new in it. Packets that arrive later stay behind
/// them, all others in front of them.
pub open spec fn holds_arrivals(
    before: Seq<QueuedView>,
    after: Seq<QueuedView>,
    packets: Seq<PacketView>,
    now: Nanos,
) -> bool {
    exists|pos: int| #[trigger] holds_arrivals_at(before, after, packets, now, pos)
}

pub open spec fn holds_arrivals_at(
    before: Seq<QueuedView>,
    after: Seq<QueuedView>,
    packets: Seq<PacketView>,
    now: Nanos,
    pos: int,
) -> bool {
    &&& 0 <= pos <= before.len()
    &&& after.len() == before.len() + packets.len()
    &&& forall|k: int|
        0 <= k < pos ==> #[trigger] after[k] == before[k] && before[k].arrives_at <= now
    &&& forall|p: int|
        0 <= p < packets.len() ==> after[pos + p] == (QueuedView {
            data: #[trigger] packets[p],
            sent: now,
            arrives_at: now,
        })
    &&& forall|k: int|
        pos <= k < before.len() ==> #[trigger] before[k].arrives_at > now && after[k
            + packets.len()] == before[k]
}

/// The node delivers the packets to the endpoint of the port: the only one whose queue changes. It is
/// created if there is none.
pub open spec fn delivers(
    before: NodeView,
    after: NodeView,
    port: u16,
    packets: Seq<PacketView>,
    now: Nanos,
) -> bool {
    &&& after == NodeView { udp_endpoints: after.udp_endpoints, ..before }
    &&& exists|e: int| #[trigger] delivers_at(before, after, port, packets, now, e)
}

pub open spec fn delivers_at(
    before: NodeView,
    after: NodeView,
    port: u16,
    packets: Seq<PacketView>,
    now: Nanos,
    e: int,
) -> bool {
    &&& 0 <= e < after.udp_endpoints.len()
    &&& after.udp_endpoints[e].addr.port == port
    &&& forall|i: int| 0 <= i < e ==> (#[trigger] after.udp_endpoints[i]).addr.port != port
    &&& forall|i: int|
        0 <= i < before.udp_endpoints.len() && i != e ==> #[trigger] after.udp_endpoints[i]
            == before.udp_endpoints[i]
    &&& if e < before.udp_endpoints.len() {
        &&& after.udp_endpoints.len() == before.udp_endpoints.len()
        &&& after.udp_endpoints[e].addr == before.udp_endpoints[e].addr
        &&& holds_arrivals(
            before.udp_endpoints[e].inbound,
            after.udp_endpoints[e].inbound,
            packets,
            now,
        )
    } else {
        &&& e == before.udp_endpoints.len()
        &&& after.udp_endpoints.len() == e + 1
        &&& after.udp_endpoints[e].addr.ip == before.canonical_address
        &&& holds_arrivals(Seq::empty(), after.udp_endpoints[e].inbound, packets, now)
    }
}

/// A packet that arrives now is put behind all that have arrived, and in front of all that arrive
/// later.
proof fn lemma_arrives_now(queue: Seq<QueuedView>, data: PacketView, now: Nanos)
    requires
        in_arrival_order(queue),
    ensures
        holds_arrivals_at(
            queue,
            enqueued(queue, QueuedView { data, sent: now, arrives_at: now }),
            seq![data],
            now,
            arrived(queue, now),
        ),
        in_arrival_order(enqueued(queue, QueuedView { data, sent: now, arrives_at: now })),
{
    let late = |p: QueuedView| p.arrives_at > now;
    let pos = arrived(queue, now);
    lemma_first_index(queue, late);
    let packet = QueuedView { data, sent: now, arrives_at: now };
    let after = enqueued(queue, packet);
    assert(after[pos] == packet);
    assert forall|k: int| 0 <= k < pos implies #[trigger] after[k] == queue[k]
        && queue[k].arrives_at <= now by {
        assert(!late(queue[k]));
    }
    assert forall|k: int| pos <= k < queue.len() implies #[trigger] queue[k].arrives_at > now
        && after[k + 1] == queue[k] by {
        assert(queue[pos].arrives_at <= queue[k].arrives_at);
    }
    assert forall|i: int, j: int| 0 <= i <= j < after.len() implies (
    #[trigger] after[i]).arrives_at <= (#[trigger] after[j]).arrives_at by {
        let a = if i < pos { i } else { i - 1 };
        let b = if j < pos { j } else { j - 1 };
        if i < pos {
            assert(queue[i].arrives_at <= now);
        }
        if j > pos {
            assert(queue[j - 1].arrives_at > now);
        }
        if i != pos && j != pos {
            assert(queue[a].arrives_at <= queue[b].arrives_at);
        }
    }
}

/// Two packets that arrive now stand next to each other, in the order in which they arrived.
proof fn lemma_two_arrive_now(
    queue: Seq<QueuedView>,
    data: PacketView,
    copy: PacketView,
    now: Nanos,
)
    requires
        in_arrival_order(queue),
    ensures
        ({
            let first = enqueued(queue, QueuedView { data, sent: now, arrives_at: now });
            let second = enqueued(first, QueuedView { data: copy, sent: now, arrives_at: now });
            holds_arrivals_at(queue, second, seq![data, copy], now, arrived(queue, now))
        }),
{
    let first = enqueued(queue, QueuedView { data, sent: now, arrives_at: now });
    let second = enqueued(first, QueuedView { data: copy, sent: now, arrives_at: now });
    let pos = arrived(queue, now);
    lemma_arrives_now(queue, data, now);
    lemma_arrives_now(first, copy, now);
    let behind = arrived(first, now);
    assert(behind == pos + 1) by {
        lemma_first_index(first, |p: QueuedView| p.arrives_at > now);
        assert(first[pos].arrives_at <= now);
        if behind > pos + 1 {
            assert(first[pos + 1].arrives_at <= now);
            assert(queue[pos].arrives_at > now);
        }
        if behind <= pos {
            assert(first[behind].arrives_at <= now) by {
                if behind < pos {
                    assert(first[behind] == queue[behind]);
                }
            }
        }
    }
    assert forall|k: int| 0 <= k < pos implies #[trigger] second[k] == queue[k]
        && queue[k].arrives_at <= now by {
        assert(second[k] == first[k]);
        assert(first[k] == queue[k]);
    }
    assert forall|k: int| pos <= k < queue.len() implies #[trigger] queue[k].arrives_at > now
        && second[k + 2] == queue[k] by {
        assert(first[k + 1] == queue[k]);
        assert(second[k + 2] == first[k + 1]);
    }
    assert(second[pos] == first[pos]);
    assert(second[pos + 1].data == copy);
    let both = seq![data, copy];
    assert forall|p: int| 0 <= p < 2 implies second[pos + p] == (QueuedView {
        data: #[trigger] both[p],
        sent: now,
        arrives_at: now,
    }) by {
        assert(p == 0 || p == 1);
    }
    assert(second.len() == queue.len() + 2);
    assert(holds_arrivals_at(queue, second, both, now, pos));
}

proof fn lemma_delivered(node: NodeView, data: PacketView, now: Nanos)
    requires
        forall|i: int|
            0 <= i < node.udp_endpoints.len() ==> in_arrival_order(
                (#[trigger] node.udp_endpoints[i]).inbound,
            ),
    ensures
        delivers(
            node,
            node.delivered(now, data),
            data.transmit.destination.port,
            seq![data],
            now,
        ),
{
    let port = data.transmit.destination.port;
    let after = node.delivered(now, data);
    let e = node.endpoint_for(port);
    lemma_first_index(node.udp_endpoints, |e: EndpointView| e.addr.port == port);
    let queue = if e < node.udp_endpoints.len() {
        node.udp_endpoints[e].inbound
    } else {
        Seq::empty()
    };
    lemma_arrives_now(queue, data, now);
    assert(holds_arrivals(queue, after.udp_endpoints[e].inbound, seq![data], now));
    assert forall|i: int| 0 <= i < e implies (#[trigger] after.udp_endpoints[i]).addr.port
        != port by {
        assert(after.udp_endpoints[i] == node.udp_endpoints[i]);
    }
    assert(delivers_at(node, after, port, seq![data], now, e));
}

proof fn lemma_two_delivered(node: NodeView, data: PacketView, copy: PacketView, now: Nanos)
    requires
        forall|i: int|
            0 <= i < node.udp_endpoints.len() ==> in_arrival_order(
                (#[trigger] node.udp_endpoints[i]).inbound,
            ),
        copy.transmit == data.transmit,
    ensures
        delivers(
            node,
            node.delivered(now, data).delivered(now, copy),
            data.transmit.destination.port,
            seq![data, copy],
            now,
        ),
{
    let port = data.transmit.destination.port;
    let first = node.delivered(now, data);
    let after = first.delivered(now, copy);
    let e = node.endpoint_for(port);
    lemma_first_index(node.udp_endpoints, |e: EndpointView| e.addr.port == port);
    let queue = if e < node.udp_endpoints.len() {
        node.udp_endpoints[e].inbound
    } else {
        Seq::empty()
    };
    assert(first.endpoint_for(port) == e) by {
        assert forall|j: int| 0 <= j < e implies (#[trigger] first.udp_endpoints[j]).addr.port
            != port by {
            assert(first.udp_endpoints[j] == node.udp_endpoints[j]);
        }
        lemma_first_index_is(first.udp_endpoints, |e: EndpointView| e.addr.port == port, e);
    }
    lemma_two_arrive_now(queue, data, copy, now);
    assert(holds_arrivals(queue, after.udp_endpoints[e].inbound, seq![data, copy], now));
    assert forall|i: int| 0 <= i < e implies (#[trigger] after.udp_endpoints[i]).addr.port
        != port by {
        assert(after.udp_endpoints[i] == node.udp_endpoints[i]);
    }
    assert(delivers_at(node, after, port, seq![data, copy], now, e));
}

/// A packet that is for the node, and that the draw does not make it lose, is delivered to the
/// endpoint of the port that it is destined for, and can be read at once. If the draw asks for it, a
/// copy is delivered right behind it. Nothing is put in the outbound buffer.
pub proof fn law_packets_for_the_node_are_delivered(
    network: NetworkView,
    node: int,
    data: PacketView,
    copy: PacketView,
    roll: Roll,
    now: Nanos,
)
    requires
        network.wf(),
        0 <= node < network.nodes.len(),
        network.nodes[node].status == NodeStatus::Up,
        network.nodes[node].injected_failures.packet_loss_ratio.bits <= roll.value.bits,
        data.transmit.destination.ip == network.nodes[node].canonical_address,
        is_copy_of(copy, data, roll),
    ensures
        ({
            let after = network.forwarded(node, data, roll, now);
            let at = time_between(network.tracer.simulation_start, now);
            let id = network.nodes[node].id;
            let n = network.tracer.steps.len() as int;
            let duplicated = roll.value.bits
                < network.nodes[node].injected_failures.packet_loss_or_duplication_ratio.bits;
            &&& only_node_differs(network, after, node)
            &&& after.tickets == network.tickets
            &&& delivers(
                network.nodes[node],
                after.nodes[node],
                data.transmit.destination.port,
                if duplicated {
                    seq![data, copy]
                } else {
                    seq![data]
                },
                now,
            )
            &&& says_in_node(after.tracer.steps[n], at, id, data, false)
            &&& after.tracer.steps.len() == if duplicated {
                n + 2
            } else {
                n + 1
            }
            &&& duplicated ==> says_duplicated(after.tracer.steps[n + 1], at, id, copy)
        }),
{
    let n = network.nodes[node];
    assert(n.wf());
    assert(copy == PacketView { id: copy.id, duplicate: true, ..data });
    lemma_delivered(n, data, now);
    lemma_two_delivered(n, data, copy, now);
}

} // verus!
