//! Every packet that is dropped has been seen in a node before.

use crate::network::event::{LinkEventPayload, NetworkEventKind, NetworkEvents, NodeEventPayload};
use crate::network::laws::law_links_are_fifo;
use crate::network::link::{LinkEvent, LinkView, NetworkLink};
use crate::network::node::{is_new_node, BufferedView, NodeStatus, NodeView};
use crate::network::routing::law_links_lead_towards_destination;
use crate::network::setup::{is_initial, is_initialized, link_ends};
use crate::network::spec::NetworkSpec;
use crate::network::NetworkView;
use crate::random::Roll;
use crate::search::lemma_first_index;
use crate::time::Nanos;
use crate::tracing::simulation_step::{SimulationStep, SimulationStepKind};
use crate::tracing::simulation_stepper::{drops_have_sender, hop_of, hops};
use crate::tracing::tracer::TracerView;
use crate::transmit::{PacketId, PacketView};
use vstd::prelude::*;

verus! {

/// The packet has been seen in a node.
pub open spec fn was_seen(steps: Seq<SimulationStep>, id: PacketId) -> bool {
    hops(steps, id).len() > 0
}

/// A packet with the given id waits in a node or at a link.
pub open spec fn waits(network: NetworkView, id: PacketId) -> bool {
    ||| exists|n: int, k: int|
        0 <= n < network.nodes.len() && 0 <= k < network.nodes[n].outbound.len() && (
        #[trigger] network.nodes[n].outbound[k]).data.id == id
    ||| exists|l: int, k: int|
        0 <= l < network.links.len() && 0 <= k < network.links[l].outgoing.len() && (
        #[trigger] network.links[l].outgoing[k]).data.id == id
    ||| exists|l: int|
        0 <= l < network.links.len() && ((#[trigger] network.links[l]).current matches Some(p)
            && p.data.id == id)
}

/// Every packet that waits, and every packet that was dropped, has been seen in a node.
pub open spec fn packets_are_traced(network: NetworkView) -> bool {
    &&& forall|id: PacketId| #[trigger]
        waits(network, id) ==> was_seen(network.tracer.steps, id)
    &&& drops_have_sender(network.tracer.steps)
}

proof fn lemma_hops_push(steps: Seq<SimulationStep>, step: SimulationStep, id: PacketId)
    ensures
        hops(steps.push(step), id) == match hop_of(step, id) {
            Some(hop) => hops(steps, id).push(hop),
            None => hops(steps, id),
        },
{
    let f = |s: SimulationStep| hop_of(s, id);
    let all = steps.push(step);
    let n = steps.len() as int;
    all.lemma_filter_map_take_succ(f, n);
    assert(all.take(n) =~= steps);
    assert(all.take(n + 1) =~= all);
}

/// A step that is no drop, or the drop of a packet that was seen, keeps all drops explained.
pub(crate) proof fn lemma_record(tracer: TracerView, now: Nanos, kind: SimulationStepKind)
    requires
        drops_have_sender(tracer.steps),
        kind matches SimulationStepKind::PacketDropped(s) ==> was_seen(tracer.steps, s.packet_id),
    ensures
        drops_have_sender(tracer.record(now, kind).steps),
        forall|id: PacketId| #[trigger]
            was_seen(tracer.steps, id) ==> was_seen(tracer.record(now, kind).steps, id),
{
    let before = tracer.steps;
    let after = tracer.record(now, kind).steps;
    assert forall|id: PacketId| #[trigger] was_seen(before, id) implies was_seen(after, id) by {
        lemma_hops_push(before, after.last(), id);
    }
    assert forall|i: int| 0 <= i < after.len() implies (
    #[trigger] after[i].kind matches SimulationStepKind::PacketDropped(s) ==> hops(
        after,
        s.packet_id,
    ).len() > 0) by {
        if i < before.len() {
            assert(after[i] == before[i]);
            if let SimulationStepKind::PacketDropped(s) = before[i].kind {
                assert(hops(before, s.packet_id).len() > 0);
                assert(was_seen(before, s.packet_id));
                assert(was_seen(after, s.packet_id));
            }
        } else if let SimulationStepKind::PacketDropped(s) = kind {
            assert(was_seen(after, s.packet_id));
        }
    }
}

/// Whatever waits now has waited before or has been seen, and the record has only grown.
pub(crate) proof fn lemma_still_traced(before: NetworkView, after: NetworkView)
    requires
        packets_are_traced(before),
        drops_have_sender(after.tracer.steps),
        forall|id: PacketId| #[trigger]
            was_seen(before.tracer.steps, id) ==> was_seen(after.tracer.steps, id),
        forall|id: PacketId| #[trigger]
            waits(after, id) ==> waits(before, id) || was_seen(before.tracer.steps, id),
    ensures
        packets_are_traced(after),
{
    assert forall|id: PacketId| #[trigger] waits(after, id) implies was_seen(
        after.tracer.steps,
        id,
    ) by {
        if waits(before, id) {
            assert(was_seen(before.tracer.steps, id));
        }
    }
}

/// Packets only wait where they have waited before.
pub(crate) open spec fn same_waiting(before: NetworkView, after: NetworkView) -> bool {
    &&& after.nodes.len() == before.nodes.len()
    &&& forall|n: int|
        0 <= n < before.nodes.len() ==> (#[trigger] after.nodes[n]).outbound
            == before.nodes[n].outbound
    &&& after.links.len() == before.links.len()
    &&& forall|l: int|
        0 <= l < before.links.len() ==> {
            let link = #[trigger] after.links[l];
            &&& link.outgoing == before.links[l].outgoing
            &&& link.current is None || link.current == before.links[l].current
        }
}

pub(crate) proof fn lemma_same_waiting(before: NetworkView, after: NetworkView)
    requires
        same_waiting(before, after),
    ensures
        forall|id: PacketId| #[trigger] waits(after, id) ==> waits(before, id),
{
    assert forall|id: PacketId| #[trigger] waits(after, id) implies waits(before, id) by {
        if exists|n: int, k: int|
            0 <= n < after.nodes.len() && 0 <= k < after.nodes[n].outbound.len() && (
            #[trigger] after.nodes[n].outbound[k]).data.id == id {
            let (n, k) = choose|n: int, k: int|
                0 <= n < after.nodes.len() && 0 <= k < after.nodes[n].outbound.len() && (
                #[trigger] after.nodes[n].outbound[k]).data.id == id;
            assert(before.nodes[n].outbound[k].data.id == id);
        } else if exists|l: int, k: int|
            0 <= l < after.links.len() && 0 <= k < after.links[l].outgoing.len() && (
            #[trigger] after.links[l].outgoing[k]).data.id == id {
            let (l, k) = choose|l: int, k: int|
                0 <= l < after.links.len() && 0 <= k < after.links[l].outgoing.len() && (
                #[trigger] after.links[l].outgoing[k]).data.id == id;
            assert(before.links[l].outgoing[k].data.id == id);
        } else {
            let l = choose|l: int|
                0 <= l < after.links.len() && ((
                #[trigger] after.links[l]).current matches Some(p) && p.data.id == id);
            assert(before.links[l].current == after.links[l].current);
        }
    }
}

/// A node that keeps a packet that was seen, and a duplicate only where it is delivered, keeps all
/// packets traced.
proof fn lemma_taking_in_keeps_traced(
    network: NetworkView,
    node: int,
    data: PacketView,
    now: Nanos,
)
    requires
        packets_are_traced(network),
        0 <= node < network.nodes.len(),
        was_seen(network.tracer.steps, data.id) || data.transmit.destination.ip
            == network.nodes[node].canonical_address,
    ensures
        packets_are_traced(network.taken_in(node, data, now)),
        forall|id: PacketId| #[trigger]
            was_seen(network.tracer.steps, id) ==> was_seen(
                network.taken_in(node, data, now).tracer.steps,
                id,
            ),
{
    let after = network.taken_in(node, data, now);
    if data.transmit.destination.ip == network.nodes[node].canonical_address {
        lemma_same_waiting(network, after);
    } else if after.tracer.steps.len() > network.tracer.steps.len() {
        let kind = after.tracer.steps.last().kind;
        assert(after.tracer.steps == network.tracer.record(now, kind).steps);
        lemma_record(network.tracer, now, kind);
        lemma_same_waiting(network, after);
    } else {
        assert(after.tracer.steps == network.tracer.steps);
        let added = BufferedView {
            in_node_since: now,
            data,
            ticket: network.tickets.len() as usize,
        };
        assert forall|id: PacketId| #[trigger] waits(after, id) implies waits(network, id)
            || was_seen(network.tracer.steps, id) by {
            if exists|n: int, k: int|
                0 <= n < after.nodes.len() && 0 <= k < after.nodes[n].outbound.len() && (
                #[trigger] after.nodes[n].outbound[k]).data.id == id {
                let (n, k) = choose|n: int, k: int|
                    0 <= n < after.nodes.len() && 0 <= k < after.nodes[n].outbound.len() && (
                    #[trigger] after.nodes[n].outbound[k]).data.id == id;
                if n == node && k == network.nodes[n].outbound.len() {
                    assert(after.nodes[n].outbound[k] == added);
                } else {
                    assert(network.nodes[n].outbound[k].data.id == id);
                }
            } else if exists|l: int, k: int|
                0 <= l < after.links.len() && 0 <= k < after.links[l].outgoing.len() && (
                #[trigger] after.links[l].outgoing[k]).data.id == id {
                let (l, k) = choose|l: int, k: int|
                    0 <= l < after.links.len() && 0 <= k < after.links[l].outgoing.len() && (
                    #[trigger] after.links[l].outgoing[k]).data.id == id;
                assert(network.links[l].outgoing[k].data.id == id);
            } else {
                let l = choose|l: int|
                    0 <= l < after.links.len() && ((
                    #[trigger] after.links[l]).current matches Some(p) && p.data.id == id);
                assert(network.links[l].current == after.links[l].current);
            }
        }
    }
    lemma_still_traced(network, after);
}

/// Recording a step keeps all packets traced, unless it is the drop of a packet that was not seen.
pub(crate) proof fn lemma_recording_keeps_traced(
    network: NetworkView,
    after: NetworkView,
    now: Nanos,
    kind: SimulationStepKind,
)
    requires
        packets_are_traced(network),
        kind matches SimulationStepKind::PacketDropped(s) ==> was_seen(
            network.tracer.steps,
            s.packet_id,
        ),
        after.nodes == network.nodes,
        after.links == network.links,
        after.tracer.steps == network.tracer.record(now, kind).steps,
    ensures
        packets_are_traced(after),
        forall|id: PacketId| #[trigger]
            was_seen(network.tracer.steps, id) ==> was_seen(after.tracer.steps, id),
{
    lemma_record(network.tracer, now, kind);
    lemma_same_waiting(network, after);
    lemma_still_traced(network, after);
}

/// A packet that arrives at a node is seen there, and all packets stay traced, unless the node
/// injects a duplicate that it has to pass on: a duplicate is not seen before it reaches the next
/// node.
pub proof fn law_forwarding_keeps_packets_traced(
    network: NetworkView,
    node: int,
    data: PacketView,
    roll: Roll,
    now: Nanos,
)
    requires
        packets_are_traced(network),
        0 <= node < network.nodes.len(),
        network.nodes[node].status == NodeStatus::Down || !network.nodes[node].duplicates(roll)
            || data.transmit.destination.ip == network.nodes[node].canonical_address,
    ensures
        packets_are_traced(network.forwarded(node, data, roll, now)),
        was_seen(network.forwarded(node, data, roll, now).tracer.steps, data.id),
{
    let n = network.nodes[node];
    let down = n.status == NodeStatus::Down;
    let seen = NetworkView {
        tracer: network.tracer.packet_in_node(now, n.id, data, down),
        ..network
    };
    lemma_recording_keeps_traced(network, seen, now, seen.tracer.steps.last().kind);
    lemma_hops_push(network.tracer.steps, seen.tracer.steps.last(), data.id);
    assert(was_seen(seen.tracer.steps, data.id));
    if !down {
        let after = seen.admitted(node, data, roll, now);
        if n.loses(roll) {
            lemma_recording_keeps_traced(seen, after, now, after.tracer.steps.last().kind);
        } else if n.duplicates(roll) {
            let (rng_state, id) = crate::random::drawn_u128(roll.rng_state);
            let copy = PacketView { id, duplicate: true, ..data };
            let rolled = NetworkView { rng_state, ..seen };
            lemma_same_waiting(seen, rolled);
            lemma_still_traced(seen, rolled);
            lemma_taking_in_keeps_traced(rolled, node, data, now);
            let first = rolled.taken_in(node, data, now);
            let told = NetworkView {
                tracer: first.tracer.injected_failures(now, n.id, copy, true, 0, false),
                ..first
            };
            lemma_recording_keeps_traced(first, told, now, told.tracer.steps.last().kind);
            lemma_taking_in_keeps_traced(told, node, copy, now);
        } else {
            let rolled = NetworkView { rng_state: roll.rng_state, ..seen };
            lemma_same_waiting(seen, rolled);
            lemma_still_traced(seen, rolled);
            lemma_taking_in_keeps_traced(rolled, node, data, now);
        }
    }
}

proof fn lemma_handing_keeps_waiting(
    network: NetworkView,
    node: int,
    packet: BufferedView,
    links: Seq<usize>,
    rolls: Seq<(Roll, Roll)>,
    count: nat,
)
    requires
        count <= links.len(),
        forall|k: int| 0 <= k < links.len() ==> #[trigger] links[k] < network.links.len(),
    ensures
        ({
            let after = network.handed_to_links(node, packet, links, rolls, count);
            &&& after.tracer == network.tracer
            &&& after.nodes == network.nodes
            &&& after.links.len() == network.links.len()
            &&& forall|id: PacketId| #[trigger]
                waits(after, id) ==> waits(network, id) || id == packet.data.id
        }),
    decreases count,
{
    if count > 0 {
        lemma_handing_keeps_waiting(network, node, packet, links, rolls, (count - 1) as nat);
        let before = network.handed_to_links(node, packet, links, rolls, (count - 1) as nat);
        let link = links[count - 1] as int;
        let after = before.handed_to_link(node, packet, links, link, rolls[count - 1]);
        assert forall|id: PacketId| #[trigger] waits(after, id) implies waits(network, id) || id
            == packet.data.id by {
            if exists|n: int, k: int|
                0 <= n < after.nodes.len() && 0 <= k < after.nodes[n].outbound.len() && (
                #[trigger] after.nodes[n].outbound[k]).data.id == id {
                let (n, k) = choose|n: int, k: int|
                    0 <= n < after.nodes.len() && 0 <= k < after.nodes[n].outbound.len() && (
                    #[trigger] after.nodes[n].outbound[k]).data.id == id;
                assert(before.nodes[n].outbound[k].data.id == id);
                assert(waits(before, id));
            } else if exists|l: int, k: int|
                0 <= l < after.links.len() && 0 <= k < after.links[l].outgoing.len() && (
                #[trigger] after.links[l].outgoing[k]).data.id == id {
                let (l, k) = choose|l: int, k: int|
                    0 <= l < after.links.len() && 0 <= k < after.links[l].outgoing.len() && (
                    #[trigger] after.links[l].outgoing[k]).data.id == id;
                if k < before.links[l].outgoing.len() {
                    assert(before.links[l].outgoing[k].data.id == id);
                    assert(waits(before, id));
                }
            } else {
                let l = choose|l: int|
                    0 <= l < after.links.len() && ((
                    #[trigger] after.links[l]).current matches Some(p) && p.data.id == id);
                assert(before.links[l].current == after.links[l].current);
                assert(waits(before, id));
            }
        }
    }
}

/// A node that hands a packet to links keeps all packets traced.
pub proof fn law_dispatching_keeps_packets_traced(
    network: NetworkView,
    node: int,
    rolls: Seq<(Roll, Roll)>,
)
    requires
        packets_are_traced(network),
        0 <= node < network.nodes.len(),
        network.nodes[node].outbound.len() > 0,
        network.links.len() <= usize::MAX,
    ensures
        packets_are_traced(network.dispatched(node, rolls)),
{
    let n = network.nodes[node];
    let links = network.next_links(node);
    let popped = NetworkView {
        nodes: network.nodes.update(node, NodeView { outbound: n.outbound.skip(1), ..n }),
        ..network
    };
    let after = network.dispatched(node, rolls);
    let id = n.outbound[0].data.id;
    assert(network.nodes[node].outbound[0].data.id == id);
    assert(waits(network, id));
    assert forall|k: int| 0 <= k < links.len() implies #[trigger] links[k] < popped.links.len() by {
        assert(links.contains(links[k]));
        law_links_lead_towards_destination(
            network.links,
            network.routes_by_addr,
            n.addresses,
            n.outbound[0].data.transmit.destination.ip,
            links[k],
        );
    }
    lemma_handing_keeps_waiting(popped, node, n.outbound[0], links, rolls, links.len());
    assert forall|id: PacketId| #[trigger] waits(popped, id) implies waits(network, id) by {
        if exists|m: int, k: int|
            0 <= m < popped.nodes.len() && 0 <= k < popped.nodes[m].outbound.len() && (
            #[trigger] popped.nodes[m].outbound[k]).data.id == id {
            let (m, k) = choose|m: int, k: int|
                0 <= m < popped.nodes.len() && 0 <= k < popped.nodes[m].outbound.len() && (
                #[trigger] popped.nodes[m].outbound[k]).data.id == id;
            if m == node {
                assert(network.nodes[m].outbound[k + 1].data.id == id);
            } else {
                assert(network.nodes[m].outbound[k].data.id == id);
            }
        } else if exists|l: int, k: int|
            0 <= l < popped.links.len() && 0 <= k < popped.links[l].outgoing.len() && (
            #[trigger] popped.links[l].outgoing[k]).data.id == id {
            let (l, k) = choose|l: int, k: int|
                0 <= l < popped.links.len() && 0 <= k < popped.links[l].outgoing.len() && (
                #[trigger] popped.links[l].outgoing[k]).data.id == id;
            assert(network.links[l].outgoing[k].data.id == id);
        } else {
            let l = choose|l: int|
                0 <= l < popped.links.len() && ((
                #[trigger] popped.links[l]).current matches Some(p) && p.data.id == id);
            assert(network.links[l].current == popped.links[l].current);
        }
    }
    lemma_still_traced(network, after);
}

/// Whatever a link does next, all packets stay traced.
pub proof fn law_steps_keep_packets_traced(
    network: NetworkView,
    link: int,
    event: LinkEvent,
    now: Nanos,
    packet_delay: Nanos,
)
    requires
        network.wf(),
        packets_are_traced(network),
        0 <= link < network.links.len(),
        link <= usize::MAX,
    ensures
        ({
            let next = network.links[link].step(
                link as usize,
                event,
                network.link_packet_handled(link),
                network.link_packet_node_down(link),
                now,
                packet_delay,
            ).0;
            packets_are_traced(NetworkView { links: network.links.update(link, next), ..network })
        }),
{
    let handled = network.link_packet_handled(link);
    let node_down = network.link_packet_node_down(link);
    let before = network.links[link];
    let next = before.step(link as usize, event, handled, node_down, now, packet_delay).0;
    let after = NetworkView { links: network.links.update(link, next), ..network };
    law_links_are_fifo(before, link as usize, event, handled, node_down, now, packet_delay);
    assert forall|id: PacketId| #[trigger] waits(after, id) implies waits(network, id) by {
        if exists|n: int, k: int|
            0 <= n < after.nodes.len() && 0 <= k < after.nodes[n].outbound.len() && (
            #[trigger] after.nodes[n].outbound[k]).data.id == id {
            let (n, k) = choose|n: int, k: int|
                0 <= n < after.nodes.len() && 0 <= k < after.nodes[n].outbound.len() && (
                #[trigger] after.nodes[n].outbound[k]).data.id == id;
            assert(network.nodes[n].outbound[k].data.id == id);
        } else if exists|l: int, k: int|
            0 <= l < after.links.len() && 0 <= k < after.links[l].outgoing.len() && (
            #[trigger] after.links[l].outgoing[k]).data.id == id {
            let (l, k) = choose|l: int, k: int|
                0 <= l < after.links.len() && 0 <= k < after.links[l].outgoing.len() && (
                #[trigger] after.links[l].outgoing[k]).data.id == id;
            if l == link {
                let skipped = before.outgoing.len() - next.outgoing.len();
                assert(next.outgoing[k] == before.outgoing[k + skipped]);
                assert(network.links[l].outgoing[k + skipped].data.id == id);
            } else {
                assert(network.links[l].outgoing[k].data.id == id);
            }
        } else {
            let l = choose|l: int|
                0 <= l < after.links.len() && ((
                #[trigger] after.links[l]).current matches Some(p) && p.data.id == id);
            if l == link {
                if before.current is None {
                    assert(network.links[l].outgoing[0].data.id == id);
                } else {
                    assert(network.links[l].current->0.data.id == id);
                }
            } else {
                assert(network.links[l].current == after.links[l].current);
            }
        }
    }
    lemma_still_traced(network, after);
}

/// Whatever a link completes, all packets stay traced.
pub proof fn law_completing_keeps_packets_traced(
    network: NetworkView,
    link: int,
    now: Nanos,
    packet_delay: Nanos,
)
    requires
        network.wf(),
        packets_are_traced(network),
        0 <= link < network.links.len(),
        network.can_complete(link, now, packet_delay),
    ensures
        packets_are_traced(network.completed(link, now, packet_delay)),
{
    let after = network.completed(link, now, packet_delay);
    let packet = network.links[link].current->0;
    assert(waits(network, packet.data.id)) by {
        assert(network.links[link].current is Some);
    }
    assert(was_seen(network.tracer.steps, packet.data.id));
    if after.tracer.steps.len() > network.tracer.steps.len() {
        let kind = after.tracer.steps.last().kind;
        assert(after.tracer == network.tracer.record(now, kind));
        lemma_record(network.tracer, now, kind);
    }
    lemma_same_waiting(network, after);
    lemma_still_traced(network, after);
}

/// Whatever network events change, all packets stay traced.
pub proof fn law_events_keep_packets_traced(
    network: NetworkView,
    event: NetworkEventKind,
    now: Nanos,
)
    requires
        packets_are_traced(network),
    ensures
        packets_are_traced(network.event_processed(event, now)),
{
    let after = network.event_processed(event, now);
    match event {
        NetworkEventKind::Link(link) => {
            lemma_first_index(network.links, |l: LinkView| l.id@ == link.link_id@);
        },
        NetworkEventKind::Node(node) => {
            lemma_first_index(network.nodes, |n: NodeView| n.id@ == node.node_id@);
        },
    }
    if after.tracer != network.tracer {
        let kind = after.tracer.steps.last().kind;
        assert(after.tracer == network.tracer.record(now, kind));
        lemma_record(network.tracer, now, kind);
    }
    lemma_same_waiting(network, after);
    lemma_still_traced(network, after);
}

proof fn lemma_link_events_keep_traced(
    network: NetworkView,
    events: Seq<LinkEventPayload>,
    now: Nanos,
)
    requires
        packets_are_traced(network),
    ensures
        packets_are_traced(network.link_events_processed(events, now)),
    decreases events.len(),
{
    if events.len() > 0 {
        lemma_link_events_keep_traced(network, events.drop_last(), now);
        law_events_keep_packets_traced(
            network.link_events_processed(events.drop_last(), now),
            NetworkEventKind::Link(events.last()),
            now,
        );
    }
}

proof fn lemma_node_events_keep_traced(
    network: NetworkView,
    events: Seq<NodeEventPayload>,
    now: Nanos,
)
    requires
        packets_are_traced(network),
    ensures
        packets_are_traced(network.node_events_processed(events, now)),
    decreases events.len(),
{
    if events.len() > 0 {
        lemma_node_events_keep_traced(network, events.drop_last(), now);
        law_events_keep_packets_traced(
            network.node_events_processed(events.drop_last(), now),
            NetworkEventKind::Node(events.last()),
            now,
        );
    }
}

/// In a network that has just been set up with an empty record, all packets are traced.
pub proof fn law_new_network_has_packets_traced(
    network: NetworkView,
    spec: NetworkSpec,
    events: NetworkEvents,
    tracer: TracerView,
    rng_state: u64,
    now: Nanos,
)
    requires
        is_initialized(network, spec, events, tracer, rng_state, now),
        tracer.steps.len() == 0,
    ensures
        packets_are_traced(network),
{
    let initial = choose|initial: NetworkView| #[trigger]
        is_initial(initial, spec, tracer, rng_state, now) && network
            == initial.link_events_processed(
            events.initial_link_events@,
            now,
        ).node_events_processed(events.initial_node_events@, now);
    assert forall|id: PacketId| !(#[trigger] waits(initial, id)) by {
        assert forall|n: int| 0 <= n < initial.nodes.len() implies (
        #[trigger] initial.nodes[n]).outbound.len() == 0 by {
            assert(is_new_node(initial.nodes[n], spec.nodes@[n], link_ends(spec.links@)));
        }
        assert forall|l: int| 0 <= l < initial.links.len() implies (
        #[trigger] initial.links[l]).outgoing.len() == 0 && initial.links[l].current is None by {
            assert(initial.links[l] == NetworkLink::of_spec(spec.links@[l], now));
        }
    }
    assert(packets_are_traced(initial));
    lemma_link_events_keep_traced(initial, events.initial_link_events@, now);
    lemma_node_events_keep_traced(
        initial.link_events_processed(events.initial_link_events@, now),
        events.initial_node_events@,
        now,
    );
}

} // verus!
