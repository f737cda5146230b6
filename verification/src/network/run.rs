//! What is done to a network from the time it is set up, and what holds all along.

use crate::network::connected::{
    law_completing_keeps_packets_at_connected_links, law_dispatching_chooses_connected_links,
    law_events_keep_packets_at_connected_links, law_new_network_has_packets_at_connected_links,
    law_nodes_keep_packets_at_connected_links, law_steps_keep_packets_at_connected_links,
    lemma_nothing_moved, packets_at_connected_links,
};
use crate::network::event::{NetworkEventKind, NetworkEvents};
use crate::network::inbound_queue::QueuedView;
use crate::network::laws::law_no_duplicates_at_ratio_zero;
use crate::network::link::{LinkEvent, LinkView};
use crate::network::node::{BufferedView, NodeView};
use crate::network::repeatability::law_same_settings_give_the_same_network;
use crate::network::setup::is_initialized;
use crate::network::spec::NetworkSpec;
use crate::network::traced::{
    law_completing_keeps_packets_traced, law_dispatching_keeps_packets_traced,
    law_events_keep_packets_traced, law_forwarding_keeps_packets_traced,
    law_steps_keep_packets_traced, lemma_record, lemma_recording_keeps_traced, lemma_same_waiting,
    lemma_still_traced, packets_are_traced, was_seen,
};
use crate::network::{node_with_address, NetworkView};
use crate::quinn_interop::all_read;
use crate::random::Roll;
use crate::search::lemma_first_index;
use crate::time::Nanos;
use crate::tracing::simulation_stepper::drops_have_sender;
use crate::tracing::tracer::TracerView;
use crate::transmit::{OwnedTransmit, PacketId, PacketView};
use vstd::prelude::*;

verus! {

/// Something that is done to a network.
pub enum NetworkStep {
    /// A node sends a packet
    Send { node: int, transmit: OwnedTransmit, now: Nanos },
    /// A node hands the oldest packet in its outbound buffer to links
    Dispatch { node: int },
    /// A link reacts to an event
    React { link: int, event: LinkEvent, now: Nanos, packet_delay: Nanos },
    /// A link completes its packet
    Complete { link: int, now: Nanos, packet_delay: Nanos },
    /// The packets at the end of a link reach the next node
    Deliver { link: int, now: Nanos, max: usize },
    /// An endpoint's packets are read
    Read { node: int, endpoint: int, now: Nanos, max: usize },
    /// A network event takes effect
    Event { kind: NetworkEventKind, now: Nanos },
    /// A node gets an endpoint
    Open { node: int, port: u16 },
    /// What is to be shown is shown
    Show,
}

/// The draws for a packet on each of `count` links, and the state of the generator after them.
pub open spec fn drawn_for_links(
    draw: spec_fn(u64) -> Roll,
    rng_state: u64,
    count: nat,
) -> (Seq<(Roll, Roll)>, u64)
    decreases count,
{
    if count == 0 {
        (Seq::empty(), rng_state)
    } else {
        let (rolls, state) = drawn_for_links(draw, rng_state, (count - 1) as nat);
        let first = draw(state);
        let second = draw(first.rng_state);
        (rolls.push((first, second)), second.rng_state)
    }
}

impl NetworkView {
    /// The node sends a packet: it is created, and arrives at the node itself.
    pub open spec fn sent(
        self,
        node: int,
        transmit: OwnedTransmit,
        draw: spec_fn(u64) -> Roll,
        now: Nanos,
    ) -> NetworkView {
        let created = self.packet_created();
        created.forwarded(
            node,
            self.new_packet(self.nodes[node].id@, transmit),
            draw(created.rng_state),
            now,
        )
    }

    /// The packet comes out of the link and, unless it is lost, arrives at the next node.
    pub open spec fn came_out(
        self,
        link: int,
        packet: QueuedView,
        draw: spec_fn(u64) -> Roll,
        now: Nanos,
    ) -> NetworkView {
        let left = self.left_link(link, packet, now);
        match self.reached_node(link, packet) {
            Some(node) => left.forwarded(node, packet.data, draw(left.rng_state), now),
            None => left,
        }
    }

    /// The packets come out of the link, one after the other.
    pub open spec fn all_came_out(
        self,
        link: int,
        packets: Seq<QueuedView>,
        draw: spec_fn(u64) -> Roll,
        now: Nanos,
    ) -> NetworkView
        decreases packets.len(),
    {
        if packets.len() == 0 {
            self
        } else {
            self.all_came_out(link, packets.drop_last(), draw, now).came_out(
                link,
                packets.last(),
                draw,
                now,
            )
        }
    }

    /// The network after a step. `draw` maps the state of the generator to what is drawn from it.
    pub open spec fn after(self, step: NetworkStep, draw: spec_fn(u64) -> Roll) -> NetworkView {
        match step {
            NetworkStep::Send { node, transmit, now } => self.sent(node, transmit, draw, now),
            NetworkStep::Dispatch { node } => self.dispatched(
                node,
                drawn_for_links(draw, self.rng_state, self.next_links(node).len()).0,
            ),
            NetworkStep::React { link, event, now, packet_delay } => NetworkView {
                links: self.links.update(
                    link,
                    self.links[link].step(
                        link as usize,
                        event,
                        self.link_packet_handled(link),
                        self.link_packet_node_down(link),
                        now,
                        packet_delay,
                    ).0,
                ),
                ..self
            },
            NetworkStep::Complete { link, now, packet_delay } => self.completed(
                link,
                now,
                packet_delay,
            ),
            NetworkStep::Deliver { link, now, max } => self.taken_from_link(
                link,
                now,
                max,
            ).all_came_out(link, self.at_link_end(link, now, max), draw, now),
            NetworkStep::Read { node, endpoint, now, max } => self.read(node, endpoint, now, max),
            NetworkStep::Event { kind, now } => self.event_processed(kind, now),
            NetworkStep::Open { node, port } => NetworkView {
                nodes: self.nodes.update(node, self.nodes[node].with_endpoint(port)),
                ..self
            },
            NetworkStep::Show => NetworkView {
                messages: Seq::empty(),
                tracer: TracerView { warnings: Seq::empty(), ..self.tracer },
                ..self
            },
        }
    }

    /// The network after a number of steps.
    pub open spec fn run(self, steps: Seq<NetworkStep>, draw: spec_fn(u64) -> Roll) -> NetworkView
        decreases steps.len(),
    {
        if steps.len() == 0 {
            self
        } else {
            self.run(steps.drop_last(), draw).after(steps.last(), draw)
        }
    }

    /// The step can be done.
    pub open spec fn allows(self, step: NetworkStep) -> bool {
        &&& self.wf()
        &&& self.nodes.len() <= usize::MAX
        &&& self.links.len() <= usize::MAX
        &&& match step {
            NetworkStep::Send { node, .. } => 0 <= node < self.nodes.len(),
            NetworkStep::Dispatch { node } => 0 <= node < self.nodes.len()
                && self.nodes[node].outbound.len() > 0,
            NetworkStep::React { link, .. } => 0 <= link < self.links.len(),
            NetworkStep::Complete { link, now, packet_delay } => 0 <= link < self.links.len()
                && self.can_complete(link, now, packet_delay),
            NetworkStep::Deliver { link, .. } => 0 <= link < self.links.len()
                && node_with_address(
                self.nodes,
                self.links[link].target,
            ) is Some,
            NetworkStep::Read { node, endpoint, .. } => 0 <= node < self.nodes.len() && 0
                <= endpoint < self.nodes[node].udp_endpoints.len(),
            NetworkStep::Event { .. } => true,
            NetworkStep::Open { node, .. } => 0 <= node < self.nodes.len(),
            NetworkStep::Show => true,
        }
    }

    /// Each of the steps can be done when it is its turn.
    pub open spec fn allows_all(
        self,
        steps: Seq<NetworkStep>,
        draw: spec_fn(u64) -> Roll,
    ) -> bool
        decreases steps.len(),
    {
        steps.len() > 0 ==> self.allows_all(steps.drop_last(), draw) && self.run(
            steps.drop_last(),
            draw,
        ).allows(steps.last())
    }
}

/// Simulations are deterministic: two networks that were set up with the same settings, events and
/// seed, and to which the same is done at the same times, are the same in the end. They have recorded
/// the same steps and show the same messages. Nothing but the state of its generator decides what a
/// network draws.
pub proof fn law_runs_are_repeatable(
    a: NetworkView,
    b: NetworkView,
    spec: NetworkSpec,
    events: NetworkEvents,
    tracer: TracerView,
    rng_state: u64,
    now: Nanos,
    steps: Seq<NetworkStep>,
    draw: spec_fn(u64) -> Roll,
)
    requires
        is_initialized(a, spec, events, tracer, rng_state, now),
        is_initialized(b, spec, events, tracer, rng_state, now),
    ensures
        a.run(steps, draw) == b.run(steps, draw),
        a.run(steps, draw).tracer.steps == b.run(steps, draw).tracer.steps,
        a.run(steps, draw).tracer.warnings == b.run(steps, draw).tracer.warnings,
        a.run(steps, draw).messages == b.run(steps, draw).messages,
{
    law_same_settings_give_the_same_network(a, b, spec, events, tracer, rng_state, now);
}

/// What is done first comes first: a run is continued by what is done next.
pub proof fn law_runs_can_be_continued(
    network: NetworkView,
    first: Seq<NetworkStep>,
    second: Seq<NetworkStep>,
    draw: spec_fn(u64) -> Roll,
)
    ensures
        network.run(first + second, draw) == network.run(first, draw).run(second, draw),
    decreases second.len(),
{
    if second.len() == 0 {
        assert(first + second =~= first);
    } else {
        law_runs_can_be_continued(network, first, second.drop_last(), draw);
        assert((first + second).drop_last() =~= first + second.drop_last());
    }
}

proof fn lemma_drawn_for_links(draw: spec_fn(u64) -> Roll, rng_state: u64, count: nat)
    ensures
        drawn_for_links(draw, rng_state, count).0.len() == count,
    decreases count,
{
    if count > 0 {
        lemma_drawn_for_links(draw, rng_state, (count - 1) as nat);
    }
}

proof fn lemma_came_out_keeps_connected(
    network: NetworkView,
    link: int,
    packets: Seq<QueuedView>,
    draw: spec_fn(u64) -> Roll,
    now: Nanos,
)
    requires
        packets_at_connected_links(network),
        0 <= link < network.links.len(),
    ensures
        packets_at_connected_links(network.all_came_out(link, packets, draw, now)),
        network.all_came_out(link, packets, draw, now).links == network.links,
    decreases packets.len(),
{
    if packets.len() > 0 {
        lemma_came_out_keeps_connected(network, link, packets.drop_last(), draw, now);
        let before = network.all_came_out(link, packets.drop_last(), draw, now);
        let packet = packets.last();
        let left = before.left_link(link, packet, now);
        lemma_nothing_moved(before, left);
        if let Some(node) = before.reached_node(link, packet) {
            lemma_first_index(
                before.nodes,
                |n: NodeView| n.addresses.contains(before.links[link].target),
            );
            law_nodes_keep_packets_at_connected_links(
                left,
                node,
                packet.data,
                draw(left.rng_state),
                now,
            );
        }
    }
}

/// Whatever is done to a network, packets only wait at links that are connected to their node.
pub proof fn law_runs_keep_packets_at_connected_links(
    network: NetworkView,
    steps: Seq<NetworkStep>,
    draw: spec_fn(u64) -> Roll,
)
    requires
        packets_at_connected_links(network),
        network.allows_all(steps, draw),
    ensures
        packets_at_connected_links(network.run(steps, draw)),
    decreases steps.len(),
{
    if steps.len() > 0 {
        law_runs_keep_packets_at_connected_links(network, steps.drop_last(), draw);
        let before = network.run(steps.drop_last(), draw);
        let after = network.run(steps, draw);
        match steps.last() {
            NetworkStep::Send { node, transmit, now } => {
                let created = before.packet_created();
                lemma_nothing_moved(before, created);
                law_nodes_keep_packets_at_connected_links(
                    created,
                    node,
                    before.new_packet(before.nodes[node].id@, transmit),
                    draw(created.rng_state),
                    now,
                );
            },
            NetworkStep::Dispatch { node } => {
                let links = before.next_links(node).len();
                lemma_drawn_for_links(draw, before.rng_state, links);
                law_dispatching_chooses_connected_links(
                    before,
                    node,
                    drawn_for_links(draw, before.rng_state, links).0,
                );
            },
            NetworkStep::React { link, event, now, packet_delay } => {
                law_steps_keep_packets_at_connected_links(before, link, event, now, packet_delay);
            },
            NetworkStep::Complete { link, now, packet_delay } => {
                law_completing_keeps_packets_at_connected_links(before, link, now, packet_delay);
            },
            NetworkStep::Deliver { link, now, max } => {
                let taken = before.taken_from_link(link, now, max);
                lemma_nothing_moved(before, taken);
                lemma_came_out_keeps_connected(
                    taken,
                    link,
                    before.at_link_end(link, now, max),
                    draw,
                    now,
                );
            },
            NetworkStep::Event { kind, now } => {
                law_events_keep_packets_at_connected_links(before, kind, now);
            },
            _ => {
                lemma_nothing_moved(before, after);
            },
        }
    }
}

/// From the time a network is set up, packets only wait at links that are connected to their node.
pub proof fn law_packets_are_always_at_connected_links(
    network: NetworkView,
    spec: NetworkSpec,
    events: NetworkEvents,
    tracer: TracerView,
    rng_state: u64,
    now: Nanos,
    steps: Seq<NetworkStep>,
    draw: spec_fn(u64) -> Roll,
)
    requires
        is_initialized(network, spec, events, tracer, rng_state, now),
        network.allows_all(steps, draw),
    ensures
        packets_at_connected_links(network.run(steps, draw)),
{
    law_new_network_has_packets_at_connected_links(network, spec, events, tracer, rng_state, now);
    law_runs_keep_packets_at_connected_links(network, steps, draw);
}

/// No node ever duplicates a packet, whatever the draw.
pub open spec fn never_duplicates(network: NetworkView) -> bool {
    forall|n: int, roll: Roll|
        0 <= n < network.nodes.len() ==> !(#[trigger] network.nodes[n].duplicates(roll))
}

/// In a network whose duplication ratios are all zero, no packet is ever duplicated.
pub proof fn law_nothing_is_duplicated_at_ratio_zero(network: NetworkView)
    requires
        network.wf(),
        forall|n: int|
            0 <= n < network.nodes.len() ==> (
            #[trigger] network.nodes[n]).injected_failures.packet_duplication_ratio.bits == 0,
    ensures
        never_duplicates(network),
{
    assert forall|n: int, roll: Roll| 0 <= n < network.nodes.len() implies !(
    #[trigger] network.nodes[n].duplicates(roll)) by {
        law_no_duplicates_at_ratio_zero(network, n, roll);
    }
}

/// The nodes inject the same failures.
spec fn same_failures(before: NetworkView, after: NetworkView) -> bool {
    &&& after.nodes.len() == before.nodes.len()
    &&& forall|n: int|
        0 <= n < before.nodes.len() ==> (#[trigger] after.nodes[n]).injected_failures
            == before.nodes[n].injected_failures
}

proof fn lemma_same_failures(before: NetworkView, after: NetworkView)
    requires
        never_duplicates(before),
        same_failures(before, after),
    ensures
        never_duplicates(after),
{
    assert forall|n: int, roll: Roll| 0 <= n < after.nodes.len() implies !(
    #[trigger] after.nodes[n].duplicates(roll)) by {
        assert(!before.nodes[n].duplicates(roll));
        assert(after.nodes[n].injected_failures == before.nodes[n].injected_failures);
    }
}

/// What holds of a network in which nothing is duplicated.
spec fn traced_without_duplicates(network: NetworkView) -> bool {
    packets_are_traced(network) && never_duplicates(network)
}

proof fn lemma_forwarding_without_duplicates(
    network: NetworkView,
    node: int,
    data: PacketView,
    roll: Roll,
    now: Nanos,
)
    requires
        traced_without_duplicates(network),
        0 <= node < network.nodes.len(),
    ensures
        traced_without_duplicates(network.forwarded(node, data, roll, now)),
{
    assert(!network.nodes[node].duplicates(roll));
    law_forwarding_keeps_packets_traced(network, node, data, roll, now);
    lemma_same_failures(network, network.forwarded(node, data, roll, now));
}

proof fn lemma_came_out_without_duplicates(
    network: NetworkView,
    link: int,
    packets: Seq<QueuedView>,
    draw: spec_fn(u64) -> Roll,
    now: Nanos,
)
    requires
        traced_without_duplicates(network),
    ensures
        traced_without_duplicates(network.all_came_out(link, packets, draw, now)),
    decreases packets.len(),
{
    if packets.len() > 0 {
        lemma_came_out_without_duplicates(network, link, packets.drop_last(), draw, now);
        let before = network.all_came_out(link, packets.drop_last(), draw, now);
        let packet = packets.last();
        let left = before.left_link(link, packet, now);
        if left.tracer.steps.len() > before.tracer.steps.len() {
            lemma_recording_keeps_traced(before, left, now, left.tracer.steps.last().kind);
        }
        lemma_same_failures(before, left);
        if let Some(node) = before.reached_node(link, packet) {
            lemma_first_index(
                before.nodes,
                |n: NodeView| n.addresses.contains(before.links[link].target),
            );
            lemma_forwarding_without_duplicates(
                left,
                node,
                packet.data,
                draw(left.rng_state),
                now,
            );
        }
    }
}

proof fn lemma_read_keeps_traced(
    tracer: TracerView,
    now: Nanos,
    node_id: String,
    packets: Seq<QueuedView>,
)
    requires
        drops_have_sender(tracer.steps),
    ensures
        drops_have_sender(all_read(tracer, now, node_id, packets).steps),
        forall|id: PacketId| #[trigger]
            was_seen(tracer.steps, id) ==> was_seen(
                all_read(tracer, now, node_id, packets).steps,
                id,
            ),
    decreases packets.len(),
{
    if packets.len() > 0 {
        lemma_read_keeps_traced(tracer, now, node_id, packets.drop_last());
        let before = all_read(tracer, now, node_id, packets.drop_last());
        let after = all_read(tracer, now, node_id, packets);
        lemma_record(before, now, after.steps.last().kind);
    }
}

proof fn lemma_step_without_duplicates(
    network: NetworkView,
    step: NetworkStep,
    draw: spec_fn(u64) -> Roll,
)
    requires
        traced_without_duplicates(network),
        network.allows(step),
    ensures
        traced_without_duplicates(network.after(step, draw)),
{
    let after = network.after(step, draw);
    match step {
        NetworkStep::Send { node, transmit, now } => {
            let created = network.packet_created();
            lemma_same_waiting(network, created);
            lemma_still_traced(network, created);
            lemma_same_failures(network, created);
            lemma_forwarding_without_duplicates(
                created,
                node,
                network.new_packet(network.nodes[node].id@, transmit),
                draw(created.rng_state),
                now,
            );
        },
        NetworkStep::Dispatch { node } => {
            let links = network.next_links(node);
            let rolls = drawn_for_links(draw, network.rng_state, links.len()).0;
            law_dispatching_keeps_packets_traced(network, node, rolls);
            let n = network.nodes[node];
            let popped = NetworkView {
                nodes: network.nodes.update(node, NodeView { outbound: n.outbound.skip(1), ..n }),
                ..network
            };
            lemma_handing_keeps_nodes(popped, node, n.outbound[0], links, rolls, links.len());
            lemma_same_failures(network, after);
        },
        NetworkStep::React { link, event, now, packet_delay } => {
            law_steps_keep_packets_traced(network, link, event, now, packet_delay);
            lemma_same_failures(network, after);
        },
        NetworkStep::Complete { link, now, packet_delay } => {
            law_completing_keeps_packets_traced(network, link, now, packet_delay);
            lemma_same_failures(network, after);
        },
        NetworkStep::Deliver { link, now, max } => {
            let taken = network.taken_from_link(link, now, max);
            lemma_same_waiting(network, taken);
            lemma_still_traced(network, taken);
            lemma_same_failures(network, taken);
            lemma_came_out_without_duplicates(
                taken,
                link,
                network.at_link_end(link, now, max),
                draw,
                now,
            );
        },
        NetworkStep::Read { node, endpoint, now, max } => {
            lemma_read_keeps_traced(
                network.tracer,
                now,
                network.nodes[node].id,
                network.readable(node, endpoint, now, max),
            );
            lemma_same_waiting(network, after);
            lemma_still_traced(network, after);
            lemma_same_failures(network, after);
        },
        NetworkStep::Event { kind, now } => {
            law_events_keep_packets_traced(network, kind, now);
            match kind {
                NetworkEventKind::Link(link) => {
                    lemma_first_index(network.links, |l: LinkView| l.id@ == link.link_id@);
                },
                NetworkEventKind::Node(node) => {
                    lemma_first_index(network.nodes, |n: NodeView| n.id@ == node.node_id@);
                },
            }
            lemma_same_failures(network, after);
        },
        _ => {
            lemma_same_waiting(network, after);
            lemma_still_traced(network, after);
            lemma_same_failures(network, after);
        },
    }
}

proof fn lemma_handing_keeps_nodes(
    network: NetworkView,
    node: int,
    packet: BufferedView,
    links: Seq<usize>,
    rolls: Seq<(Roll, Roll)>,
    count: nat,
)
    ensures
        network.handed_to_links(node, packet, links, rolls, count).nodes == network.nodes,
    decreases count,
{
    if count > 0 {
        lemma_handing_keeps_nodes(network, node, packet, links, rolls, (count - 1) as nat);
    }
}

/// Whatever is done to a network in which nothing is duplicated, every packet that waits, and every
/// packet that was dropped, has been seen in a node: every drop has a sender.
pub proof fn law_runs_keep_packets_traced(
    network: NetworkView,
    steps: Seq<NetworkStep>,
    draw: spec_fn(u64) -> Roll,
)
    requires
        packets_are_traced(network),
        never_duplicates(network),
        network.allows_all(steps, draw),
    ensures
        packets_are_traced(network.run(steps, draw)),
        never_duplicates(network.run(steps, draw)),
    decreases steps.len(),
{
    if steps.len() > 0 {
        law_runs_keep_packets_traced(network, steps.drop_last(), draw);
        lemma_step_without_duplicates(network.run(steps.drop_last(), draw), steps.last(), draw);
    }
}

} // verus!
