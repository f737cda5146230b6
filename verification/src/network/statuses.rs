//! How network events change what is up and what is down.

use crate::network::event::{
    initial_link_events_spec, initial_node_events_spec, is_first_link_status,
    is_first_node_status, law_first_link_event_changes_the_status,
    law_first_node_event_changes_the_status, law_link_without_events_is_up,
    law_node_without_events_is_up, sets_link_status, sets_node_status, LinkEventPayload,
    NetworkEvent, NetworkEventKind, NetworkEvents, NodeEventPayload, UpdateLinkStatus,
    UpdateNodeStatus,
};
use crate::network::event_processing::unsupported_changes;
use crate::network::link::{LinkStatus, LinkView};
use crate::network::node::{NodeStatus, NodeView};
use crate::network::setup::{is_initial, is_initialized};
use crate::network::spec::{NetworkLinkSpec, NetworkNodeSpec, NetworkSpec};
use crate::network::travel::one_more_step;
use crate::network::NetworkView;
use crate::search::{lemma_first_index, lemma_first_index_is};
use crate::sorting::{is_stable_sort, SortOrder};
use crate::time::Nanos;
use crate::tracing::simulation_step::{NetworkEvent as RecordedEvent, SimulationStepKind};
use crate::tracing::tracer::TracerView;
use vstd::prelude::*;

verus! {

/// One, if the condition holds.
pub open spec fn one_if(applies: bool) -> int {
    if applies {
        1
    } else {
        0
    }
}

/// Each change that a link event asks for, other than that of its status, is answered by a warning, and
/// there are no other warnings.
pub proof fn law_unsupported_changes_are_warned_about(event: LinkEventPayload)
    ensures
        ({
            let messages = unsupported_changes(event);
            &&& messages.len() == one_if(event.bandwidth_bps is Some) + one_if(event.delay is Some)
                + one_if(event.extra_delay is Some) + one_if(event.extra_delay_ratio is Some)
                + one_if(event.packet_duplication_ratio is Some) + one_if(
                event.packet_loss_ratio is Some,
            ) + one_if(event.congestion_event_ratio is Some)
            &&& event.bandwidth_bps is Some ==> messages.contains(
                "WARN: changing the bandwidth in events is currently unsupported"@,
            )
            &&& event.delay is Some ==> messages.contains(
                "WARN: changing the delay in events is currently unsupported"@,
            )
            &&& event.extra_delay is Some ==> messages.contains(
                "WARN: changing the extra delay in events is currently unsupported"@,
            )
            &&& event.extra_delay_ratio is Some ==> messages.contains(
                "WARN: changing the extra delay ratio in events is currently unsupported"@,
            )
            &&& event.packet_duplication_ratio is Some ==> messages.contains(
                "WARN: changing the packet duplication ratio in events is currently unsupported"@,
            )
            &&& event.packet_loss_ratio is Some ==> messages.contains(
                "WARN: changing the packet loss ratio in events is currently unsupported"@,
            )
            &&& event.congestion_event_ratio is Some ==> messages.contains(
                "WARN: changing the congestion event ratio in events is currently unsupported"@,
            )
        }),
{
    let messages = unsupported_changes(event);
    let a = one_if(event.bandwidth_bps is Some);
    let b = a + one_if(event.delay is Some);
    let c = b + one_if(event.extra_delay is Some);
    let d = c + one_if(event.extra_delay_ratio is Some);
    let e = d + one_if(event.packet_duplication_ratio is Some);
    let f = e + one_if(event.packet_loss_ratio is Some);
    if event.bandwidth_bps is Some {
        assert(messages[0] == "WARN: changing the bandwidth in events is currently unsupported"@);
    }
    if event.delay is Some {
        assert(messages[a] == "WARN: changing the delay in events is currently unsupported"@);
    }
    if event.extra_delay is Some {
        assert(messages[b]
            == "WARN: changing the extra delay in events is currently unsupported"@);
    }
    if event.extra_delay_ratio is Some {
        assert(messages[c]
            == "WARN: changing the extra delay ratio in events is currently unsupported"@);
    }
    if event.packet_duplication_ratio is Some {
        assert(messages[d]
            == "WARN: changing the packet duplication ratio in events is currently unsupported"@);
    }
    if event.packet_loss_ratio is Some {
        assert(messages[e]
            == "WARN: changing the packet loss ratio in events is currently unsupported"@);
    }
    if event.congestion_event_ratio is Some {
        assert(messages[f]
            == "WARN: changing the congestion event ratio in events is currently unsupported"@);
    }
}

/// A link event changes the status of the link that it is about, to the one that it asks for, and
/// nothing else of that link, but that the link remembers when it went down. No other link changes, and
/// no node. The event is recorded.
pub proof fn law_link_events_set_the_status(
    network: NetworkView,
    event: LinkEventPayload,
    now: Nanos,
    link: int,
)
    requires
        network.wf(),
        0 <= link < network.links.len(),
        network.links[link].id@ == event.link_id@,
    ensures
        ({
            let before = network.links[link];
            let after = network.event_processed(NetworkEventKind::Link(event), now);
            let status = after.links[link].status;
            &&& after.links[link] == LinkView {
                status,
                last_down: after.links[link].last_down,
                ..before
            }
            &&& event.status is None ==> status == before.status
            &&& event.status == Some(UpdateLinkStatus::Up) ==> status == LinkStatus::Up
            &&& event.status == Some(UpdateLinkStatus::Down) ==> status == LinkStatus::Down
            &&& after.links[link].last_down == if before.status == LinkStatus::Up && status
                == LinkStatus::Down {
                Some(now)
            } else {
                before.last_down
            }
            &&& after.links.len() == network.links.len()
            &&& forall|l: int|
                0 <= l < network.links.len() && l != link ==> #[trigger] after.links[l]
                    == network.links[l]
            &&& after.nodes == network.nodes
            &&& after.tickets == network.tickets
            &&& after.messages == network.messages + unsupported_changes(event)
            &&& one_more_step(
                network.tracer,
                after.tracer,
                now,
                SimulationStepKind::NetworkEvent(RecordedEvent { link: Some(event), node: None }),
            )
        }),
{
    let p = |l: LinkView| l.id@ == event.link_id@;
    assert forall|j: int| 0 <= j < link implies !p(#[trigger] network.links[j]) by {
        assert(network.links[j].id@ != network.links[link].id@);
    }
    lemma_first_index_is(network.links, p, link);
}

/// A node event changes the status of the node that it is about, to the one that it asks for, and
/// remembers the time if the node's buffer is to be cleared. Nothing else of the node changes, nor any
/// other node, nor a link. The event is recorded.
pub proof fn law_node_events_set_the_status(
    network: NetworkView,
    event: NodeEventPayload,
    now: Nanos,
    node: int,
)
    requires
        network.wf(),
        0 <= node < network.nodes.len(),
        network.nodes[node].id@ == event.node_id@,
    ensures
        ({
            let before = network.nodes[node];
            let after = network.event_processed(NetworkEventKind::Node(event), now);
            let status = after.nodes[node].status;
            &&& after.nodes[node] == NodeView {
                status,
                last_buffer_clear: after.nodes[node].last_buffer_clear,
                ..before
            }
            &&& event.status is None ==> status == before.status
            &&& event.status == Some(UpdateNodeStatus::Up) ==> status == NodeStatus::Up
            &&& event.status == Some(UpdateNodeStatus::Down) ==> status == NodeStatus::Down
            &&& after.nodes[node].last_buffer_clear == if event.clear_buffer {
                Some(now)
            } else {
                before.last_buffer_clear
            }
            &&& after.nodes.len() == network.nodes.len()
            &&& forall|n: int|
                0 <= n < network.nodes.len() && n != node ==> #[trigger] after.nodes[n]
                    == network.nodes[n]
            &&& after.links == network.links
            &&& after.tickets == network.tickets
            &&& after.messages == network.messages
            &&& one_more_step(
                network.tracer,
                after.tracer,
                now,
                SimulationStepKind::NetworkEvent(RecordedEvent { link: None, node: Some(event) }),
            )
        }),
{
    let p = |n: NodeView| n.id@ == event.node_id@;
    assert forall|j: int| 0 <= j < node implies !p(#[trigger] network.nodes[j]) by {
        assert(network.nodes[j].id@ != network.nodes[node].id@);
    }
    lemma_first_index_is(network.nodes, p, node);
}

/// Events about links and nodes that do not exist change nothing and are not recorded; a message says
/// that they were skipped.
pub proof fn law_events_about_strangers_are_skipped(
    network: NetworkView,
    link: LinkEventPayload,
    node: NodeEventPayload,
    now: Nanos,
)
    requires
        forall|l: int|
            0 <= l < network.links.len() ==> (#[trigger] network.links[l]).id@ != link.link_id@,
        forall|n: int|
            0 <= n < network.nodes.len() ==> (#[trigger] network.nodes[n]).id@ != node.node_id@,
    ensures
        network.event_processed(NetworkEventKind::Link(link), now) == (NetworkView {
            messages: (network.messages + unsupported_changes(link)).push(
                "WARN: skipping received event for link that doesn't exist ("@ + link.link_id@
                    + ")"@,
            ),
            ..network
        }),
        network.event_processed(NetworkEventKind::Node(node), now) == (NetworkView {
            messages: network.messages.push(
                "WARN: skipping received event for node that doesn't exist ("@ + node.node_id@
                    + ")"@,
            ),
            ..network
        }),
{
    lemma_first_index(network.links, |l: LinkView| l.id@ == link.link_id@);
    lemma_first_index(network.nodes, |n: NodeView| n.id@ == node.node_id@);
}

/// The status that a link has before its first status event takes effect.
pub open spec fn opposite_link_status(status: UpdateLinkStatus) -> LinkStatus {
    match status {
        UpdateLinkStatus::Up => LinkStatus::Down,
        UpdateLinkStatus::Down => LinkStatus::Up,
    }
}

/// The status that a node has before its first status event takes effect.
pub open spec fn opposite_node_status(status: UpdateNodeStatus) -> NodeStatus {
    match status {
        UpdateNodeStatus::Up => NodeStatus::Down,
        UpdateNodeStatus::Down => NodeStatus::Up,
    }
}

proof fn lemma_link_events_agree(
    network: NetworkView,
    events: Seq<LinkEventPayload>,
    now: Nanos,
    link: int,
    status: LinkStatus,
    wanted: UpdateLinkStatus,
)
    requires
        0 <= link < network.links.len(),
        forall|i: int, j: int|
            0 <= i < j < network.links.len() ==> (#[trigger] network.links[i]).id@ != (
            #[trigger] network.links[j]).id@,
        status == LinkStatus::Up <==> wanted == UpdateLinkStatus::Up,
        forall|i: int|
            0 <= i < events.len() && #[trigger] events[i].link_id@ == network.links[link].id@
                ==> events[i].status == Some(wanted),
    ensures
        ({
            let after = network.link_events_processed(events, now);
            &&& after.nodes == network.nodes
            &&& after.links.len() == network.links.len()
            &&& forall|l: int|
                0 <= l < network.links.len() ==> (#[trigger] after.links[l]).id
                    == network.links[l].id
            &&& (exists|i: int|
                0 <= i < events.len() && #[trigger] events[i].link_id@ == network.links[link].id@)
                ==> after.links[link].status == status
        }),
    decreases events.len(),
{
    if events.len() > 0 {
        let front = events.drop_last();
        assert forall|i: int|
            0 <= i < front.len() && #[trigger] front[i].link_id@
                == network.links[link].id@ implies front[i].status == Some(wanted) by {
            assert(events[i].link_id@ == network.links[link].id@);
        }
        lemma_link_events_agree(network, front, now, link, status, wanted);
        let before = network.link_events_processed(front, now);
        let event = events.last();
        let p = |l: LinkView| l.id@ == event.link_id@;
        lemma_first_index(before.links, p);
        assert(events[events.len() - 1] == event);
        if event.link_id@ == network.links[link].id@ {
            assert forall|j: int| 0 <= j < link implies !p(#[trigger] before.links[j]) by {
                assert(before.links[j].id == network.links[j].id);
                assert(network.links[j].id@ != network.links[link].id@);
            }
            assert(before.links[link].id == network.links[link].id);
            lemma_first_index_is(before.links, p, link);
        } else {
            assert(before.links[link].id == network.links[link].id);
            if exists|i: int|
                0 <= i < events.len() && #[trigger] events[i].link_id@
                    == network.links[link].id@ {
                let i = choose|i: int|
                    0 <= i < events.len() && #[trigger] events[i].link_id@
                        == network.links[link].id@;
                assert(front[i].link_id@ == network.links[link].id@);
            }
        }
    }
}

proof fn lemma_node_events_agree(
    network: NetworkView,
    events: Seq<NodeEventPayload>,
    now: Nanos,
    node: int,
    status: NodeStatus,
    wanted: UpdateNodeStatus,
)
    requires
        0 <= node < network.nodes.len(),
        forall|i: int, j: int|
            0 <= i < j < network.nodes.len() ==> (#[trigger] network.nodes[i]).id@ != (
            #[trigger] network.nodes[j]).id@,
        status == NodeStatus::Up <==> wanted == UpdateNodeStatus::Up,
        forall|i: int|
            0 <= i < events.len() && #[trigger] events[i].node_id@ == network.nodes[node].id@
                ==> events[i].status == Some(wanted),
    ensures
        ({
            let after = network.node_events_processed(events, now);
            &&& after.links == network.links
            &&& after.nodes.len() == network.nodes.len()
            &&& forall|n: int|
                0 <= n < network.nodes.len() ==> (#[trigger] after.nodes[n]).id
                    == network.nodes[n].id
            &&& (exists|i: int|
                0 <= i < events.len() && #[trigger] events[i].node_id@ == network.nodes[node].id@)
                ==> after.nodes[node].status == status
        }),
    decreases events.len(),
{
    if events.len() > 0 {
        let front = events.drop_last();
        assert forall|i: int|
            0 <= i < front.len() && #[trigger] front[i].node_id@
                == network.nodes[node].id@ implies front[i].status == Some(wanted) by {
            assert(events[i].node_id@ == network.nodes[node].id@);
        }
        lemma_node_events_agree(network, front, now, node, status, wanted);
        let before = network.node_events_processed(front, now);
        let event = events.last();
        let p = |n: NodeView| n.id@ == event.node_id@;
        lemma_first_index(before.nodes, p);
        assert(events[events.len() - 1] == event);
        if event.node_id@ == network.nodes[node].id@ {
            assert forall|j: int| 0 <= j < node implies !p(#[trigger] before.nodes[j]) by {
                assert(before.nodes[j].id == network.nodes[j].id);
                assert(network.nodes[j].id@ != network.nodes[node].id@);
            }
            assert(before.nodes[node].id == network.nodes[node].id);
            lemma_first_index_is(before.nodes, p, node);
        } else {
            assert(before.nodes[node].id == network.nodes[node].id);
            if exists|i: int|
                0 <= i < events.len() && #[trigger] events[i].node_id@
                    == network.nodes[node].id@ {
                let i = choose|i: int|
                    0 <= i < events.len() && #[trigger] events[i].node_id@
                        == network.nodes[node].id@;
                assert(front[i].node_id@ == network.nodes[node].id@);
            }
        }
    }
}

/// The set-up network is the one that the initial events make of the one before them.
proof fn lemma_initial_network(
    network: NetworkView,
    spec: NetworkSpec,
    events: NetworkEvents,
    tracer: TracerView,
    rng_state: u64,
    now: Nanos,
) -> (initial: NetworkView)
    requires
        is_initialized(network, spec, events, tracer, rng_state, now),
    ensures
        is_initial(initial, spec, tracer, rng_state, now),
        network == initial.link_events_processed(
            events.initial_link_events@,
            now,
        ).node_events_processed(events.initial_node_events@, now),
{
    choose|initial: NetworkView| #[trigger]
        is_initial(initial, spec, tracer, rng_state, now) && network
            == initial.link_events_processed(
            events.initial_link_events@,
            now,
        ).node_events_processed(events.initial_node_events@, now)
}

/// The ids of the links are distinct.
pub open spec fn distinct_link_ids(links: Seq<NetworkLinkSpec>) -> bool {
    forall|i: int, j: int|
        0 <= i < j < links.len() ==> (#[trigger] links[i]).id@ != (#[trigger] links[j]).id@
}

/// The ids of the nodes are distinct.
pub open spec fn distinct_node_ids(nodes: Seq<NetworkNodeSpec>) -> bool {
    forall|i: int, j: int|
        0 <= i < j < nodes.len() ==> (#[trigger] nodes[i]).id@ != (#[trigger] nodes[j]).id@
}

proof fn lemma_link_starts_with(
    network: NetworkView,
    spec: NetworkSpec,
    events: NetworkEvents,
    tracer: TracerView,
    rng_state: u64,
    now: Nanos,
    link: int,
    status: LinkStatus,
    wanted: UpdateLinkStatus,
)
    requires
        is_initialized(network, spec, events, tracer, rng_state, now),
        distinct_link_ids(spec.links@),
        0 <= link < spec.links@.len(),
        status == LinkStatus::Up <==> wanted == UpdateLinkStatus::Up,
        exists|i: int|
            0 <= i < events.initial_link_events@.len()
                && #[trigger] events.initial_link_events@[i].link_id@ == spec.links@[link].id@,
        forall|i: int|
            0 <= i < events.initial_link_events@.len()
                && #[trigger] events.initial_link_events@[i].link_id@ == spec.links@[link].id@
                ==> events.initial_link_events@[i].status == Some(wanted),
    ensures
        network.links[link].id == spec.links@[link].id,
        network.links[link].status == status,
{
    let initial = lemma_initial_network(network, spec, events, tracer, rng_state, now);
    assert forall|l: int| 0 <= l < initial.links.len() implies (#[trigger] initial.links[l]).id
        == spec.links@[l].id by {}
    assert forall|i: int, j: int| 0 <= i < j < initial.links.len() implies (
    #[trigger] initial.links[i]).id@ != (#[trigger] initial.links[j]).id@ by {
        assert(spec.links@[i].id@ != spec.links@[j].id@);
    }
    lemma_link_events_agree(
        initial,
        events.initial_link_events@,
        now,
        link,
        status,
        wanted,
    );
    lemma_links_stay(
        initial.link_events_processed(events.initial_link_events@, now),
        events.initial_node_events@,
        now,
    );
}

proof fn lemma_links_stay(network: NetworkView, events: Seq<NodeEventPayload>, now: Nanos)
    ensures
        network.node_events_processed(events, now).links == network.links,
    decreases events.len(),
{
    if events.len() > 0 {
        lemma_links_stay(network, events.drop_last(), now);
    }
}

proof fn lemma_nodes_stay(network: NetworkView, events: Seq<LinkEventPayload>, now: Nanos)
    ensures
        network.link_events_processed(events, now).nodes == network.nodes,
    decreases events.len(),
{
    if events.len() > 0 {
        lemma_nodes_stay(network, events.drop_last(), now);
    }
}

proof fn lemma_node_starts_with(
    network: NetworkView,
    spec: NetworkSpec,
    events: NetworkEvents,
    tracer: TracerView,
    rng_state: u64,
    now: Nanos,
    node: int,
    status: NodeStatus,
    wanted: UpdateNodeStatus,
)
    requires
        is_initialized(network, spec, events, tracer, rng_state, now),
        distinct_node_ids(spec.nodes@),
        0 <= node < spec.nodes@.len(),
        status == NodeStatus::Up <==> wanted == UpdateNodeStatus::Up,
        exists|i: int|
            0 <= i < events.initial_node_events@.len()
                && #[trigger] events.initial_node_events@[i].node_id@ == spec.nodes@[node].id@,
        forall|i: int|
            0 <= i < events.initial_node_events@.len()
                && #[trigger] events.initial_node_events@[i].node_id@ == spec.nodes@[node].id@
                ==> events.initial_node_events@[i].status == Some(wanted),
    ensures
        network.nodes[node].id == spec.nodes@[node].id,
        network.nodes[node].status == status,
{
    let initial = lemma_initial_network(network, spec, events, tracer, rng_state, now);
    let linked = initial.link_events_processed(events.initial_link_events@, now);
    lemma_nodes_stay(initial, events.initial_link_events@, now);
    assert forall|n: int| 0 <= n < linked.nodes.len() implies (#[trigger] linked.nodes[n]).id
        == spec.nodes@[n].id by {
        assert(crate::network::node::is_new_node(
            initial.nodes[n],
            spec.nodes@[n],
            crate::network::setup::link_ends(spec.links@),
        ));
    }
    assert forall|i: int, j: int| 0 <= i < j < linked.nodes.len() implies (
    #[trigger] linked.nodes[i]).id@ != (#[trigger] linked.nodes[j]).id@ by {
        assert(spec.nodes@[i].id@ != spec.nodes@[j].id@);
    }
    lemma_node_events_agree(
        linked,
        events.initial_node_events@,
        now,
        node,
        status,
        wanted,
    );
}

/// The first status event of a link is always a change: when the network is set up, the link has the
/// opposite of the status that its first status event asks for.
pub proof fn law_links_start_with_the_opposite_status(
    network: NetworkView,
    spec: NetworkSpec,
    events: NetworkEvents,
    tracer: TracerView,
    rng_state: u64,
    now: Nanos,
    link: int,
    index: int,
    status: UpdateLinkStatus,
)
    requires
        is_initialized(network, spec, events, tracer, rng_state, now),
        events.initial_link_events@ == initial_link_events_spec(
            events.sorted_events@,
            spec.links@,
        ),
        distinct_link_ids(spec.links@),
        0 <= link < spec.links@.len(),
        is_first_link_status(events.sorted_events@, index, spec.links@[link].id@, status),
    ensures
        network.links[link].id == spec.links@[link].id,
        network.links[link].status == opposite_link_status(status),
{
    law_first_link_event_changes_the_status(
        events.sorted_events@,
        spec.links@,
        index,
        spec.links@[link].id@,
        status,
    );
    lemma_link_starts_with(
        network,
        spec,
        events,
        tracer,
        rng_state,
        now,
        link,
        opposite_link_status(status),
        status.spec_opposite(),
    );
}

/// A link without status events is up when the network is set up.
pub proof fn law_links_without_events_start_up(
    network: NetworkView,
    spec: NetworkSpec,
    events: NetworkEvents,
    tracer: TracerView,
    rng_state: u64,
    now: Nanos,
    link: int,
)
    requires
        is_initialized(network, spec, events, tracer, rng_state, now),
        events.initial_link_events@ == initial_link_events_spec(
            events.sorted_events@,
            spec.links@,
        ),
        distinct_link_ids(spec.links@),
        0 <= link < spec.links@.len(),
        forall|i: int, s: UpdateLinkStatus|
            0 <= i < events.sorted_events@.len() ==> !#[trigger] sets_link_status(
                events.sorted_events@[i],
                spec.links@[link].id@,
                s,
            ),
    ensures
        network.links[link].id == spec.links@[link].id,
        network.links[link].status == LinkStatus::Up,
{
    law_link_without_events_is_up(events.sorted_events@, spec.links@, link);
    let all = events.initial_link_events@;
    let up = crate::network::event::link_status_event(spec.links@[link].id, UpdateLinkStatus::Up);
    let i = choose|i: int| 0 <= i < all.len() && all[i] == up;
    assert(all[i].link_id@ == spec.links@[link].id@);
    lemma_link_starts_with(
        network,
        spec,
        events,
        tracer,
        rng_state,
        now,
        link,
        LinkStatus::Up,
        UpdateLinkStatus::Up,
    );
}

/// The first status event of a node is always a change: when the network is set up, the node has the
/// opposite of the status that its first status event asks for.
pub proof fn law_nodes_start_with_the_opposite_status(
    network: NetworkView,
    spec: NetworkSpec,
    events: NetworkEvents,
    tracer: TracerView,
    rng_state: u64,
    now: Nanos,
    node: int,
    index: int,
    status: UpdateNodeStatus,
)
    requires
        is_initialized(network, spec, events, tracer, rng_state, now),
        events.initial_node_events@ == initial_node_events_spec(
            events.sorted_events@,
            spec.nodes@,
        ),
        distinct_node_ids(spec.nodes@),
        0 <= node < spec.nodes@.len(),
        is_first_node_status(events.sorted_events@, index, spec.nodes@[node].id@, status),
    ensures
        network.nodes[node].id == spec.nodes@[node].id,
        network.nodes[node].status == opposite_node_status(status),
{
    law_first_node_event_changes_the_status(
        events.sorted_events@,
        spec.nodes@,
        index,
        spec.nodes@[node].id@,
        status,
    );
    lemma_node_starts_with(
        network,
        spec,
        events,
        tracer,
        rng_state,
        now,
        node,
        opposite_node_status(status),
        status.spec_opposite(),
    );
}

/// A node without status events is up when the network is set up.
pub proof fn law_nodes_without_events_start_up(
    network: NetworkView,
    spec: NetworkSpec,
    events: NetworkEvents,
    tracer: TracerView,
    rng_state: u64,
    now: Nanos,
    node: int,
)
    requires
        is_initialized(network, spec, events, tracer, rng_state, now),
        events.initial_node_events@ == initial_node_events_spec(
            events.sorted_events@,
            spec.nodes@,
        ),
        distinct_node_ids(spec.nodes@),
        0 <= node < spec.nodes@.len(),
        forall|i: int, s: UpdateNodeStatus|
            0 <= i < events.sorted_events@.len() ==> !#[trigger] sets_node_status(
                events.sorted_events@[i],
                spec.nodes@[node].id@,
                s,
            ),
    ensures
        network.nodes[node].id == spec.nodes@[node].id,
        network.nodes[node].status == NodeStatus::Up,
{
    law_node_without_events_is_up(events.sorted_events@, spec.nodes@, node);
    let all = events.initial_node_events@;
    let up = crate::network::event::node_status_event(spec.nodes@[node].id, UpdateNodeStatus::Up);
    let i = choose|i: int| 0 <= i < all.len() && all[i] == up;
    assert(all[i].node_id@ == spec.nodes@[node].id@);
    lemma_node_starts_with(
        network,
        spec,
        events,
        tracer,
        rng_state,
        now,
        node,
        NodeStatus::Up,
        UpdateNodeStatus::Up,
    );
}

/// Events take effect in the order of their times, and none of them is left out.
pub proof fn law_events_come_in_order(
    events: Seq<NetworkEvent>,
    sorted: Seq<NetworkEvent>,
    i: int,
    j: int,
)
    requires
        is_stable_sort(events, sorted),
        0 <= i < j < sorted.len(),
    ensures
        sorted[i].relative_time <= sorted[j].relative_time,
        sorted.to_multiset() == events.to_multiset(),
{
    assert(sorted[i].precedes(sorted[j]));
}

} // verus!
