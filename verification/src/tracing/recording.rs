//! What the record of a simulation tells about its packets.

use crate::network::event::{LinkEventPayload, NodeEventPayload};
use crate::search::first_of;
use crate::text::decimal;
use crate::time::Nanos;
use crate::tracing::simulation_step::{
    DropReason, GenericPacketEvent, SimulationStep, SimulationStepKind,
};
use crate::tracing::simulation_stepper::{
    arrival, arrival_of, departure_of, drop_of, drops, drops_have_sender, hop_of, hops, path,
};
use crate::tracing::tracer::{TracerView, WarningView};
use crate::transmit::{PacketId, PacketView};
use vstd::prelude::*;

verus! {

/// The step puts the packet into a node.
pub open spec fn arrives(step: SimulationStep, id: PacketId) -> bool {
    step.kind matches SimulationStepKind::PacketInNode(s) && s.packet_id == id
}

/// The step puts the packet into the node.
pub open spec fn arrives_at(step: SimulationStep, id: PacketId, node_id: Seq<char>) -> bool {
    step.kind matches SimulationStepKind::PacketInNode(s) && s.packet_id == id && s.node_id@
        == node_id
}

/// The step puts the packet on a link that leaves the node.
pub open spec fn departs_from(step: SimulationStep, id: PacketId, node_id: Seq<char>) -> bool {
    step.kind matches SimulationStepKind::PacketInTransit(s) && s.packet_id == id && s.node_id@
        == node_id
}

/// The packet was in the node before it was in any other one.
pub open spec fn is_sent_by(steps: Seq<SimulationStep>, id: PacketId, node_id: Seq<char>) -> bool {
    exists|i: int|
        0 <= i < steps.len() && arrives_at(#[trigger] steps[i], id, node_id) && forall|j: int|
            0 <= j < i ==> !arrives(#[trigger] steps[j], id)
}

/// The step drops a packet of the sender for the reason.
pub open spec fn loses_packet_of(
    steps: Seq<SimulationStep>,
    step: SimulationStep,
    sender: Seq<char>,
    reason: DropReason,
) -> bool {
    step.kind matches SimulationStepKind::PacketDropped(s) && s.reason == reason && is_sent_by(
        steps,
        s.packet_id,
        sender,
    )
}

/// How many of the first `count` steps drop a packet of the sender for the reason.
pub open spec fn losses(
    steps: Seq<SimulationStep>,
    count: nat,
    sender: Seq<char>,
    reason: DropReason,
) -> nat
    decreases count,
{
    if count == 0 {
        0
    } else {
        losses(steps, (count - 1) as nat, sender, reason) + if loses_packet_of(
            steps,
            steps[count - 1],
            sender,
            reason,
        ) {
            1nat
        } else {
            0
        }
    }
}

/// The first of the steps that give a value is the one that counts.
proof fn lemma_first_of_steps(
    steps: Seq<SimulationStep>,
    f: spec_fn(SimulationStep) -> Option<Nanos>,
    n: int,
)
    requires
        0 <= n <= steps.len(),
    ensures
        match first_of(steps.take(n).filter_map(f)) {
            Some(time) => exists|i: int|
                0 <= i < n && f(#[trigger] steps[i]) == Some(time) && forall|j: int|
                    0 <= j < i ==> f(#[trigger] steps[j]) is None,
            None => forall|j: int| 0 <= j < n ==> f(#[trigger] steps[j]) is None,
        },
    decreases n,
{
    if n == 0 {
        assert(steps.take(0).filter_map(f) =~= Seq::empty());
    } else {
        lemma_first_of_steps(steps, f, n - 1);
        steps.lemma_filter_map_take_succ(f, n - 1);
        let before = steps.take(n - 1).filter_map(f);
        let after = steps.take(n).filter_map(f);
        if before.len() > 0 {
            assert(after[0] == before[0]);
        } else {
            assert(before =~= Seq::empty());
            match f(steps[n - 1]) {
                Some(time) => {
                    assert(after[0] == time);
                },
                None => {},
            }
        }
    }
}

/// A packet was sent from a node when it first left the node over a link, and never if no step says
/// that it did.
pub proof fn law_departures_are_found(
    steps: Seq<SimulationStep>,
    id: PacketId,
    node_id: Seq<char>,
)
    ensures
        match first_of(steps.filter_map(|s: SimulationStep| departure_of(s, id, node_id))) {
            Some(time) => exists|i: int|
                0 <= i < steps.len() && departs_from(#[trigger] steps[i], id, node_id)
                    && steps[i].relative_time == time && forall|j: int|
                    0 <= j < i ==> !departs_from(#[trigger] steps[j], id, node_id),
            None => forall|j: int|
                0 <= j < steps.len() ==> !departs_from(#[trigger] steps[j], id, node_id),
        },
{
    let f = |s: SimulationStep| departure_of(s, id, node_id);
    lemma_first_of_steps(steps, f, steps.len() as int);
    assert(steps.take(steps.len() as int) =~= steps);
    assert forall|j: int| 0 <= j < steps.len() implies f(#[trigger] steps[j]) == if departs_from(
        steps[j],
        id,
        node_id,
    ) {
        Some(steps[j].relative_time)
    } else {
        None
    } by {}
}

/// A packet arrived at a node when it first was in the node, and never if no step says that it was.
pub proof fn law_arrivals_are_found(steps: Seq<SimulationStep>, id: PacketId, node_id: Seq<char>)
    ensures
        match arrival(steps, id, node_id) {
            Some(time) => exists|i: int|
                0 <= i < steps.len() && arrives_at(#[trigger] steps[i], id, node_id)
                    && steps[i].relative_time == time && forall|j: int|
                    0 <= j < i ==> !arrives_at(#[trigger] steps[j], id, node_id),
            None => forall|j: int|
                0 <= j < steps.len() ==> !arrives_at(#[trigger] steps[j], id, node_id),
        },
{
    let f = |s: SimulationStep| arrival_of(s, id, node_id);
    lemma_first_of_steps(steps, f, steps.len() as int);
    assert(steps.take(steps.len() as int) =~= steps);
    assert forall|j: int| 0 <= j < steps.len() implies f(#[trigger] steps[j]) == if arrives_at(
        steps[j],
        id,
        node_id,
    ) {
        Some(steps[j].relative_time)
    } else {
        None
    } by {}
}

/// Every step that puts a packet into a node is a hop of that packet, and nothing else is: hops come
/// in the order of the steps, with their times and nodes.
pub proof fn law_hops_follow_the_steps(
    steps: Seq<SimulationStep>,
    step: SimulationStep,
    id: PacketId,
)
    ensures
        hops(Seq::empty(), id).len() == 0,
        path(steps, id).len() == hops(steps, id).len(),
        step.kind matches SimulationStepKind::PacketInNode(s) ==> s.packet_id == id ==> hops(
            steps.push(step),
            id,
        ) == hops(steps, id).push((step.relative_time, s.node_id)) && path(steps.push(step), id)
            == path(steps, id).push(s.node_id),
        !arrives(step, id) ==> hops(steps.push(step), id) == hops(steps, id) && path(
            steps.push(step),
            id,
        ) == path(steps, id),
{
    let f = |s: SimulationStep| hop_of(s, id);
    let all = steps.push(step);
    let n = steps.len() as int;
    all.lemma_filter_map_take_succ(f, n);
    assert(all.take(n) =~= steps);
    assert(all.take(n + 1) =~= all);
    assert(Seq::<SimulationStep>::empty().filter_map(f) =~= Seq::empty());
    if let SimulationStepKind::PacketInNode(s) = step.kind {
        if s.packet_id == id {
            assert(hops(all, id) =~= hops(steps, id).push((step.relative_time, s.node_id)));
            assert(path(all, id) =~= path(steps, id).push(s.node_id));
        }
    }
}

/// The first hop of a packet is at its sender.
proof fn lemma_first_hop_is_at_the_sender(
    steps: Seq<SimulationStep>,
    id: PacketId,
    n: int,
)
    requires
        0 <= n <= steps.len(),
    ensures
        hops(steps.take(n), id).len() == 0 ==> forall|j: int|
            0 <= j < n ==> !arrives(#[trigger] steps[j], id),
        hops(steps.take(n), id).len() > 0 ==> exists|i: int|
            0 <= i < n && arrives_at(#[trigger] steps[i], id, hops(steps.take(n), id)[0].1@)
                && forall|j: int| 0 <= j < i ==> !arrives(#[trigger] steps[j], id),
    decreases n,
{
    if n > 0 {
        lemma_first_hop_is_at_the_sender(steps, id, n - 1);
        let before = steps.take(n - 1);
        law_hops_follow_the_steps(before, steps[n - 1], id);
        assert(before.push(steps[n - 1]) =~= steps.take(n));
        if hops(before, id).len() > 0 {
            assert(hops(steps.take(n), id)[0] == hops(before, id)[0]);
        } else if arrives(steps[n - 1], id) {
            assert(arrives_at(steps[n - 1], id, hops(steps.take(n), id)[0].1@));
        }
    }
}

proof fn lemma_sender_of_drop(
    steps: Seq<SimulationStep>,
    step: SimulationStep,
    sender: Seq<char>,
    reason: DropReason,
)
    requires
        step.kind matches SimulationStepKind::PacketDropped(s) ==> hops(
            steps,
            s.packet_id,
        ).len() > 0,
    ensures
        drop_of(steps, step, sender, reason) is Some <==> loses_packet_of(
            steps,
            step,
            sender,
            reason,
        ),
{
    if let SimulationStepKind::PacketDropped(s) = step.kind {
        let id = s.packet_id;
        let n = steps.len() as int;
        lemma_first_hop_is_at_the_sender(steps, id, n);
        assert(steps.take(n) =~= steps);
        let first = hops(steps, id)[0].1@;
        let i = choose|i: int|
            0 <= i < n && arrives_at(#[trigger] steps[i], id, first) && forall|j: int|
                0 <= j < i ==> !arrives(#[trigger] steps[j], id);
        assert(is_sent_by(steps, id, first));
        if is_sent_by(steps, id, sender) {
            let k = choose|k: int|
                0 <= k < n && arrives_at(#[trigger] steps[k], id, sender) && forall|j: int|
                    0 <= j < k ==> !arrives(#[trigger] steps[j], id);
            assert(arrives(steps[i], id) && arrives(steps[k], id));
            assert(i == k);
        }
    }
}

proof fn lemma_losses(
    steps: Seq<SimulationStep>,
    count: nat,
    sender: Seq<char>,
    reason: DropReason,
)
    requires
        drops_have_sender(steps),
        count <= steps.len(),
    ensures
        steps.take(count as int).filter_map(
            |s: SimulationStep| drop_of(steps, s, sender, reason),
        ).len() == losses(steps, count, sender, reason),
    decreases count,
{
    let f = |s: SimulationStep| drop_of(steps, s, sender, reason);
    if count == 0 {
        assert(steps.take(0).filter_map(f) =~= Seq::empty());
    } else {
        let k = count - 1;
        lemma_losses(steps, k as nat, sender, reason);
        steps.lemma_filter_map_take_succ(f, k);
        assert(steps[k].kind matches SimulationStepKind::PacketDropped(d) ==> hops(
            steps,
            d.packet_id,
        ).len() > 0);
        lemma_sender_of_drop(steps, steps[k], sender, reason);
    }
}

/// A node's dropped packets are those that were in the node before they were anywhere else, whatever
/// node dropped them; each reason is counted on its own.
pub proof fn law_drops_count_for_the_sender(
    steps: Seq<SimulationStep>,
    sender: Seq<char>,
    reason: DropReason,
)
    requires
        drops_have_sender(steps),
    ensures
        drops(steps, sender, reason).len() == losses(steps, steps.len(), sender, reason),
        forall|k: int|
            0 <= k < drops(steps, sender, reason).len() ==> is_sent_by(
                steps,
                #[trigger] drops(steps, sender, reason)[k],
                sender,
            ),
{
    lemma_losses(steps, steps.len(), sender, reason);
    assert(steps.take(steps.len() as int) =~= steps);
    let f = |s: SimulationStep| drop_of(steps, s, sender, reason);
    let all = drops(steps, sender, reason);
    assert forall|k: int| 0 <= k < all.len() implies is_sent_by(steps, #[trigger] all[k], sender) by {
        assert(steps.filter_map(f).contains(all[k]));
        steps.lemma_filter_map_contains(f, all[k]);
        let step = choose|s: SimulationStep| steps.contains(s) && #[trigger] f(s) == Some(all[k]);
        let i = choose|i: int| 0 <= i < steps.len() && steps[i] == step;
        assert(steps[i].kind matches SimulationStepKind::PacketDropped(d) ==> hops(
            steps,
            d.packet_id,
        ).len() > 0);
        lemma_sender_of_drop(steps, steps[i], sender, reason);
    }
}

/// The record has grown by the given steps, which happened at `now`, and by nothing else.
pub open spec fn recorded(
    before: TracerView,
    after: TracerView,
    now: Nanos,
    kinds: Seq<SimulationStepKind>,
) -> bool {
    &&& after.steps.len() == before.steps.len() + kinds.len()
    &&& forall|i: int| 0 <= i < before.steps.len() ==> after.steps[i] == #[trigger] before.steps[i]
    &&& forall|i: int|
        0 <= i < kinds.len() ==> after.steps[before.steps.len() + i].kind == #[trigger] kinds[i]
            && after.steps[before.steps.len() + i].relative_time == now - before.simulation_start
    &&& after.simulation_start == before.simulation_start
    &&& after.network_spec == before.network_spec
    &&& after.enable_warnings == before.enable_warnings
}

/// The given warnings came up at `now`, unless warnings are muted.
pub open spec fn warned(
    before: TracerView,
    after: TracerView,
    now: Nanos,
    messages: Seq<Seq<char>>,
) -> bool {
    if before.enable_warnings {
        &&& after.warnings.len() == before.warnings.len() + messages.len()
        &&& forall|i: int|
            0 <= i < before.warnings.len() ==> after.warnings[i] == #[trigger] before.warnings[i]
        &&& forall|i: int|
            0 <= i < messages.len() ==> after.warnings[before.warnings.len() + i] == (WarningView {
                relative_time: (now - before.simulation_start) as u128,
                message: #[trigger] messages[i],
            })
    } else {
        after.warnings == before.warnings
    }
}

/// The step is about the packet and the node, and tells the packet's number and size.
pub open spec fn describes(event: GenericPacketEvent, node_id: String, packet: PacketView) -> bool {
    &&& event.packet_id == packet.id
    &&& event.packet_number == packet.number
    &&& event.packet_size_bytes == packet.transmit.contents.len()
    &&& event.node_id == node_id
}

/// When a packet is tracked in a node, the record tells where the packet was, at which time, how
/// large it was, and whether it was dropped there because the node was down. No warning comes up.
pub proof fn law_arrivals_are_recorded(
    tracer: TracerView,
    now: Nanos,
    node_id: String,
    packet: PacketView,
    dropped_on_arrival: bool,
)
    requires
        tracer.simulation_start <= now,
        packet.transmit.contents.len() <= usize::MAX,
    ensures
        ({
            let after = tracer.packet_in_node(now, node_id, packet, dropped_on_arrival);
            let kind = after.steps.last().kind;
            &&& recorded(tracer, after, now, seq![kind])
            &&& warned(tracer, after, now, Seq::empty())
            &&& after.warned == tracer.warned
            &&& kind matches SimulationStepKind::PacketInNode(s) && s.packet_id == packet.id
                && s.packet_number == packet.number && s.packet_size_bytes
                == packet.transmit.contents.len() && s.node_id == node_id && s.dropped_on_arrival
                == dropped_on_arrival
        }),
{
}

/// When a packet is tracked in transit or lost in transit, the record tells which packet it was, and
/// over which link it went. No warning comes up.
pub proof fn law_transits_are_recorded(
    tracer: TracerView,
    now: Nanos,
    node_id: String,
    link_id: String,
    packet: PacketView,
)
    requires
        tracer.simulation_start <= now,
    ensures
        ({
            let sent = tracer.packet_in_transit(now, node_id, link_id, packet);
            let lost = tracer.lost_in_transit(now, link_id, packet);
            &&& recorded(tracer, sent, now, seq![sent.steps.last().kind])
            &&& warned(tracer, sent, now, Seq::empty())
            &&& sent.warned == tracer.warned
            &&& sent.steps.last().kind matches SimulationStepKind::PacketInTransit(s)
                && s.packet_id == packet.id && s.node_id == node_id && s.link_id == link_id
            &&& recorded(tracer, lost, now, seq![lost.steps.last().kind])
            &&& warned(tracer, lost, now, Seq::empty())
            &&& lost.warned == tracer.warned
            &&& lost.steps.last().kind matches SimulationStepKind::PacketLostInTransit(s)
                && s.packet_id == packet.id && s.link_id == link_id
        }),
{
}

/// Every drop is recorded with its reason. Losses by chance come with a warning each, drops from a
/// full buffer with one warning for each node, and cleared packets with none.
pub proof fn law_drops_are_recorded(
    tracer: TracerView,
    now: Nanos,
    node_id: String,
    packet: PacketView,
    reason: DropReason,
)
    requires
        tracer.simulation_start <= now,
    ensures
        ({
            let after = match reason {
                DropReason::Random => tracer.dropped_randomly(now, node_id, packet),
                DropReason::BufferFull => tracer.dropped_because_buffer_full(now, node_id, packet),
                _ => tracer.dropped(now, node_id, packet, reason),
            };
            let known = exists|i: int|
                0 <= i < tracer.warned.len() && #[trigger] tracer.warned[i] == node_id@;
            let messages = match reason {
                DropReason::Random => seq![
                    packet.source_id + " packet lost (#"@ + decimal(packet.number as nat) + ")!"@,
                ],
                DropReason::BufferFull if !known => seq![
                    "packet #"@ + decimal(packet.number as nat) + " dropped by node `"@ + node_id@
                        + "` because its outbound buffer is full! (Note: further warnings for this link will be omitted to avoid cluttering the output)"@,
                ],
                _ => Seq::empty(),
            };
            &&& recorded(tracer, after, now, seq![after.steps.last().kind])
            &&& after.steps.last().kind matches SimulationStepKind::PacketDropped(s) && s.packet_id
                == packet.id && s.node_id == node_id && s.reason == reason
            &&& warned(tracer, after, now, messages)
            &&& after.warned == if reason == DropReason::BufferFull && !known {
                tracer.warned.push(node_id@)
            } else {
                tracer.warned
            }
        }),
{
    if tracer.warned.contains(node_id@) {
        let i = choose|i: int| 0 <= i < tracer.warned.len() && tracer.warned[i] == node_id@;
        assert(tracer.warned[i] == node_id@);
    }
}

/// However often packets are dropped from the full buffer of a node, there is only one warning.
pub proof fn law_full_buffers_are_warned_about_once(
    tracer: TracerView,
    now: Nanos,
    later: Nanos,
    node_id: String,
    packet: PacketView,
    other: PacketView,
)
    ensures
        ({
            let once = tracer.dropped_because_buffer_full(now, node_id, packet);
            let twice = once.dropped_because_buffer_full(later, node_id, other);
            twice.warnings == once.warnings && once.warned.contains(node_id@) && twice.steps.len()
                == tracer.steps.len() + 2
        }),
{
    let once = tracer.dropped_because_buffer_full(now, node_id, packet);
    if !tracer.warned.contains(node_id@) {
        assert(once.warned[tracer.warned.len() as int] == node_id@);
    }
}

/// What was injected is recorded: a delay if there is one, a copy, and a congestion mark, in this
/// order. Copies and marks come with a warning each.
pub proof fn law_failures_are_recorded(
    tracer: TracerView,
    now: Nanos,
    node_id: String,
    packet: PacketView,
    duplicate: bool,
    extra_delay: Nanos,
    congestion_experienced: bool,
)
    requires
        tracer.simulation_start <= now,
        packet.transmit.contents.len() <= usize::MAX,
    ensures
        ({
            let after = tracer.injected_failures(
                now,
                node_id,
                packet,
                duplicate,
                extra_delay,
                congestion_experienced,
            );
            let n = tracer.steps.len() as int;
            let delays: int = if extra_delay != 0 {
                1
            } else {
                0
            };
            let copies: int = if duplicate {
                1
            } else {
                0
            };
            let marks: int = if congestion_experienced {
                1
            } else {
                0
            };
            &&& recorded(
                tracer,
                after,
                now,
                after.steps.subrange(n, n + delays + copies + marks).map_values(
                    |s: SimulationStep| s.kind,
                ),
            )
            &&& delays == 1 ==> (after.steps[n].kind matches SimulationStepKind::PacketExtraDelay(s)
                && s.packet_id == packet.id && s.node_id == node_id && s.extra_delay == extra_delay)
            &&& copies == 1 ==> (after.steps[n
                + delays].kind matches SimulationStepKind::PacketDuplicated(s) && describes(
                s,
                node_id,
                packet,
            ))
            &&& marks == 1 ==> (after.steps[n + delays
                + copies].kind matches SimulationStepKind::PacketCongestionEvent(s) && describes(
                s,
                node_id,
                packet,
            ))
            &&& warned(
                tracer,
                after,
                now,
                (if duplicate {
                    seq![
                        node_id@ + " sent duplicate packet (#"@ + decimal(packet.number as nat)
                            + ")!"@,
                    ]
                } else {
                    Seq::empty()
                }) + (if congestion_experienced {
                    seq![
                        node_id@ + " marked packet with CE ECN (#"@ + decimal(packet.number as nat)
                            + ")!"@,
                    ]
                } else {
                    Seq::empty()
                }),
            )
            &&& after.warned == tracer.warned
        }),
{
}

/// Events, and packets that an application reads, are recorded as they are. No warning comes up.
pub proof fn law_events_and_reads_are_recorded(
    tracer: TracerView,
    now: Nanos,
    link_event: LinkEventPayload,
    node_event: NodeEventPayload,
    node_id: String,
    packet: PacketView,
)
    requires
        tracer.simulation_start <= now,
        packet.transmit.contents.len() <= usize::MAX,
    ensures
        ({
            let link = tracer.link_event(now, link_event);
            let node = tracer.node_event(now, node_event);
            let read = tracer.read_by_application(now, node_id, packet);
            &&& recorded(tracer, link, now, seq![link.steps.last().kind])
            &&& warned(tracer, link, now, Seq::empty())
            &&& link.steps.last().kind matches SimulationStepKind::NetworkEvent(e) && e.link
                == Some(link_event) && e.node is None
            &&& recorded(tracer, node, now, seq![node.steps.last().kind])
            &&& warned(tracer, node, now, Seq::empty())
            &&& node.steps.last().kind matches SimulationStepKind::NetworkEvent(e) && e.node
                == Some(node_event) && e.link is None
            &&& recorded(tracer, read, now, seq![read.steps.last().kind])
            &&& warned(tracer, read, now, Seq::empty())
            &&& read.steps.last().kind matches SimulationStepKind::PacketDeliveredToApplication(e)
                && describes(e, node_id, packet)
        }),
{
}

} // verus!
