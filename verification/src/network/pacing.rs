//! How much of a link's time its packets take, over a whole run.

use crate::network::accounting::TicketState;
use crate::network::event::NetworkEvents;
use crate::network::handling::{
    law_new_network_holds_nothing, lemma_dispatched, lemma_link_kept,
};
use crate::network::link::{total_delay, PacketPacer, BATCH_MAX_DELAY};
use crate::network::run::NetworkStep;
use crate::network::setup::is_initialized;
use crate::network::spec::NetworkSpec;
use crate::network::NetworkView;
use crate::random::Roll;
use crate::time::{Nanos, SPAN_MAX};
use crate::tracing::tracer::TracerView;
use vstd::prelude::*;

verus! {

/// When the step happens, if that matters to it.
pub open spec fn time_of(step: NetworkStep) -> Option<Nanos> {
    match step {
        NetworkStep::Send { now, .. } => Some(now),
        NetworkStep::React { now, .. } => Some(now),
        NetworkStep::Complete { now, .. } => Some(now),
        NetworkStep::Deliver { now, .. } => Some(now),
        NetworkStep::Read { now, .. } => Some(now),
        NetworkStep::Event { now, .. } => Some(now),
        _ => None,
    }
}

/// When the last of the steps happens; `start` if there is none.
pub open spec fn time_after(start: Nanos, steps: Seq<NetworkStep>) -> Nanos
    decreases steps.len(),
{
    if steps.len() == 0 {
        start
    } else {
        match time_of(steps.last()) {
            Some(now) => now,
            None => time_after(start, steps.drop_last()),
        }
    }
}

/// Time does not run backwards: none of the steps happens before the one that comes before it, nor
/// before `start`. Times and delays are within range.
pub open spec fn in_time_order(start: Nanos, steps: Seq<NetworkStep>) -> bool
    decreases steps.len(),
{
    steps.len() > 0 ==> {
        &&& in_time_order(start, steps.drop_last())
        &&& time_of(steps.last()) matches Some(now) ==> time_after(start, steps.drop_last()) <= now
            <= SPAN_MAX
        &&& steps.last() matches NetworkStep::Complete { packet_delay, .. } ==> packet_delay
            <= SPAN_MAX
    }
}

/// Until when the pacer is booked: when the last batch is sent.
pub open spec fn booked_until(pacer: PacketPacer) -> int {
    pacer.batch.created + pacer.batch.delay
}

impl NetworkView {
    /// When the link sends a packet in the step, and how long that packet takes.
    pub open spec fn sent_in(self, step: NetworkStep, link: int) -> Option<(Nanos, Nanos)> {
        match step {
            NetworkStep::Complete { link: l, now, packet_delay } if l == link && (self.handled_in(
                step,
            ) matches Some((_, outcome)) && outcome == TicketState::Sent) => Some(
                (now, packet_delay),
            ),
            _ => None,
        }
    }

    /// What the link sends in a run: when each packet is sent, and how long it takes.
    pub open spec fn all_sent(
        self,
        steps: Seq<NetworkStep>,
        draw: spec_fn(u64) -> Roll,
        link: int,
    ) -> Seq<(Nanos, Nanos)>
        decreases steps.len(),
    {
        if steps.len() == 0 {
            Seq::empty()
        } else {
            let earlier = self.all_sent(steps.drop_last(), draw, link);
            match self.run(steps.drop_last(), draw).sent_in(steps.last(), link) {
                Some(send) => earlier.push(send),
                None => earlier,
            }
        }
    }
}

/// A pacer that is asked at some time is booked no less than before.
proof fn lemma_asked(pacer: PacketPacer, now: Nanos)
    requires
        pacer.batch.created <= now,
    ensures
        booked_until(pacer.current(now)) >= booked_until(pacer),
        pacer.current(now).batch.created <= now,
        pacer.current(now).batch.delay == 0 || pacer.current(now) == pacer,
{
}

/// In a step, a link books the time that the packet takes which it sends, after what it had booked.
proof fn lemma_step_books(
    network: NetworkView,
    step: NetworkStep,
    draw: spec_fn(u64) -> Roll,
    link: int,
)
    requires
        network.allows(step),
        0 <= link < network.links.len(),
        time_of(step) matches Some(now) ==> network.links[link].pacer.batch.created <= now
            <= SPAN_MAX,
        step matches NetworkStep::Complete { packet_delay, .. } ==> packet_delay <= SPAN_MAX,
    ensures
        ({
            let before = network.links[link].pacer;
            let after = network.after(step, draw).links[link].pacer;
            &&& network.after(step, draw).links.len() == network.links.len()
            &&& after.batch.created <= match time_of(step) {
                Some(now) => now,
                None => before.batch.created,
            }
            &&& match network.sent_in(step, link) {
                Some(send) => booked_until(after) >= booked_until(before) + send.1 && (
                after.batch.delay == send.1 || after.batch.delay < BATCH_MAX_DELAY),
                None => booked_until(after) >= booked_until(before) && (after.batch.delay == 0
                    || after == before),
            }
        }),
{
    let before = network.links[link];
    assert(before.wf());
    match step {
        NetworkStep::Dispatch { node } => {
            lemma_dispatched(network, node, draw, link);
        },
        NetworkStep::React { link: l, event, now, packet_delay } if l == link => {
            lemma_asked(before.pacer, now);
            let after = network.after(step, draw).links[link];
            assert(after.pacer == before.pacer || after.pacer == before.pacer.current(now));
        },
        NetworkStep::Complete { link: l, now, packet_delay } if l == link => {
            lemma_asked(before.pacer, now);
        },
        _ => {
            lemma_link_kept(network, step, draw, link);
        },
    }
}

/// No link sends more than its bandwidth allows, whatever is done to the network, as long as time
/// does not run backwards: the packets that a link sends in a run take no more time together than
/// the link has booked in the run. It never books beyond the batch that it sends at the moment, and
/// unless that is a single packet, it takes less than [`BATCH_MAX_DELAY`].
pub proof fn law_runs_respect_the_bandwidth(
    network: NetworkView,
    steps: Seq<NetworkStep>,
    draw: spec_fn(u64) -> Roll,
    link: int,
    start: Nanos,
)
    requires
        network.allows_all(steps, draw),
        0 <= link < network.links.len(),
        network.links[link].pacer.batch.created <= start,
        in_time_order(start, steps),
    ensures
        ({
            let before = network.links[link].pacer;
            let after = network.run(steps, draw).links[link].pacer;
            let sends = network.all_sent(steps, draw, link);
            &&& network.run(steps, draw).links.len() == network.links.len()
            &&& total_delay(sends) <= booked_until(after) - booked_until(before)
            &&& after.batch.created <= time_after(start, steps)
            &&& after.batch.delay < BATCH_MAX_DELAY || after == before || sends.len() > 0
                && after.batch.delay == sends.last().1
        }),
    decreases steps.len(),
{
    if steps.len() > 0 {
        let earlier = steps.drop_last();
        law_runs_respect_the_bandwidth(network, earlier, draw, link, start);
        let before = network.run(earlier, draw);
        lemma_step_books(before, steps.last(), draw, link);
        let sends = network.all_sent(earlier, draw, link);
        if let Some(send) = before.sent_in(steps.last(), link) {
            assert(sends.push(send).drop_last() =~= sends);
        }
    }
}

/// No link sends more than its bandwidth allows, from the time the network is set up: the packets
/// that a link has sent take no more time together than has passed since, and than the batch takes
/// that it sends at the moment.
pub proof fn law_links_respect_their_bandwidth(
    network: NetworkView,
    spec: NetworkSpec,
    events: NetworkEvents,
    tracer: TracerView,
    rng_state: u64,
    now: Nanos,
    steps: Seq<NetworkStep>,
    draw: spec_fn(u64) -> Roll,
    link: int,
)
    requires
        is_initialized(network, spec, events, tracer, rng_state, now),
        network.allows_all(steps, draw),
        0 <= link < network.links.len(),
        in_time_order(now, steps),
    ensures
        ({
            let batch = network.run(steps, draw).links[link].pacer.batch;
            let sends = network.all_sent(steps, draw, link);
            &&& total_delay(sends) <= batch.created + batch.delay - now
            &&& total_delay(sends) <= time_after(now, steps) - now + batch.delay
            &&& batch.delay < BATCH_MAX_DELAY || sends.len() > 0 && batch.delay == sends.last().1
        }),
{
    law_new_network_holds_nothing(network, spec, events, tracer, rng_state, now);
    law_runs_respect_the_bandwidth(network, steps, draw, link, now);
}

} // verus!
