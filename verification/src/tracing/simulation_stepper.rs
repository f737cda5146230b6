//! Questions about the recorded steps of a simulation.

use crate::search::{first_index, first_of, lemma_filter_map_prefix, lemma_first_index};
use crate::time::Nanos;
use crate::tracing::simulation_step::{DropReason, SimulationStep, SimulationStepKind};
use crate::transmit::PacketId;
use vstd::prelude::*;

verus! {

/// The steps of a simulation, in the order in which they happened.
pub struct SimulationStepper {
    pub steps: Vec<SimulationStep>,
}

/// The time and place of the step, if it puts the packet into a node.
pub open spec fn hop_of(step: SimulationStep, id: PacketId) -> Option<(Nanos, String)> {
    match step.kind {
        SimulationStepKind::PacketInNode(s) if s.packet_id == id => Some(
            (step.relative_time, s.node_id),
        ),
        _ => None,
    }
}

/// The nodes that the packet reached, with the time at which it reached each of them.
pub open spec fn hops(steps: Seq<SimulationStep>, id: PacketId) -> Seq<(Nanos, String)> {
    steps.filter_map(|s: SimulationStep| hop_of(s, id))
}

/// The nodes that the packet reached.
pub open spec fn path(steps: Seq<SimulationStep>, id: PacketId) -> Seq<String> {
    hops(steps, id).map_values(|hop: (Nanos, String)| hop.1)
}

/// The time of the step, if it puts the packet on a link that leaves the node.
pub open spec fn departure_of(step: SimulationStep, id: PacketId, node_id: Seq<char>) -> Option<
    Nanos,
> {
    match step.kind {
        SimulationStepKind::PacketInTransit(s) if s.packet_id == id && s.node_id@
            == node_id => Some(step.relative_time),
        _ => None,
    }
}

/// The time of the step, if it puts the packet into the node.
pub open spec fn arrival_of(step: SimulationStep, id: PacketId, node_id: Seq<char>) -> Option<
    Nanos,
> {
    match step.kind {
        SimulationStepKind::PacketInNode(s) if s.packet_id == id && s.node_id@ == node_id => Some(
            step.relative_time,
        ),
        _ => None,
    }
}

/// When the packet first reached the node.
pub open spec fn arrival(steps: Seq<SimulationStep>, id: PacketId, node_id: Seq<char>) -> Option<
    Nanos,
> {
    first_of(steps.filter_map(|s: SimulationStep| arrival_of(s, id, node_id)))
}

/// The hop reaches the node.
pub open spec fn reaches(node_id: Seq<char>) -> spec_fn((Nanos, String)) -> bool {
    |hop: (Nanos, String)| hop.1@ == node_id
}

/// The time of the first of the hops that reached the node.
pub open spec fn first_hop_at(hops: Seq<(Nanos, String)>, node_id: Seq<char>) -> Option<Nanos> {
    match first_index(hops, reaches(node_id)) {
        Some(i) => Some(hops[i].0),
        None => None,
    }
}

/// The node is on the path.
pub open spec fn is_on_path(path: Seq<String>, node_id: Seq<char>) -> bool {
    exists|i: int| 0 <= i < path.len() && (#[trigger] path[i])@ == node_id
}

/// The packet that the step drops for the given reason, if it was sent from `source_node`.
pub open spec fn drop_of(
    steps: Seq<SimulationStep>,
    step: SimulationStep,
    source_node: Seq<char>,
    reason: DropReason,
) -> Option<PacketId> {
    match step.kind {
        SimulationStepKind::PacketDropped(s) if s.reason == reason && hops(
            steps,
            s.packet_id,
        )[0].1@ == source_node => Some(s.packet_id),
        _ => None,
    }
}

/// The packets sent from `source_node` that were dropped for the given reason.
pub open spec fn drops(
    steps: Seq<SimulationStep>,
    source_node: Seq<char>,
    reason: DropReason,
) -> Seq<PacketId> {
    steps.filter_map(|s: SimulationStep| drop_of(steps, s, source_node, reason))
}

/// Every packet that was dropped had been in a node before.
pub open spec fn drops_have_sender(steps: Seq<SimulationStep>) -> bool {
    forall|i: int|
        0 <= i < steps.len() ==> (#[trigger] steps[i].kind matches SimulationStepKind::PacketDropped(
            s,
        ) ==> hops(steps, s.packet_id).len() > 0)
}

/// The number of packets sent from `source_node` that were dropped, whatever the reason.
pub open spec fn dropped_from(steps: Seq<SimulationStep>, source_node: Seq<char>) -> nat {
    drops(steps, source_node, DropReason::ZeroTtl).len() + drops(
        steps,
        source_node,
        DropReason::Random,
    ).len() + drops(steps, source_node, DropReason::BufferFull).len() + drops(
        steps,
        source_node,
        DropReason::BufferCleared,
    ).len()
}

/// The number of packets sent from any of the nodes that were dropped.
pub open spec fn dropped_from_all(
    steps: Seq<SimulationStep>,
    source_nodes: Seq<Seq<char>>,
) -> nat
    decreases source_nodes.len(),
{
    if source_nodes.len() == 0 {
        0
    } else {
        dropped_from_all(steps, source_nodes.drop_last()) + dropped_from(
            steps,
            source_nodes.last(),
        )
    }
}

/// The steps that drop a packet.
pub open spec fn all_drops(steps: Seq<SimulationStep>) -> Seq<SimulationStep> {
    steps.filter(|s: SimulationStep| s.kind is PacketDropped)
}

/// Every node in which a packet has been is among the given ones.
pub open spec fn holds_all_nodes(
    steps: Seq<SimulationStep>,
    source_nodes: Seq<Seq<char>>,
) -> bool {
    forall|i: int|
        0 <= i < steps.len() ==> (#[trigger] steps[i].kind matches SimulationStepKind::PacketInNode(
            s,
        ) ==> source_nodes.contains(s.node_id@))
}

proof fn lemma_arrival_is_the_first_hop(
    steps: Seq<SimulationStep>,
    id: PacketId,
    node_id: Seq<char>,
    n: int,
)
    requires
        0 <= n <= steps.len(),
    ensures
        arrival(steps.take(n), id, node_id) == first_hop_at(hops(steps.take(n), id), node_id),
    decreases n,
{
    let arrivals = |s: SimulationStep| arrival_of(s, id, node_id);
    let reached = |s: SimulationStep| hop_of(s, id);
    let there = reaches(node_id);
    if n == 0 {
        assert(steps.take(0).filter_map(arrivals) =~= Seq::empty());
        assert(steps.take(0).filter_map(reached) =~= Seq::empty());
    } else {
        lemma_arrival_is_the_first_hop(steps, id, node_id, n - 1);
        steps.lemma_filter_map_take_succ(arrivals, n - 1);
        steps.lemma_filter_map_take_succ(reached, n - 1);
        let before = hops(steps.take(n - 1), id);
        lemma_first_index(before, there);
        let after = hops(steps.take(n), id);
        match hop_of(steps[n - 1], id) {
            Some(hop) => {
                assert(after =~= before.push(hop));
                assert(after.drop_last() =~= before);
                assert(there(hop) <==> arrivals(steps[n - 1]) == Some(hop.0));
                assert(!there(hop) <==> arrivals(steps[n - 1]) is None);
            },
            None => {
                assert(after =~= before);
                assert(arrivals(steps[n - 1]) is None);
            },
        }
    }
}

/// A packet arrived at a node when it made its first hop there, and never if the node is not on the
/// packet's path.
pub proof fn law_arrival_is_the_first_hop(
    steps: Seq<SimulationStep>,
    id: PacketId,
    node_id: Seq<char>,
)
    ensures
        arrival(steps, id, node_id) == first_hop_at(hops(steps, id), node_id),
        arrival(steps, id, node_id) is None <==> !is_on_path(path(steps, id), node_id),
{
    lemma_arrival_is_the_first_hop(steps, id, node_id, steps.len() as int);
    assert(steps.take(steps.len() as int) =~= steps);
    let all = hops(steps, id);
    let there = reaches(node_id);
    lemma_first_index(all, there);
    match first_index(all, there) {
        Some(i) => {
            assert(path(steps, id)[i]@ == node_id);
        },
        None => {
            assert forall|i: int| 0 <= i < path(steps, id).len() implies (
            #[trigger] path(steps, id)[i])@ != node_id by {
                assert(!there(all[i]));
            }
        },
    }
}

impl Clone for SimulationStepper {
    fn clone(&self) -> (r: Self)
        ensures
            r.steps@ == self.steps@,
    {
        let mut steps: Vec<SimulationStep> = Vec::new();
        for i in 0..self.steps.len()
            invariant
                steps@ == self.steps@.take(i as int),
        {
            steps.push(self.steps[i].clone());
            assert(steps@ =~= self.steps@.take(i + 1));
        }
        assert(self.steps@.take(self.steps@.len() as int) =~= self.steps@);
        SimulationStepper { steps }
    }
}

impl Default for SimulationStepper {
    fn default() -> (r: Self)
        ensures
            r.steps@ == Seq::<SimulationStep>::empty(),
    {
        SimulationStepper { steps: Vec::new() }
    }
}

impl SimulationStepper {
    /// Appends a step.
    pub fn record(&mut self, step: SimulationStep)
        ensures
            final(self).steps@ == old(self).steps@.push(step),
    {
        self.steps.push(step);
    }

    /// All recorded steps.
    pub fn steps(self) -> (steps: Vec<SimulationStep>)
        ensures
            steps == self.steps,
    {
        self.steps
    }

    /// The nodes that the packet reached, with the time at which it reached each of them.
    pub fn get_packet_hops(&self, id: PacketId) -> (r: Vec<(Nanos, String)>)
        ensures
            r@ == hops(self.steps@, id),
    {
        let mut hops: Vec<(Nanos, String)> = Vec::new();
        let ghost f = |s: SimulationStep| hop_of(s, id);
        assert(self.steps@.take(0).filter_map(f) =~= Seq::empty());
        for i in 0..self.steps.len()
            invariant
                f == (|s: SimulationStep| hop_of(s, id)),
                hops@ == self.steps@.take(i as int).filter_map(f),
        {
            proof {
                self.steps@.lemma_filter_map_take_succ(f, i as int);
            }
            let step = &self.steps[i];
            match &step.kind {
                SimulationStepKind::PacketInNode(s) => {
                    if s.packet_id == id {
                        hops.push((step.relative_time, s.node_id.clone()));
                    }
                },
                _ => {},
            }
            assert(hops@ =~= self.steps@.take(i + 1).filter_map(f));
        }
        assert(self.steps@.take(self.steps@.len() as int) =~= self.steps@);
        hops
    }

    fn get_packet_sender(&self, id: PacketId) -> (r: &String)
        requires
            hops(self.steps@, id).len() > 0,
        ensures
            *r == hops(self.steps@, id)[0].1,
    {
        let ghost f = |s: SimulationStep| hop_of(s, id);
        assert(self.steps@.take(0).filter_map(f) =~= Seq::empty());
        assert(self.steps@.take(self.steps@.len() as int) =~= self.steps@);
        let mut i: usize = 0;
        while i < self.steps.len()
            invariant
                i <= self.steps@.len(),
                f == (|s: SimulationStep| hop_of(s, id)),
                self.steps@.take(i as int).filter_map(f).len() == 0,
                hops(self.steps@, id) == self.steps@.filter_map(f),
                self.steps@.take(self.steps@.len() as int) == self.steps@,
                hops(self.steps@, id).len() > 0,
            decreases self.steps@.len() - i,
        {
            proof {
                self.steps@.lemma_filter_map_take_succ(f, i as int);
                lemma_filter_map_prefix(self.steps@, f, i + 1);
            }
            let step = &self.steps[i];
            match &step.kind {
                SimulationStepKind::PacketInNode(s) => {
                    if s.packet_id == id {
                        assert(self.steps@.take(i + 1).filter_map(f)[0]
                            == self.steps@.filter_map(f)[0]);
                        return &s.node_id;
                    }
                },
                _ => {},
            }
            i = i + 1;
        }
        vstd::pervasive::unreached()
    }

    /// The nodes that the packet reached.
    pub fn get_packet_path(&self, id: PacketId) -> (r: Vec<String>)
        ensures
            r@ == path(self.steps@, id),
    {
        let hops = self.get_packet_hops(id);
        let mut path: Vec<String> = Vec::new();
        for i in 0..hops.len()
            invariant
                path@ == hops@.take(i as int).map_values(|hop: (Nanos, String)| hop.1),
        {
            path.push(hops[i].1.clone());
            assert(path@ =~= hops@.take(i + 1).map_values(|hop: (Nanos, String)| hop.1));
        }
        assert(hops@.take(hops@.len() as int) =~= hops@);
        path
    }

    /// When the packet was first sent from the node.
    pub fn get_packet_sent_from(&self, packet_id: PacketId, node_id: &String) -> (r: Option<Nanos>)
        ensures
            r == first_of(
                self.steps@.filter_map(
                    |s: SimulationStep| departure_of(s, packet_id, node_id@),
                ),
            ),
    {
        let ghost f = |s: SimulationStep| departure_of(s, packet_id, node_id@);
        assert(self.steps@.take(0).filter_map(f) =~= Seq::empty());
        for i in 0..self.steps.len()
            invariant
                f == (|s: SimulationStep| departure_of(s, packet_id, node_id@)),
                self.steps@.take(i as int).filter_map(f).len() == 0,
        {
            proof {
                self.steps@.lemma_filter_map_take_succ(f, i as int);
                lemma_filter_map_prefix(self.steps@, f, i + 1);
            }
            let step = &self.steps[i];
            match &step.kind {
                SimulationStepKind::PacketInTransit(kind) => {
                    if kind.packet_id == packet_id && kind.node_id == *node_id {
                        assert(self.steps@.take(i + 1).filter_map(f)[0]
                            == self.steps@.filter_map(f)[0]);
                        return Some(step.relative_time);
                    }
                },
                _ => {},
            }
        }
        assert(self.steps@.take(self.steps@.len() as int) =~= self.steps@);
        None
    }

    /// When the packet first reached the node: the time of its first hop there.
    pub fn get_packet_arrived_at(&self, packet_id: PacketId, node_id: &String) -> (r: Option<Nanos>)
        ensures
            r == arrival(self.steps@, packet_id, node_id@),
            r == first_hop_at(hops(self.steps@, packet_id), node_id@),
            r is None <==> !is_on_path(path(self.steps@, packet_id), node_id@),
    {
        let ghost f = |s: SimulationStep| arrival_of(s, packet_id, node_id@);
        assert(self.steps@.take(0).filter_map(f) =~= Seq::empty());
        for i in 0..self.steps.len()
            invariant
                f == (|s: SimulationStep| arrival_of(s, packet_id, node_id@)),
                self.steps@.take(i as int).filter_map(f).len() == 0,
        {
            proof {
                self.steps@.lemma_filter_map_take_succ(f, i as int);
                lemma_filter_map_prefix(self.steps@, f, i + 1);
            }
            let step = &self.steps[i];
            match &step.kind {
                SimulationStepKind::PacketInNode(kind) => {
                    if kind.packet_id == packet_id && kind.node_id == *node_id {
                        assert(self.steps@.take(i + 1).filter_map(f)[0]
                            == self.steps@.filter_map(f)[0]);
                        proof {
                            law_arrival_is_the_first_hop(self.steps@, packet_id, node_id@);
                        }
                        return Some(step.relative_time);
                    }
                },
                _ => {},
            }
        }
        proof {
            assert(self.steps@.take(self.steps@.len() as int) =~= self.steps@);
            law_arrival_is_the_first_hop(self.steps@, packet_id, node_id@);
        }
        None
    }

    /// How many packets sent from `source_node` were dropped, for each reason; of those that took
    /// too many hops, the nodes that they passed.
    pub fn get_dropped_packet_info(&self, source_node: &String) -> (info: DroppedPacketInfo)
        requires
            drops_have_sender(self.steps@),
        ensures
            info.loops@.map_values(|p: Vec<String>| p@) == drops(
                self.steps@,
                source_node@,
                DropReason::ZeroTtl,
            ).map_values(|id: PacketId| path(self.steps@, id)),
            info.random == drops(self.steps@, source_node@, DropReason::Random).len(),
            info.buffer_full == drops(self.steps@, source_node@, DropReason::BufferFull).len(),
            info.buffer_cleared == drops(
                self.steps@,
                source_node@,
                DropReason::BufferCleared,
            ).len(),
            info.loops@.len() + info.random + info.buffer_full + info.buffer_cleared
                == dropped_from(self.steps@, source_node@),
            dropped_from(self.steps@, source_node@) <= self.steps@.len(),
    {
        let mut loops: Vec<Vec<String>> = Vec::new();
        let mut random: usize = 0;
        let mut buffer_full: usize = 0;
        let mut buffer_cleared: usize = 0;
        let ghost steps = self.steps@;
        let ghost fz = |s: SimulationStep| drop_of(steps, s, source_node@, DropReason::ZeroTtl);
        let ghost fr = |s: SimulationStep| drop_of(steps, s, source_node@, DropReason::Random);
        let ghost ff = |s: SimulationStep| drop_of(steps, s, source_node@, DropReason::BufferFull);
        let ghost fc = |s: SimulationStep|
            drop_of(steps, s, source_node@, DropReason::BufferCleared);
        let ghost to_path = |id: PacketId| path(steps, id);
        let ghost text = |p: Vec<String>| p@;
        proof {
            assert(steps.take(0).filter_map(fz) =~= Seq::empty());
            assert(steps.take(0).filter_map(fr) =~= Seq::empty());
            assert(steps.take(0).filter_map(ff) =~= Seq::empty());
            assert(steps.take(0).filter_map(fc) =~= Seq::empty());
            assert(loops@.map_values(text) =~= steps.take(0).filter_map(fz).map_values(to_path));
        }
        for i in 0..self.steps.len()
            invariant
                steps == self.steps@,
                drops_have_sender(steps),
                fz == (|s: SimulationStep|
                    drop_of(steps, s, source_node@, DropReason::ZeroTtl)),
                fr == (|s: SimulationStep| drop_of(steps, s, source_node@, DropReason::Random)),
                ff == (|s: SimulationStep|
                    drop_of(steps, s, source_node@, DropReason::BufferFull)),
                fc == (|s: SimulationStep|
                    drop_of(steps, s, source_node@, DropReason::BufferCleared)),
                to_path == (|id: PacketId| path(steps, id)),
                text == (|p: Vec<String>| p@),
                loops@.map_values(text) == steps.take(i as int).filter_map(fz).map_values(to_path),
                random == steps.take(i as int).filter_map(fr).len(),
                buffer_full == steps.take(i as int).filter_map(ff).len(),
                buffer_cleared == steps.take(i as int).filter_map(fc).len(),
                loops@.len() + random + buffer_full + buffer_cleared <= i,
        {
            proof {
                steps.lemma_filter_map_take_succ(fz, i as int);
                steps.lemma_filter_map_take_succ(fr, i as int);
                steps.lemma_filter_map_take_succ(ff, i as int);
                steps.lemma_filter_map_take_succ(fc, i as int);
                assert(steps.take(i + 1).filter_map(fz).map_values(to_path) =~= match fz(
                    steps[i as int],
                ) {
                    Some(id) => steps.take(i as int).filter_map(fz).map_values(to_path).push(
                        to_path(id),
                    ),
                    None => steps.take(i as int).filter_map(fz).map_values(to_path),
                });
            }
            let step = &self.steps[i];
            if let SimulationStepKind::PacketDropped(dropped) = &step.kind {
                if *self.get_packet_sender(dropped.packet_id) == *source_node {
                    match dropped.reason {
                        DropReason::Random => {
                            random = random + 1;
                        },
                        DropReason::ZeroTtl => {
                            let nodes = self.get_packet_path(dropped.packet_id);
                            let ghost before = loops@;
                            loops.push(nodes);
                            assert(loops@.map_values(text) =~= before.map_values(text).push(
                                nodes@,
                            ));
                        },
                        DropReason::BufferFull => {
                            buffer_full = buffer_full + 1;
                        },
                        DropReason::BufferCleared => {
                            buffer_cleared = buffer_cleared + 1;
                        },
                    }
                }
            }
        }
        assert(steps.take(steps.len() as int) =~= steps);
        DroppedPacketInfo { loops, random, buffer_full, buffer_cleared }
    }
}

/// The packets of one sender that were dropped.
pub struct DroppedPacketInfo {
    /// The paths of the packets that took too many hops
    pub loops: Vec<Vec<String>>,
    pub random: usize,
    pub buffer_full: usize,
    pub buffer_cleared: usize,
}

impl DroppedPacketInfo {
    /// The number of dropped packets, whatever the reason.
    pub fn total_dropped_packets(&self) -> (total: usize)
        requires
            self.loops@.len() + self.random + self.buffer_full + self.buffer_cleared <= usize::MAX,
        ensures
            total == self.loops@.len() + self.random + self.buffer_full + self.buffer_cleared,
    {
        self.loops.len() + self.random + self.buffer_full + self.buffer_cleared
    }
}

/// The step drops a packet that was sent from `source_node`.
spec fn is_drop_from(
    steps: Seq<SimulationStep>,
    step: SimulationStep,
    source_node: Seq<char>,
) -> bool {
    step.kind matches SimulationStepKind::PacketDropped(s) && hops(steps, s.packet_id)[0].1@
        == source_node
}

/// The drops of `source_node` among the steps in `part`.
spec fn part_from(
    steps: Seq<SimulationStep>,
    part: Seq<SimulationStep>,
    source_node: Seq<char>,
    reason: DropReason,
) -> Seq<PacketId> {
    part.filter_map(|s: SimulationStep| drop_of(steps, s, source_node, reason))
}

spec fn count_from(
    steps: Seq<SimulationStep>,
    part: Seq<SimulationStep>,
    source_node: Seq<char>,
) -> nat {
    part_from(steps, part, source_node, DropReason::ZeroTtl).len() + part_from(
        steps,
        part,
        source_node,
        DropReason::Random,
    ).len() + part_from(steps, part, source_node, DropReason::BufferFull).len() + part_from(
        steps,
        part,
        source_node,
        DropReason::BufferCleared,
    ).len()
}

spec fn count_from_all(
    steps: Seq<SimulationStep>,
    part: Seq<SimulationStep>,
    source_nodes: Seq<Seq<char>>,
) -> nat
    decreases source_nodes.len(),
{
    if source_nodes.len() == 0 {
        0
    } else {
        count_from_all(steps, part, source_nodes.drop_last()) + count_from(
            steps,
            part,
            source_nodes.last(),
        )
    }
}

proof fn lemma_part_push(
    steps: Seq<SimulationStep>,
    part: Seq<SimulationStep>,
    step: SimulationStep,
    source_node: Seq<char>,
    reason: DropReason,
)
    ensures
        part_from(steps, part.push(step), source_node, reason).len() == part_from(
            steps,
            part,
            source_node,
            reason,
        ).len() + if drop_of(steps, step, source_node, reason) is Some {
            1int
        } else {
            0
        },
{
    let f = |s: SimulationStep| drop_of(steps, s, source_node, reason);
    let all = part.push(step);
    let n = part.len() as int;
    all.lemma_filter_map_take_succ(f, n);
    assert(all.take(n) =~= part);
    assert(all.take(n + 1) =~= all);
}

/// One more step counts for one of the distinct senders, if it drops a packet of theirs.
proof fn lemma_count_push(
    steps: Seq<SimulationStep>,
    part: Seq<SimulationStep>,
    step: SimulationStep,
    source_nodes: Seq<Seq<char>>,
)
    requires
        source_nodes.no_duplicates(),
    ensures
        count_from_all(steps, part.push(step), source_nodes) == count_from_all(
            steps,
            part,
            source_nodes,
        ) + if exists|i: int|
            0 <= i < source_nodes.len() && is_drop_from(steps, step, #[trigger] source_nodes[i]) {
            1int
        } else {
            0
        },
    decreases source_nodes.len(),
{
    if source_nodes.len() > 0 {
        let front = source_nodes.drop_last();
        let last = source_nodes.last();
        let n = source_nodes.len() - 1;
        lemma_count_push(steps, part, step, front);
        lemma_part_push(steps, part, step, last, DropReason::ZeroTtl);
        lemma_part_push(steps, part, step, last, DropReason::Random);
        lemma_part_push(steps, part, step, last, DropReason::BufferFull);
        lemma_part_push(steps, part, step, last, DropReason::BufferCleared);
        let in_front = exists|i: int|
            0 <= i < front.len() && is_drop_from(steps, step, #[trigger] front[i]);
        let in_all = exists|i: int|
            0 <= i < source_nodes.len() && is_drop_from(steps, step, #[trigger] source_nodes[i]);
        if in_front {
            let i = choose|i: int|
                0 <= i < front.len() && is_drop_from(steps, step, #[trigger] front[i]);
            assert(source_nodes[i] == front[i] && source_nodes[i] != source_nodes[n]);
            assert(is_drop_from(steps, step, source_nodes[i]));
            assert(!is_drop_from(steps, step, last));
        } else if in_all {
            let i = choose|i: int|
                0 <= i < source_nodes.len() && is_drop_from(
                    steps,
                    step,
                    #[trigger] source_nodes[i],
                );
            if i < n {
                assert(is_drop_from(steps, step, front[i]));
            }
        } else {
            assert(!is_drop_from(steps, step, source_nodes[n]));
        }
    }
}

/// The sender of a dropped packet is a node in which a packet has been.
proof fn lemma_sender_is_known(
    steps: Seq<SimulationStep>,
    source_nodes: Seq<Seq<char>>,
    id: PacketId,
)
    requires
        holds_all_nodes(steps, source_nodes),
        hops(steps, id).len() > 0,
    ensures
        source_nodes.contains(hops(steps, id)[0].1@),
{
    let f = |s: SimulationStep| hop_of(s, id);
    let hop = hops(steps, id)[0];
    assert(steps.filter_map(f).contains(hop));
    steps.lemma_filter_map_contains(f, hop);
    let step = choose|s: SimulationStep| steps.contains(s) && #[trigger] f(s) == Some(hop);
    let i = choose|i: int| 0 <= i < steps.len() && steps[i] == step;
    assert(steps[i].kind is PacketInNode);
}

proof fn lemma_drops_add_up(
    steps: Seq<SimulationStep>,
    count: nat,
    source_nodes: Seq<Seq<char>>,
)
    requires
        drops_have_sender(steps),
        source_nodes.no_duplicates(),
        holds_all_nodes(steps, source_nodes),
        count <= steps.len(),
    ensures
        count_from_all(steps, steps.take(count as int), source_nodes) == all_drops(
            steps.take(count as int),
        ).len(),
    decreases count,
{
    let is_drop = |s: SimulationStep| s.kind is PacketDropped;
    if count == 0 {
        assert(steps.take(0) =~= Seq::empty());
        reveal(Seq::filter);
        lemma_nothing_counts(steps, source_nodes);
    } else {
        let k = count - 1;
        lemma_drops_add_up(steps, k as nat, source_nodes);
        let part = steps.take(k);
        let step = steps[k];
        assert(part.push(step) =~= steps.take(count as int));
        part.lemma_filter_push(step, is_drop);
        lemma_count_push(steps, part, step, source_nodes);
        if let SimulationStepKind::PacketDropped(s) = step.kind {
            assert(steps[k].kind matches SimulationStepKind::PacketDropped(d) ==> hops(
                steps,
                d.packet_id,
            ).len() > 0);
            lemma_sender_is_known(steps, source_nodes, s.packet_id);
            let sender = hops(steps, s.packet_id)[0].1@;
            let i = choose|i: int| 0 <= i < source_nodes.len() && source_nodes[i] == sender;
            assert(is_drop_from(steps, step, source_nodes[i]));
        }
    }
}

proof fn lemma_nothing_counts(steps: Seq<SimulationStep>, source_nodes: Seq<Seq<char>>)
    ensures
        count_from_all(steps, Seq::empty(), source_nodes) == 0,
    decreases source_nodes.len(),
{
    if source_nodes.len() > 0 {
        lemma_nothing_counts(steps, source_nodes.drop_last());
        let n = source_nodes.last();
        let none = Seq::<SimulationStep>::empty();
        assert(part_from(steps, none, n, DropReason::ZeroTtl).len() == 0);
        assert(part_from(steps, none, n, DropReason::Random).len() == 0);
        assert(part_from(steps, none, n, DropReason::BufferFull).len() == 0);
        assert(part_from(steps, none, n, DropReason::BufferCleared).len() == 0);
    }
}

proof fn lemma_counts_agree(steps: Seq<SimulationStep>, source_nodes: Seq<Seq<char>>)
    ensures
        count_from_all(steps, steps, source_nodes) == dropped_from_all(steps, source_nodes),
    decreases source_nodes.len(),
{
    if source_nodes.len() > 0 {
        lemma_counts_agree(steps, source_nodes.drop_last());
    }
}

/// Every drop counts for exactly one sender: over all nodes in which packets have been, the numbers
/// of dropped packets add up to the number of drops.
pub proof fn law_drops_add_up(steps: Seq<SimulationStep>, source_nodes: Seq<Seq<char>>)
    requires
        drops_have_sender(steps),
        source_nodes.no_duplicates(),
        holds_all_nodes(steps, source_nodes),
    ensures
        dropped_from_all(steps, source_nodes) == all_drops(steps).len(),
{
    lemma_drops_add_up(steps, steps.len(), source_nodes);
    assert(steps.take(steps.len() as int) =~= steps);
    lemma_counts_agree(steps, source_nodes);
}

} // verus!
