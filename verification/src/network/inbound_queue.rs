//! Packets on their way, in the order in which they arrive.

use crate::search::{first_index, first_of, lemma_first_index, lemma_first_index_is, lemma_first_index_none};
use crate::time::Nanos;
use crate::transmit::{InTransitData, PacketView};
use vstd::prelude::*;

verus! {

/// A packet on its way.
pub struct QueuedPacket {
    pub data: InTransitData,
    pub sent: Nanos,
    pub arrives_at: Nanos,
}

/// The content of a [`QueuedPacket`].
#[verifier::ext_equal]
pub struct QueuedView {
    pub data: PacketView,
    pub sent: Nanos,
    pub arrives_at: Nanos,
}

impl View for QueuedPacket {
    type V = QueuedView;

    open spec fn view(&self) -> QueuedView {
        QueuedView { data: self.data@, sent: self.sent, arrives_at: self.arrives_at }
    }
}

pub struct InboundQueue {
    pub packets: Vec<QueuedPacket>,
}

pub open spec fn queued_views(packets: Seq<QueuedPacket>) -> Seq<QueuedView> {
    packets.map_values(|p: QueuedPacket| p@)
}

impl View for InboundQueue {
    type V = Seq<QueuedView>;

    open spec fn view(&self) -> Seq<QueuedView> {
        queued_views(self.packets@)
    }
}

/// The number of packets at the front of the queue that have arrived at `now`.
pub open spec fn arrived(queue: Seq<QueuedView>, now: Nanos) -> int {
    match first_index(queue, |p: QueuedView| p.arrives_at > now) {
        Some(i) => i,
        None => queue.len() as int,
    }
}

/// Packets that arrive earlier come first.
pub open spec fn in_arrival_order(queue: Seq<QueuedView>) -> bool {
    forall|i: int, j: int|
        0 <= i <= j < queue.len() ==> (#[trigger] queue[i]).arrives_at <= (
        #[trigger] queue[j]).arrives_at
}

/// The queue with one more packet, behind all those that arrive no later.
pub open spec fn enqueued(queue: Seq<QueuedView>, packet: QueuedView) -> Seq<QueuedView> {
    queue.insert(arrived(queue, packet.arrives_at), packet)
}

/// The number of packets that a receiver gets at `now`, if it takes no more than `max`.
pub open spec fn due(queue: Seq<QueuedView>, now: Nanos, max: usize) -> int {
    if arrived(queue, now) < max {
        arrived(queue, now)
    } else {
        max as int
    }
}

impl InboundQueue {
    pub open spec fn wf(self) -> bool {
        in_arrival_order(self@)
    }

    pub fn new() -> (r: Self)
        ensures
            r@ == Seq::<QueuedView>::empty(),
            r.wf(),
    {
        let r = InboundQueue { packets: Vec::new() };
        assert(r@ =~= Seq::<QueuedView>::empty());
        r
    }

    fn count_arrived(&self, now: Nanos) -> (n: usize)
        ensures
            n == arrived(self@, now),
            n <= self@.len(),
    {
        let ghost late = |p: QueuedView| p.arrives_at > now;
        let mut n: usize = 0;
        while n < self.packets.len()
            invariant
                n <= self.packets@.len(),
                late == (|p: QueuedView| p.arrives_at > now),
                forall|j: int| 0 <= j < n ==> !late(#[trigger] self@[j]),
            decreases self.packets@.len() - n,
        {
            assert(self@[n as int] == self.packets@[n as int]@);
            if self.packets[n].arrives_at > now {
                proof {
                    lemma_first_index_is(self@, late, n as int);
                }
                return n;
            }
            n = n + 1;
        }
        proof {
            lemma_first_index_none(self@, late);
        }
        n
    }

    /// Puts a packet on its way at `now`; it arrives `delay` later. Packets that arrive at the same
    /// time arrive in the order in which they were sent.
    pub fn send(&mut self, now: Nanos, data: InTransitData, delay: Nanos)
        requires
            old(self).wf(),
            now + delay <= Nanos::MAX,
        ensures
            final(self).wf(),
            final(self)@ == enqueued(
                old(self)@,
                QueuedView { data: data@, sent: now, arrives_at: (now + delay) as Nanos },
            ),
    {
        let arrives_at: Nanos = now + delay;
        let pos: usize = self.count_arrived(arrives_at);
        proof {
            lemma_first_index(self@, |p: QueuedView| p.arrives_at > arrives_at);
        }
        let ghost packet = QueuedView { data: data@, sent: now, arrives_at };
        self.packets.insert(pos, QueuedPacket { data, sent: now, arrives_at });
        assert(self@ =~= old(self)@.insert(pos as int, packet));
        assert(in_arrival_order(self@)) by {
            let before = old(self)@;
            let after = before.insert(pos as int, packet);
            assert forall|i: int, j: int| 0 <= i <= j < after.len() implies (
            #[trigger] after[i]).arrives_at <= (#[trigger] after[j]).arrives_at by {
                let i0 = if i < pos { i } else { i - 1 };
                let j0 = if j < pos { j } else { j - 1 };
                if i != pos && j != pos {
                    assert(before[i0].arrives_at <= before[j0].arrives_at);
                } else if i == pos && j > pos {
                    assert(before[pos as int].arrives_at <= before[j0].arrives_at);
                } else if i < pos && j == pos {
                    assert(!(before[i].arrives_at > arrives_at));
                }
            }
        }
    }

    /// When the next packet arrives.
    pub fn next_arrival(&self) -> (r: Option<Nanos>)
        ensures
            r == match first_of(self@) {
                Some(p) => Some(p.arrives_at),
                None => None,
            },
    {
        if self.packets.len() == 0 {
            None
        } else {
            assert(self@[0] == self.packets@[0]@);
            Some(self.packets[0].arrives_at)
        }
    }

    /// Takes the packets that have arrived at `now` from the queue, at most `max` of them.
    pub fn receive(&mut self, now: Nanos, max: usize) -> (r: Vec<QueuedPacket>)
        requires
            old(self).wf(),
        ensures
            final(self).wf(),
            queued_views(r@) == old(self)@.take(due(old(self)@, now, max)),
            final(self)@ == old(self)@.skip(due(old(self)@, now, max)),
            0 <= due(old(self)@, now, max) <= old(self)@.len(),
    {
        let arrived: usize = self.count_arrived(now);
        let n: usize = if arrived < max {
            arrived
        } else {
            max
        };
        let mut packets = self.packets.split_off(n);
        std::mem::swap(&mut packets, &mut self.packets);
        proof {
            assert(queued_views(packets@) =~= old(self)@.take(n as int));
            assert(self@ =~= old(self)@.skip(n as int));
            assert(in_arrival_order(self@)) by {
                let before = old(self)@;
                let after = before.skip(n as int);
                assert forall|i: int, j: int| 0 <= i <= j < after.len() implies (
                #[trigger] after[i]).arrives_at <= (#[trigger] after[j]).arrives_at by {
                    assert(before[i + n].arrives_at <= before[j + n].arrives_at);
                }
            }
        }
        packets
    }
}

/// Packets are received neither early nor late: in a queue in arrival order, the packets that a
/// receiver gets at `now` have arrived, and unless it takes all that it has room for, those that
/// stay have not.
pub proof fn law_received_when_arrived(queue: Seq<QueuedView>, now: Nanos, max: usize)
    requires
        in_arrival_order(queue),
    ensures
        forall|i: int|
            0 <= i < due(queue, now, max) ==> (#[trigger] queue[i]).arrives_at <= now,
        due(queue, now, max) < max ==> forall|i: int|
            due(queue, now, max) <= i < queue.len() ==> (#[trigger] queue[i]).arrives_at > now,
{
    let late = |p: QueuedView| p.arrives_at > now;
    lemma_first_index(queue, late);
    if due(queue, now, max) < max {
        assert forall|i: int| due(queue, now, max) <= i < queue.len() implies (
        #[trigger] queue[i]).arrives_at > now by {
            let first = arrived(queue, now);
            assert(queue[first].arrives_at <= queue[i].arrives_at);
        }
    }
    assert forall|i: int| 0 <= i < due(queue, now, max) implies (#[trigger] queue[i]).arrives_at
        <= now by {
        assert(!late(queue[i]));
    }
}

} // verus!
