//! What sockets hand to the network, and what they get from it.

use crate::network::inbound_queue::{due, queued_views, QueuedPacket, QueuedView};
use crate::network::ip::{IpAddr, SocketAddr};
use crate::network::node::{EndpointView, NodeView};
use crate::network::{InMemoryNetwork, NetworkView};
use crate::time::Nanos;
use crate::tracing::tracer::TracerView;
use crate::transmit::{bytes_as_slice, EcnCodepoint, OwnedTransmit, TransmitView, DEFAULT_TTL};
use vstd::prelude::*;

verus! {

/// What is known of a received packet, apart from its contents.
#[derive(Clone, Copy, PartialEq, Eq, Structural, Debug)]
pub struct RecvMeta {
    pub addr: SocketAddr,
    pub len: usize,
    pub stride: usize,
    pub ecn: Option<EcnCodepoint>,
    pub dst_ip: Option<IpAddr>,
}

impl RecvMeta {
    /// What is known before anything was received.
    pub open spec fn nothing() -> RecvMeta {
        RecvMeta {
            addr: SocketAddr { ip: IpAddr::V6(0), port: 0 },
            len: 0,
            stride: 0,
            ecn: None,
            dst_ip: None,
        }
    }

    /// What is known of a packet.
    pub open spec fn of(t: TransmitView) -> RecvMeta {
        RecvMeta {
            addr: t.source,
            len: t.contents.len() as usize,
            stride: match t.segment_size {
                Some(size) => size,
                None => t.contents.len() as usize,
            },
            ecn: t.ecn,
            dst_ip: Some(t.destination.ip),
        }
    }
}

impl Default for RecvMeta {
    fn default() -> (r: Self)
        ensures
            r == Self::nothing(),
    {
        RecvMeta {
            addr: SocketAddr { ip: IpAddr::V6(0), port: 0 },
            len: 0,
            stride: 0,
            ecn: None,
            dst_ip: None,
        }
    }
}

/// Room for received packets.
pub struct BufsAndMeta {
    pub bufs: Vec<Vec<u8>>,
    pub meta: Vec<RecvMeta>,
}

/// A received packet.
pub struct UdpPacket<'a> {
    pub source_addr: SocketAddr,
    pub payload: &'a [u8],
}

/// The buffer with a packet's contents at its start.
pub open spec fn filled(buf: Seq<u8>, contents: Seq<u8>) -> Seq<u8> {
    contents + buf.skip(contents.len() as int)
}

fn zeros(len: usize) -> (r: Vec<u8>)
    ensures
        r@ == Seq::new(len as nat, |i: int| 0u8),
{
    let mut buf: Vec<u8> = Vec::new();
    for i in 0..len
        invariant
            buf@ == Seq::new(i as nat, |i: int| 0u8),
    {
        buf.push(0);
        assert(buf@ =~= Seq::new((i + 1) as nat, |i: int| 0u8));
    }
    buf
}

impl BufsAndMeta {
    /// Room for `max_packets_per_read` packets of at most `max_packet_size` bytes each.
    pub fn new(max_packet_size: usize, max_packets_per_read: usize) -> (r: Self)
        ensures
            r.bufs@.len() == max_packets_per_read,
            r.meta@.len() == max_packets_per_read,
            forall|i: int|
                0 <= i < r.bufs@.len() ==> (#[trigger] r.bufs@[i])@ == Seq::new(
                    max_packet_size as nat,
                    |i: int| 0u8,
                ),
            forall|i: int| 0 <= i < r.meta@.len() ==> #[trigger] r.meta@[i] == RecvMeta::nothing(),
    {
        let mut bufs: Vec<Vec<u8>> = Vec::new();
        let mut meta: Vec<RecvMeta> = Vec::new();
        for i in 0..max_packets_per_read
            invariant
                bufs@.len() == i,
                meta@.len() == i,
                forall|i: int|
                    0 <= i < bufs@.len() ==> (#[trigger] bufs@[i])@ == Seq::new(
                        max_packet_size as nat,
                        |i: int| 0u8,
                    ),
                forall|i: int| 0 <= i < meta@.len() ==> #[trigger] meta@[i] == RecvMeta::nothing(),
        {
            bufs.push(zeros(max_packet_size));
            meta.push(RecvMeta::default());
        }
        BufsAndMeta { bufs, meta }
    }

    /// Puts a received packet in the given place.
    pub fn fill(&mut self, i: usize, transmit: &OwnedTransmit)
        requires
            i < old(self).bufs@.len(),
            i < old(self).meta@.len(),
            transmit@.contents.len() <= old(self).bufs@[i as int]@.len(),
        ensures
            final(self).meta@ == old(self).meta@.update(i as int, RecvMeta::of(transmit@)),
            final(self).bufs@.len() == old(self).bufs@.len(),
            final(self).bufs@[i as int]@ == filled(old(self).bufs@[i as int]@, transmit@.contents),
            forall|j: int|
                0 <= j < old(self).bufs@.len() && j != i ==> #[trigger] final(self).bufs@[j]
                    == old(self).bufs@[j],
    {
        let contents = bytes_as_slice(&transmit.contents);
        let len: usize = contents.len();
        self.meta[i] = RecvMeta {
            addr: transmit.source,
            len,
            stride: match transmit.segment_size {
                Some(size) => size,
                None => len,
            },
            ecn: transmit.ecn,
            dst_ip: Some(transmit.destination.ip),
        };
        let mut buf: Vec<u8> = Vec::new();
        std::mem::swap(&mut buf, &mut self.bufs[i]);
        let ghost before = buf@;
        for j in 0..len
            invariant
                len == contents@.len(),
                contents@.len() <= before.len(),
                buf@ == contents@.take(j as int) + before.skip(j as int),
        {
            buf.set(j, contents[j]);
            assert(buf@ =~= contents@.take(j + 1) + before.skip(j + 1));
        }
        assert(contents@.take(len as int) =~= contents@);
        assert(buf@ =~= filled(before, transmit@.contents));
        self.bufs[i] = buf;
    }

    /// The first `count` packets.
    pub fn packets(&self, count: usize) -> (r: Vec<UdpPacket<'_>>)
        requires
            count <= self.bufs@.len(),
            count <= self.meta@.len(),
            forall|i: int| 0 <= i < count ==> (#[trigger] self.meta@[i]).len <= self.bufs@[i]@.len(),
        ensures
            r@.len() == count,
            forall|i: int|
                0 <= i < count ==> (#[trigger] r@[i]).source_addr == self.meta@[i].addr
                    && r@[i].payload@ == self.bufs@[i]@.take(self.meta@[i].len as int),
    {
        let mut result: Vec<UdpPacket<'_>> = Vec::new();
        for i in 0..count
            invariant
                count <= self.bufs@.len(),
                count <= self.meta@.len(),
                forall|i: int|
                    0 <= i < count ==> (#[trigger] self.meta@[i]).len <= self.bufs@[i]@.len(),
                result@.len() == i,
                forall|j: int|
                    0 <= j < i ==> (#[trigger] result@[j]).source_addr == self.meta@[j].addr
                        && result@[j].payload@ == self.bufs@[j]@.take(self.meta@[j].len as int),
        {
            let meta = self.meta[i];
            let payload = vstd::slice::slice_subrange(self.bufs[i].as_slice(), 0, meta.len);
            assert(payload@ =~= self.bufs@[i as int]@.take(meta.len as int));
            result.push(UdpPacket { source_addr: meta.addr, payload });
        }
        result
    }
}

/// The datagram that a socket sends. Several datagrams cannot be sent at once.
pub fn outgoing_transmit(
    source: SocketAddr,
    destination: SocketAddr,
    ecn: Option<EcnCodepoint>,
    contents: &[u8],
    segment_size: Option<usize>,
) -> (r: OwnedTransmit)
    requires
        segment_size is None,
    ensures
        r@ == (TransmitView {
            source,
            destination,
            ecn,
            contents: contents@,
            segment_size: None,
            ttl: DEFAULT_TTL,
        }),
{
    OwnedTransmit {
        source,
        destination,
        ecn,
        contents: bytes::Bytes::copy_from_slice(contents),
        segment_size,
        ttl: DEFAULT_TTL,
    }
}

/// The record after an application has read the packets.
pub open spec fn all_read(
    tracer: TracerView,
    now: Nanos,
    node_id: String,
    packets: Seq<QueuedView>,
) -> TracerView
    decreases packets.len(),
{
    if packets.len() == 0 {
        tracer
    } else {
        all_read(tracer, now, node_id, packets.drop_last()).read_by_application(
            now,
            node_id,
            packets.last().data,
        )
    }
}

/// Every packet that a reader gets fits the place that it is put in.
pub open spec fn packets_fit(packets: Seq<QueuedView>, bufs: Seq<Vec<u8>>) -> bool {
    &&& packets.len() <= bufs.len()
    &&& forall|i: int|
        0 <= i < packets.len() ==> (#[trigger] packets[i]).data.transmit.contents.len()
            <= bufs[i]@.len()
}

impl NetworkView {
    /// The packets that the endpoint's reader gets at `now`.
    pub open spec fn readable(self, node: int, endpoint: int, now: Nanos, max: usize) -> Seq<
        QueuedView,
    > {
        let inbound = self.nodes[node].udp_endpoints[endpoint].inbound;
        inbound.take(due(inbound, now, max))
    }

    /// The network after the endpoint's reader got its packets.
    pub open spec fn read(self, node: int, endpoint: int, now: Nanos, max: usize) -> NetworkView {
        let n = self.nodes[node];
        let e = n.udp_endpoints[endpoint];
        NetworkView {
            nodes: self.nodes.update(
                node,
                NodeView {
                    udp_endpoints: n.udp_endpoints.update(
                        endpoint,
                        EndpointView { inbound: e.inbound.skip(due(e.inbound, now, max)), ..e },
                    ),
                    ..n
                },
            ),
            tracer: all_read(
                self.tracer,
                now,
                n.id,
                self.readable(node, endpoint, now, max),
            ),
            ..self
        }
    }
}

impl InMemoryNetwork {
    /// Lets an application read the packets that have arrived at an endpoint at `now`, as many as
    /// there is room for.
    pub fn receive_into(&mut self, node: usize, endpoint: usize, now: Nanos, out: &mut BufsAndMeta) -> (r:
        Vec<QueuedPacket>)
        requires
            old(self).wf(),
            node < old(self)@.nodes.len(),
            endpoint < old(self)@.nodes[node as int].udp_endpoints.len(),
            old(out).meta@.len() <= old(out).bufs@.len(),
            packets_fit(
                old(self)@.readable(
                    node as int,
                    endpoint as int,
                    now,
                    old(out).meta@.len() as usize,
                ),
                old(out).bufs@,
            ),
        ensures
            final(self).wf(),
            final(self)@ == old(self)@.read(
                node as int,
                endpoint as int,
                now,
                old(out).meta@.len() as usize,
            ),
            queued_views(r@) == old(self)@.readable(
                node as int,
                endpoint as int,
                now,
                old(out).meta@.len() as usize,
            ),
            r@.len() <= old(out).meta@.len(),
            final(out).meta@.len() == old(out).meta@.len(),
            final(out).bufs@.len() == old(out).bufs@.len(),
            forall|i: int|
                0 <= i < r@.len() ==> #[trigger] final(out).meta@[i] == RecvMeta::of(
                    r@[i]@.data.transmit,
                ),
            forall|i: int|
                0 <= i < r@.len() ==> (#[trigger] final(out).bufs@[i])@ == filled(
                    old(out).bufs@[i]@,
                    r@[i]@.data.transmit.contents,
                ),
    {
        let ghost before = self@;
        let max: usize = out.meta.len();
        assert(before.nodes[node as int] == self.nodes@[node as int]@);
        assert(before.nodes[node as int].udp_endpoints[endpoint as int]
            == self.nodes@[node as int].udp_endpoints@[endpoint as int]@);
        let ghost e = before.nodes[node as int].udp_endpoints[endpoint as int];
        assert(crate::network::inbound_queue::in_arrival_order(e.inbound)) by {
            assert(before.nodes[node as int].wf());
        }
        let delivered = self.nodes[node].udp_endpoints[endpoint].inbound.receive(now, max);
        let ghost views = queued_views(delivered@);
        proof {
            let n = before.nodes[node as int];
            let n2 = NodeView {
                udp_endpoints: n.udp_endpoints.update(
                    endpoint as int,
                    EndpointView { inbound: e.inbound.skip(due(e.inbound, now, max)), ..e },
                ),
                ..n
            };
            assert(self.nodes@[node as int]@.udp_endpoints =~= n2.udp_endpoints);
            assert(self.nodes@[node as int]@ =~= n2);
            assert(self@.nodes =~= before.nodes.update(node as int, n2));
            crate::network::forwarding::lemma_same_packets_keep_wf(before, self@, node as int);
        }
        let ghost received = self@;
        let ghost bufs = out.bufs@;
        assert(views.take(0) =~= Seq::<QueuedView>::empty());
        for i in 0..delivered.len()
            invariant
                node < before.nodes.len(),
                max == out.meta@.len(),
                out.meta@.len() <= out.bufs@.len(),
                out.bufs@.len() == bufs.len(),
                delivered@.len() <= max,
                views == queued_views(delivered@),
                packets_fit(views, bufs),
                received.nodes.len() == before.nodes.len(),
                received.tracer == before.tracer,
                received.nodes[node as int].id == before.nodes[node as int].id,
                received.wf(),
                self@ == (NetworkView {
                    tracer: all_read(
                        before.tracer,
                        now,
                        before.nodes[node as int].id,
                        views.take(i as int),
                    ),
                    ..received
                }),
                forall|j: int| i <= j < bufs.len() ==> #[trigger] out.bufs@[j] == bufs[j],
                forall|j: int|
                    0 <= j < i ==> #[trigger] out.meta@[j] == RecvMeta::of(
                        delivered@[j]@.data.transmit,
                    ),
                forall|j: int|
                    0 <= j < i ==> (#[trigger] out.bufs@[j])@ == filled(
                        bufs[j]@,
                        delivered@[j]@.data.transmit.contents,
                    ),
        {
            let packet = &delivered[i];
            proof {
                assert(views[i as int] == packet@);
                assert(views.take(i + 1).drop_last() =~= views.take(i as int));
                assert(self@.nodes[node as int] == self.nodes@[node as int]@);
            }
            self.tracer.track_read_by_application(now, &self.nodes[node].id, &packet.data);
            out.fill(i, &packet.data.transmit);
        }
        assert(views.take(delivered@.len() as int) =~= views);
        delivered
    }
}

} // verus!
