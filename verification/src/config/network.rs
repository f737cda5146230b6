//! Network graphs and network events, as they are configured.

use crate::config::quinn::QuinnJsonConfig;
use crate::network::event::{
    LinkEventPayload, NetworkEvent, NetworkEventKind, NodeEventPayload, UpdateLinkStatus,
    UpdateNodeStatus,
};
use crate::network::ip::IpAddr;
use crate::network::spec::{
    NetworkInterface, NetworkLinkSpec, NetworkNodeSpec, NetworkSpec, NodeKind,
};
use crate::random::Ratio;
use crate::time::{from_millis, Nanos};
use vstd::prelude::*;

verus! {

/// A network graph.
pub struct NetworkSpecJson {
    pub nodes: Vec<NetworkNodeJson>,
    pub links: Vec<NetworkLinkJson>,
}

/// What a network simulation is configured with.
pub struct NetworkConfig {
    pub network_graph: NetworkSpecJson,
    pub network_events: Vec<NetworkEventJson>,
}

pub struct NetworkNodeJson {
    pub id: String,
    pub buffer_size_bytes: u64,
    pub kind: NodeKind,
    pub quic: Option<QuinnJsonConfig>,
    pub interfaces: Vec<NetworkInterface>,
    /// The ratio of packets that will be duplicated upon arriving to the node
    pub packet_duplication_ratio: Ratio,
    /// The ratio of packets that will be lost upon arriving to the node
    pub packet_loss_ratio: Ratio,
    /// The sum of the two ratios
    pub packet_loss_or_duplication_ratio: Ratio,
}

pub struct NetworkLinkJson {
    pub id: String,
    pub source: IpAddr,
    pub target: IpAddr,
    /// The link's bandwidth, in bits per second
    pub bandwidth_bps: u64,
    /// The delay of the link, in milliseconds
    pub delay_ms: u64,
    /// The extra delay of the link, which will be applied at random according to
    /// `extra_delay_ratio`
    pub extra_delay_ms: u64,
    /// The ratio of packets that will have an extra delay applied
    pub extra_delay_ratio: Ratio,
    /// The ratio of packets that will be marked with a CE ECN codepoint
    pub congestion_event_ratio: Ratio,
}

/// The span of a number of milliseconds.
pub open spec fn millis(ms: u64) -> Nanos {
    (ms * 1_000_000) as u128
}

impl NetworkNodeJson {
    pub open spec fn spec_to_spec(self) -> NetworkNodeSpec {
        NetworkNodeSpec {
            id: self.id,
            kind: self.kind,
            interfaces: self.interfaces,
            buffer_size_bytes: self.buffer_size_bytes,
            packet_loss_ratio: self.packet_loss_ratio,
            packet_duplication_ratio: self.packet_duplication_ratio,
            packet_loss_or_duplication_ratio: self.packet_loss_or_duplication_ratio,
        }
    }

    /// The node that is configured.
    pub fn into_spec(self) -> (r: NetworkNodeSpec)
        ensures
            r == self.spec_to_spec(),
    {
        NetworkNodeSpec {
            id: self.id,
            kind: self.kind,
            interfaces: self.interfaces,
            buffer_size_bytes: self.buffer_size_bytes,
            packet_loss_ratio: self.packet_loss_ratio,
            packet_duplication_ratio: self.packet_duplication_ratio,
            packet_loss_or_duplication_ratio: self.packet_loss_or_duplication_ratio,
        }
    }
}

impl NetworkLinkJson {
    pub open spec fn spec_to_spec(self) -> NetworkLinkSpec {
        NetworkLinkSpec {
            id: self.id,
            source: self.source,
            target: self.target,
            delay: millis(self.delay_ms),
            bandwidth_bps: self.bandwidth_bps,
            congestion_event_ratio: self.congestion_event_ratio,
            extra_delay: millis(self.extra_delay_ms),
            extra_delay_ratio: self.extra_delay_ratio,
        }
    }

    /// The link that is configured.
    pub fn into_spec(self) -> (r: NetworkLinkSpec)
        ensures
            r == self.spec_to_spec(),
            r.delay <= crate::time::SPAN_MAX,
            r.extra_delay <= crate::time::SPAN_MAX,
    {
        NetworkLinkSpec {
            id: self.id,
            source: self.source,
            target: self.target,
            delay: from_millis(self.delay_ms),
            bandwidth_bps: self.bandwidth_bps,
            congestion_event_ratio: self.congestion_event_ratio,
            extra_delay: from_millis(self.extra_delay_ms),
            extra_delay_ratio: self.extra_delay_ratio,
        }
    }
}

/// The QUIC parameters of a node, if it is a host.
pub open spec fn quic_config_of(node: NetworkNodeJson) -> Option<(String, QuinnJsonConfig)> {
    match node.kind {
        NodeKind::Host => Some(
            (
                node.id,
                match node.quic {
                    Some(config) => config,
                    None => QuinnJsonConfig::unspecified(),
                },
            ),
        ),
        NodeKind::Router => None,
    }
}

/// The QUIC parameters of the node with the given id; of several, the last ones count.
pub open spec fn config_for(
    configs: Seq<(String, QuinnJsonConfig)>,
    id: Seq<char>,
) -> Option<QuinnJsonConfig>
    decreases configs.len(),
{
    if configs.len() == 0 {
        None
    } else if configs.last().0@ == id {
        Some(configs.last().1)
    } else {
        config_for(configs.drop_last(), id)
    }
}

/// Looks up the QUIC parameters of the node with the given id.
pub fn find_quic_config(configs: &Vec<(String, QuinnJsonConfig)>, id: &String) -> (r: Option<
    QuinnJsonConfig,
>)
    ensures
        r == config_for(configs@, id@),
{
    let mut found: Option<QuinnJsonConfig> = None;
    for i in 0..configs.len()
        invariant
            found == config_for(configs@.take(i as int), id@),
    {
        assert(configs@.take(i + 1).drop_last() =~= configs@.take(i as int));
        if configs[i].0 == *id {
            found = Some(configs[i].1);
        }
    }
    assert(configs@.take(configs@.len() as int) =~= configs@);
    found
}

impl NetworkSpecJson {
    /// The QUIC parameters of all hosts.
    pub fn quic_configs(&self) -> (r: Vec<(String, QuinnJsonConfig)>)
        ensures
            r@ == self.nodes@.filter_map(|n: NetworkNodeJson| quic_config_of(n)),
    {
        let ghost f = |n: NetworkNodeJson| quic_config_of(n);
        let mut configs: Vec<(String, QuinnJsonConfig)> = Vec::new();
        assert(self.nodes@.take(0).filter_map(f) =~= Seq::empty());
        for i in 0..self.nodes.len()
            invariant
                f == (|n: NetworkNodeJson| quic_config_of(n)),
                configs@ == self.nodes@.take(i as int).filter_map(f),
        {
            proof {
                self.nodes@.lemma_filter_map_take_succ(f, i as int);
            }
            let node = &self.nodes[i];
            if let NodeKind::Host = node.kind {
                let config = match node.quic {
                    Some(config) => config,
                    None => QuinnJsonConfig::default(),
                };
                configs.push((node.id.clone(), config));
            }
            assert(configs@ =~= self.nodes@.take(i + 1).filter_map(f));
        }
        assert(self.nodes@.take(self.nodes@.len() as int) =~= self.nodes@);
        configs
    }

    /// The network that is configured.
    pub fn into_spec(self) -> (r: NetworkSpec)
        ensures
            r.nodes@ == self.nodes@.map_values(|n: NetworkNodeJson| n.spec_to_spec()),
            r.links@ == self.links@.map_values(|l: NetworkLinkJson| l.spec_to_spec()),
    {
        let ghost to_node = |n: NetworkNodeJson| n.spec_to_spec();
        let ghost to_link = |l: NetworkLinkJson| l.spec_to_spec();
        let ghost all_nodes = self.nodes@.map_values(to_node);
        let ghost all_links = self.links@.map_values(to_link);
        let mut json_nodes = self.nodes;
        let mut json_links = self.links;
        let mut nodes: Vec<NetworkNodeSpec> = Vec::new();
        let mut links: Vec<NetworkLinkSpec> = Vec::new();
        while json_nodes.len() > 0
            invariant
                to_node == (|n: NetworkNodeJson| n.spec_to_spec()),
                nodes@ + json_nodes@.map_values(to_node) == all_nodes,
            decreases json_nodes@.len(),
        {
            let ghost before = json_nodes@;
            let ghost done = nodes@;
            let node = json_nodes.remove(0);
            nodes.push(node.into_spec());
            assert(nodes@ + json_nodes@.map_values(to_node) =~= done + before.map_values(to_node));
        }
        assert(nodes@ =~= all_nodes);
        while json_links.len() > 0
            invariant
                to_link == (|l: NetworkLinkJson| l.spec_to_spec()),
                links@ + json_links@.map_values(to_link) == all_links,
            decreases json_links@.len(),
        {
            let ghost before = json_links@;
            let ghost done = links@;
            let link = json_links.remove(0);
            links.push(link.into_spec());
            assert(links@ + json_links@.map_values(to_link) =~= done + before.map_values(to_link));
        }
        assert(links@ =~= all_links);
        NetworkSpec { nodes, links }
    }
}

pub struct NetworkEventsJson {
    pub events: Vec<NetworkEventJson>,
}

/// An event of which it is not known yet whether it is about a link or a node.
pub struct RawNetworkEventJson {
    pub relative_time_ms: u64,
    pub link: Option<LinkEventPayloadJson>,
    pub node: Option<NodeEventPayloadJson>,
}

pub struct NetworkEventJson {
    pub relative_time_ms: u64,
    pub payload: EventPayloadJson,
}

pub enum EventPayloadJson {
    Node(NodeEventPayloadJson),
    Link(LinkEventPayloadJson),
}

pub struct NodeEventPayloadJson {
    pub id: String,
    pub status: Option<UpdateNodeStatus>,
    pub clear_buffer: bool,
}

pub struct LinkEventPayloadJson {
    pub id: String,
    pub status: Option<UpdateLinkStatus>,
    pub bandwidth_bps: Option<u64>,
    pub delay_ms: Option<u64>,
    pub extra_delay_ms: Option<u64>,
    pub extra_delay_ratio: Option<Ratio>,
    pub packet_duplication_ratio: Option<Ratio>,
    pub packet_loss_ratio: Option<Ratio>,
    pub congestion_event_ratio: Option<Ratio>,
}

pub open spec fn optional_millis(ms: Option<u64>) -> Option<Nanos> {
    match ms {
        Some(ms) => Some(millis(ms)),
        None => None,
    }
}

fn optional_from_millis(ms: Option<u64>) -> (r: Option<Nanos>)
    ensures
        r == optional_millis(ms),
{
    match ms {
        Some(ms) => Some(from_millis(ms)),
        None => None,
    }
}

impl NetworkEventJson {
    /// An event is either about a link or about a node.
    pub fn from_raw(raw: RawNetworkEventJson) -> (r: Result<Self, &'static str>)
        ensures
            match r {
                Ok(event) => event.relative_time_ms == raw.relative_time_ms && match event.payload {
                    EventPayloadJson::Link(link) => raw.link == Some(link) && raw.node is None,
                    EventPayloadJson::Node(node) => raw.node == Some(node) && raw.link is None,
                },
                Err(text) => if raw.link is Some {
                    raw.node is Some && text@ == "only one of 'link' or 'node' must be present"@
                } else {
                    raw.node is None && text@ == "one of 'link' or 'node' must be present"@
                },
            },
    {
        let payload = match (raw.link, raw.node) {
            (Some(link), None) => EventPayloadJson::Link(link),
            (None, Some(node)) => EventPayloadJson::Node(node),
            (Some(_), Some(_)) => {
                return Err("only one of 'link' or 'node' must be present");
            },
            (None, None) => {
                return Err("one of 'link' or 'node' must be present");
            },
        };
        Ok(NetworkEventJson { relative_time_ms: raw.relative_time_ms, payload })
    }

    pub open spec fn spec_to_event(self) -> NetworkEvent {
        NetworkEvent {
            relative_time: millis(self.relative_time_ms),
            kind: match self.payload {
                EventPayloadJson::Node(n) => NetworkEventKind::Node(
                    NodeEventPayload {
                        node_id: n.id,
                        status: n.status,
                        clear_buffer: n.clear_buffer,
                    },
                ),
                EventPayloadJson::Link(l) => NetworkEventKind::Link(
                    LinkEventPayload {
                        link_id: l.id,
                        status: l.status,
                        bandwidth_bps: l.bandwidth_bps,
                        delay: optional_millis(l.delay_ms),
                        extra_delay: optional_millis(l.extra_delay_ms),
                        extra_delay_ratio: l.extra_delay_ratio,
                        packet_duplication_ratio: l.packet_duplication_ratio,
                        packet_loss_ratio: l.packet_loss_ratio,
                        congestion_event_ratio: l.congestion_event_ratio,
                    },
                ),
            },
        }
    }

    /// The event that is configured.
    pub fn into_event(self) -> (r: NetworkEvent)
        ensures
            r == self.spec_to_event(),
    {
        let kind = match self.payload {
            EventPayloadJson::Node(n) => NetworkEventKind::Node(
                NodeEventPayload { node_id: n.id, status: n.status, clear_buffer: n.clear_buffer },
            ),
            EventPayloadJson::Link(l) => NetworkEventKind::Link(
                LinkEventPayload {
                    link_id: l.id,
                    status: l.status,
                    bandwidth_bps: l.bandwidth_bps,
                    delay: optional_from_millis(l.delay_ms),
                    extra_delay: optional_from_millis(l.extra_delay_ms),
                    extra_delay_ratio: l.extra_delay_ratio,
                    packet_duplication_ratio: l.packet_duplication_ratio,
                    packet_loss_ratio: l.packet_loss_ratio,
                    congestion_event_ratio: l.congestion_event_ratio,
                },
            ),
        };
        NetworkEvent { relative_time: from_millis(self.relative_time_ms), kind }
    }
}

/// Nodes and links are what they are configured to be; milliseconds become nanoseconds.
pub proof fn law_configuration_is_taken_over(node: NetworkNodeJson, link: NetworkLinkJson)
    ensures
        ({
            let n = node.spec_to_spec();
            &&& n.id == node.id
            &&& n.kind == node.kind
            &&& n.interfaces == node.interfaces
            &&& n.buffer_size_bytes == node.buffer_size_bytes
            &&& n.packet_loss_ratio == node.packet_loss_ratio
            &&& n.packet_duplication_ratio == node.packet_duplication_ratio
            &&& n.packet_loss_or_duplication_ratio == node.packet_loss_or_duplication_ratio
        }),
        ({
            let l = link.spec_to_spec();
            &&& l.id == link.id
            &&& l.source == link.source
            &&& l.target == link.target
            &&& l.bandwidth_bps == link.bandwidth_bps
            &&& l.delay == 1_000_000 * link.delay_ms
            &&& l.extra_delay == 1_000_000 * link.extra_delay_ms
            &&& l.extra_delay_ratio == link.extra_delay_ratio
            &&& l.congestion_event_ratio == link.congestion_event_ratio
        }),
{
}

/// The span is the given number of milliseconds, if there is one.
pub open spec fn is_span_of(span: Option<Nanos>, ms: Option<u64>) -> bool {
    match (span, ms) {
        (Some(span), Some(ms)) => span == 1_000_000 * ms,
        (None, None) => true,
        _ => false,
    }
}

/// Events are what they are configured to be: about the same node or link, at the same time, with the
/// same changes.
pub proof fn law_events_are_taken_over(event: NetworkEventJson)
    ensures
        event.spec_to_event().relative_time == 1_000_000 * event.relative_time_ms,
        match event.payload {
            EventPayloadJson::Node(n) => event.spec_to_event().kind matches NetworkEventKind::Node(e)
                && e.node_id == n.id && e.status == n.status && e.clear_buffer == n.clear_buffer,
            EventPayloadJson::Link(l) => event.spec_to_event().kind matches NetworkEventKind::Link(e)
                && e.link_id == l.id && e.status == l.status && e.bandwidth_bps == l.bandwidth_bps
                && is_span_of(e.delay, l.delay_ms) && is_span_of(e.extra_delay, l.extra_delay_ms)
                && e.extra_delay_ratio == l.extra_delay_ratio && e.packet_duplication_ratio
                == l.packet_duplication_ratio && e.packet_loss_ratio == l.packet_loss_ratio
                && e.congestion_event_ratio == l.congestion_event_ratio,
        },
{
}

/// Every host has QUIC parameters and no router does: those of the last host with the id, where
/// nothing is specified unless it is configured.
pub proof fn law_hosts_have_quic_parameters(
    nodes: Seq<NetworkNodeJson>,
    node: NetworkNodeJson,
    id: Seq<char>,
)
    ensures
        ({
            let before = config_for(nodes.filter_map(|n: NetworkNodeJson| quic_config_of(n)), id);
            let after = config_for(
                nodes.push(node).filter_map(|n: NetworkNodeJson| quic_config_of(n)),
                id,
            );
            &&& node.kind == NodeKind::Host && node.id@ == id && node.quic is Some ==> after
                == node.quic
            &&& node.kind == NodeKind::Host && node.id@ == id && node.quic is None ==> {
                &&& after matches Some(config) && config.initial_rtt_ms is None
                    && config.maximum_idle_timeout_ms is None && config.packet_threshold is None
                    && config.mtu_discovery is None && config.maximize_send_and_receive_windows is None
                    && config.ack_frequency_config is None && config.congestion_controller is None
                    && config.initial_congestion_window_packets is None
                    && config.extended_key_update is None
            }
            &&& node.kind != NodeKind::Host || node.id@ != id ==> after == before
            &&& config_for(
                Seq::<NetworkNodeJson>::empty().filter_map(
                    |n: NetworkNodeJson| quic_config_of(n),
                ),
                id,
            ) is None
        }),
{
    let f = |n: NetworkNodeJson| quic_config_of(n);
    let all = nodes.push(node);
    let n = nodes.len() as int;
    all.lemma_filter_map_take_succ(f, n);
    assert(all.take(n) =~= nodes);
    assert(all.take(n + 1) =~= all);
    assert(Seq::<NetworkNodeJson>::empty().filter_map(f) =~= Seq::empty());
    let before = nodes.filter_map(f);
    if let Some(config) = f(node) {
        assert(all.filter_map(f) =~= before.push(config));
        assert(before.push(config).drop_last() =~= before);
    } else {
        assert(all.filter_map(f) =~= before);
    }
}


} // verus!
