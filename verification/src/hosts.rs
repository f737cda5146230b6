//! What traffic patterns mean for the hosts that take part in them.

use crate::config::cli::NetworkOpt;
use crate::config::traffic::{QuicRequestResponseTraffic, TrafficKind};
use crate::network::ip::IpAddr;
use crate::network::node::NodeView;
use crate::network::{node_with_address, NetworkView};
use crate::report::RoleNodes;
use crate::search::{lemma_filter_map_holds, lemma_first_index};
use crate::simulation::{
    all_ends_are_nodes, all_roles, chosen_seeds, has_valid_options, id_at, ip_with_role, ips_with,
    is_role_entry, is_valid, law_pairs_are_distinct, main_name, nodes_of, ordered, params_text,
    quic_pair, request_response_of, reuse_text, unknown_fields_text, Role,
};
use crate::sorting::is_sorted_distinct;
use crate::text::{decimal, joined};
use crate::util::repeated;
use vstd::prelude::*;

verus! {

/// The client and the server of a traffic pattern.
pub open spec fn hosts_of(kind: TrafficKind) -> (IpAddr, IpAddr) {
    match kind {
        TrafficKind::QuicRequestResponse(t) => (t.client.ip, t.server.ip),
        TrafficKind::UdpPing(t) => (t.client.ip, t.server.ip),
        TrafficKind::UdpOneDirection(t) => (t.client.ip, t.server.ip),
    }
}

/// The two addresses are the hosts of the traffic pattern, in whatever order.
pub open spec fn is_pair_of(pair: (IpAddr, IpAddr), kind: TrafficKind) -> bool {
    let (client, server) = hosts_of(kind);
    pair == (client, server) || pair == (server, client)
}

/// The two addresses are the hosts of one of the traffic patterns.
pub open spec fn is_pair_of_any(pair: (IpAddr, IpAddr), traffic: Seq<TrafficKind>) -> bool {
    exists|i: int| 0 <= i < traffic.len() && is_pair_of(pair, #[trigger] traffic[i])
}

/// The two addresses are the hosts of QUIC traffic.
pub open spec fn is_pair_of_quic(pair: (IpAddr, IpAddr), traffic: Seq<TrafficKind>) -> bool {
    exists|i: int|
        0 <= i < traffic.len() && is_pair_of(pair, #[trigger] traffic[i])
            && traffic[i] is QuicRequestResponse
}

/// Each traffic pattern gives one role to its client and one to its server, and no role to anybody
/// else; roles are given in the order of the patterns.
pub proof fn law_patterns_give_roles(patterns: Seq<TrafficKind>, kind: TrafficKind, role: Role)
    ensures
        ({
            let before = ips_with(patterns, role);
            let after = ips_with(patterns.push(kind), role);
            let (of_client, of_server) = match kind {
                TrafficKind::QuicRequestResponse(_) => (Role::QuicClient, Role::QuicServer),
                TrafficKind::UdpPing(_) => (Role::PingClient, Role::PingServer),
                TrafficKind::UdpOneDirection(_) => (Role::UdpSender, Role::UdpReceiver),
            };
            &&& role == of_client ==> after == before.push(hosts_of(kind).0)
            &&& role == of_server ==> after == before.push(hosts_of(kind).1)
            &&& role != of_client && role != of_server ==> after == before
        }),
        ips_with(Seq::empty(), role).len() == 0,
{
    let f = |k: TrafficKind| ip_with_role(k, role);
    let all = patterns.push(kind);
    let n = patterns.len() as int;
    all.lemma_filter_map_take_succ(f, n);
    assert(all.take(n) =~= patterns);
    assert(all.take(n + 1) =~= all);
    assert(Seq::<TrafficKind>::empty().filter_map(f) =~= Seq::empty());
    match f(kind) {
        Some(ip) => {
            assert(ips_with(all, role) =~= ips_with(patterns, role).push(ip));
        },
        None => {
            assert(ips_with(all, role) =~= ips_with(patterns, role));
        },
    }
}

/// Roles are named after what they are, and listed in the alphabetical order of their names.
pub proof fn law_roles_are_named()
    ensures
        all_roles().len() == 6,
        all_roles().no_duplicates(),
        all_roles()[0].text() == "ping client"@,
        all_roles()[1].text() == "ping server"@,
        all_roles()[2].text() == "quic client"@,
        all_roles()[3].text() == "quic server"@,
        all_roles()[4].text() == "udp receiver"@,
        all_roles()[5].text() == "udp sender"@,
        Role::PingClient.text() == "ping client"@,
        Role::PingServer.text() == "ping server"@,
        Role::QuicClient.text() == "quic client"@,
        Role::QuicServer.text() == "quic server"@,
        Role::UdpReceiver.text() == "udp receiver"@,
        Role::UdpSender.text() == "udp sender"@,
{
}

/// The entry for a role lists, one by one and in order, the ids of the nodes that own the addresses
/// with that role.
pub proof fn law_role_entries_name_the_owners(
    entry: RoleNodes,
    network: NetworkView,
    patterns: Seq<TrafficKind>,
    role: Role,
    k: int,
)
    requires
        is_role_entry(entry, network, patterns, role),
        0 <= k < ips_with(patterns, role).len(),
        exists|n: int|
            0 <= n < network.nodes.len() && (#[trigger] network.nodes[n]).addresses.contains(
                ips_with(patterns, role)[k],
            ),
    ensures
        entry.node_ids@.len() == ips_with(patterns, role).len(),
        exists|n: int|
            0 <= n < network.nodes.len() && (#[trigger] network.nodes[n]).addresses.contains(
                ips_with(patterns, role)[k],
            ) && network.nodes[n].id == entry.node_ids@[k],
{
    let ip = ips_with(patterns, role)[k];
    let owns = |n: NodeView| n.addresses.contains(ip);
    lemma_first_index(network.nodes, owns);
    let n = choose|n: int|
        0 <= n < network.nodes.len() && (#[trigger] network.nodes[n]).addresses.contains(ip);
    assert(owns(network.nodes[n]));
    assert(entry.node_ids@[k] == id_at(network.nodes, ip));
    let found = node_with_address(network.nodes, ip)->0;
    assert(owns(network.nodes[found]));
}

/// The nodes of all entries are the nodes of the first ones, followed by those of the last one.
pub proof fn law_nodes_of_entries_are_listed(entries: Seq<RoleNodes>, entry: RoleNodes)
    ensures
        nodes_of(Seq::empty()).len() == 0,
        nodes_of(entries.push(entry)) == nodes_of(entries) + entry.node_ids@,
{
    let f = |e: RoleNodes| e.node_ids@;
    let all = entries.push(entry);
    let n = entries.len() as int;
    assert(Seq::<RoleNodes>::empty().flat_map(f) =~= Seq::empty());
    all.lemma_flat_map_take_append(f, n);
    assert(all.take(n) =~= entries);
    assert(all.take(n + 1) =~= all);
}

/// Requests can only be spaced out on connections that make one request at a time.
pub proof fn law_intervals_need_single_streams(t: QuicRequestResponseTraffic)
    ensures
        !is_valid(t) <==> t.request_interval_ms > 0 && t.concurrent_streams_per_connection != 1,
        has_valid_options(TrafficKind::QuicRequestResponse(t)) <==> is_valid(t),
{
}

/// Only QUIC traffic has options that can be at odds, and traffic is named after its kind.
pub proof fn law_traffic_is_named(kind: TrafficKind)
    ensures
        !(kind is QuicRequestResponse) ==> has_valid_options(kind),
        kind is QuicRequestResponse ==> main_name(kind) == "Requests"@,
        kind is UdpPing ==> main_name(kind) == "Ping"@,
        kind is UdpOneDirection ==> main_name(kind) == "UDP"@,
{
}

/// The hosts of each traffic pattern are paired, in one direction only, and nobody else is.
pub proof fn law_hosts_are_paired(traffic: Seq<TrafficKind>, pairs: Seq<(IpAddr, IpAddr)>)
    requires
        is_sorted_distinct(
            traffic.map_values(|k: TrafficKind| ordered(k.spec_ends().0, k.spec_ends().1)),
            pairs,
        ),
    ensures
        forall|i: int|
            0 <= i < traffic.len() ==> {
                let (client, server) = hosts_of(#[trigger] traffic[i]);
                pairs.contains((client, server)) || pairs.contains((server, client))
            },
        forall|k: int| 0 <= k < pairs.len() ==> is_pair_of_any(#[trigger] pairs[k], traffic),
        forall|k: int, m: int|
            0 <= k < m < pairs.len() ==> #[trigger] pairs[k] != #[trigger] pairs[m] && pairs[k] != (
                pairs[m].1,
                pairs[m].0,
            ),
{
    let f = |k: TrafficKind| ordered(k.spec_ends().0, k.spec_ends().1);
    let input = traffic.map_values(f);
    law_pairs_are_distinct(input, pairs);
    assert forall|i: int| 0 <= i < traffic.len() implies {
        let (client, server) = hosts_of(#[trigger] traffic[i]);
        pairs.contains((client, server)) || pairs.contains((server, client))
    } by {
        assert(input[i] == f(traffic[i]));
        assert(input.contains(input[i]));
    }
    assert forall|k: int| 0 <= k < pairs.len() implies is_pair_of_any(
        #[trigger] pairs[k],
        traffic,
    ) by {
        assert(input.contains(pairs[k]));
        let i = choose|i: int| 0 <= i < input.len() && input[i] == pairs[k];
        assert(pairs[k] == f(traffic[i]));
        assert(is_pair_of(pairs[k], traffic[i]));
    }
    assert forall|k: int, m: int| 0 <= k < m < pairs.len() implies #[trigger] pairs[k]
        != #[trigger] pairs[m] && pairs[k] != (pairs[m].1, pairs[m].0) by {
        assert(input.contains(pairs[k]) && input.contains(pairs[m]));
        let i = choose|i: int| 0 <= i < input.len() && input[i] == pairs[k];
        let j = choose|j: int| 0 <= j < input.len() && input[j] == pairs[m];
        assert(pairs[k] == f(traffic[i]) && pairs[m] == f(traffic[j]));
    }
}

/// The QUIC hosts are paired, and hosts of other traffic are not.
pub proof fn law_quic_hosts_are_paired(traffic: Seq<TrafficKind>, pairs: Seq<(IpAddr, IpAddr)>)
    requires
        is_sorted_distinct(
            traffic.filter_map(|k: TrafficKind| request_response_of(k)).map_values(
                |t: QuicRequestResponseTraffic| quic_pair(t),
            ),
            pairs,
        ),
    ensures
        pairs.no_duplicates(),
        forall|i: int|
            0 <= i < traffic.len() && (#[trigger] traffic[i]) is QuicRequestResponse ==> {
                let (client, server) = hosts_of(traffic[i]);
                pairs.contains((client, server)) || pairs.contains((server, client))
            },
        forall|k: int| 0 <= k < pairs.len() ==> is_pair_of_quic(#[trigger] pairs[k], traffic),
{
    let f = |k: TrafficKind| request_response_of(k);
    let g = |t: QuicRequestResponseTraffic| quic_pair(t);
    let quic = traffic.filter_map(f);
    let input = quic.map_values(g);
    law_pairs_are_distinct(input, pairs);
    assert forall|i: int|
        0 <= i < traffic.len() && (#[trigger] traffic[i]) is QuicRequestResponse implies {
        let (client, server) = hosts_of(traffic[i]);
        pairs.contains((client, server)) || pairs.contains((server, client))
    } by {
        let t = request_response_of(traffic[i])->0;
        lemma_filter_map_holds(traffic, f, i, t);
        let k = choose|k: int| 0 <= k < quic.len() && quic[k] == t;
        assert(input[k] == g(t));
        assert(input.contains(input[k]));
    }
    assert forall|k: int| 0 <= k < pairs.len() implies is_pair_of_quic(
        #[trigger] pairs[k],
        traffic,
    ) by {
        assert(input.contains(pairs[k]));
        let m = choose|m: int| 0 <= m < input.len() && input[m] == pairs[k];
        let t = quic[m];
        assert(traffic.filter_map(f).contains(t));
        traffic.lemma_filter_map_contains(f, t);
        let kind = choose|x: TrafficKind| traffic.contains(x) && #[trigger] f(x) == Some(t);
        let i = choose|i: int| 0 <= i < traffic.len() && traffic[i] == kind;
        assert(pairs[k] == g(t));
        assert(is_pair_of(pairs[k], traffic[i]));
    }
}

/// The generators get the configured seeds, each its own one, unless the simulation is not to be
/// repeatable: then they get the drawn ones.
pub proof fn law_seeds_come_from_one_place(opt: NetworkOpt, drawn: (u64, u64))
    ensures
        opt.non_deterministic ==> chosen_seeds(opt, drawn) == drawn,
        !opt.non_deterministic ==> chosen_seeds(opt, drawn).0 == opt.quinn_rng_seed && chosen_seeds(
            opt,
            drawn,
        ).1 == opt.network_rng_seed,
{
}

/// The parameters are listed one by one: both seeds, the network graph, and the files that are used.
pub proof fn law_parameters_are_listed(
    quinn_seed: u64,
    network_seed: u64,
    network_graph: Seq<char>,
    network_events: Option<&String>,
    traffic: Option<&String>,
)
    ensures
        ({
            let lines = params_text(
                quinn_seed,
                network_seed,
                network_graph,
                network_events,
                traffic,
            );
            let events: int = if network_events is Some {
                1
            } else {
                0
            };
            &&& lines.len() == 4 + events + if traffic is Some {
                1int
            } else {
                0
            }
            &&& lines[0] == "--- Params ---"@
            &&& lines[1] == "* Quinn seed: "@ + decimal(quinn_seed as nat)
            &&& lines[2] == "* Network seed: "@ + decimal(network_seed as nat)
            &&& lines[3] == "* Network graph path: "@ + network_graph
            &&& network_events matches Some(path) ==> lines[4] == "* Network events path: "@ + path@
            &&& traffic matches Some(path) ==> lines[4 + events] == "* Traffic patterns path: "@
                + path@
        }),
{
}

/// If the owners of all roles are known, then both hosts of every traffic pattern are nodes.
pub proof fn law_all_hosts_need_nodes(network: NetworkView, patterns: Seq<TrafficKind>, i: int)
    requires
        all_ends_are_nodes(network, patterns),
        0 <= i < patterns.len(),
    ensures
        exists|n: int|
            0 <= n < network.nodes.len() && (#[trigger] network.nodes[n]).addresses.contains(
                hosts_of(patterns[i]).0,
            ),
        exists|n: int|
            0 <= n < network.nodes.len() && (#[trigger] network.nodes[n]).addresses.contains(
                hosts_of(patterns[i]).1,
            ),
{
    let kind = patterns[i];
    let (of_client, of_server) = match kind {
        TrafficKind::QuicRequestResponse(_) => (2int, 3int),
        TrafficKind::UdpPing(_) => (0int, 1int),
        TrafficKind::UdpOneDirection(_) => (5int, 4int),
    };
    lemma_host_has_node(network, patterns, i, of_client, hosts_of(kind).0);
    lemma_host_has_node(network, patterns, i, of_server, hosts_of(kind).1);
}

proof fn lemma_host_has_node(
    network: NetworkView,
    patterns: Seq<TrafficKind>,
    i: int,
    r: int,
    ip: IpAddr,
)
    requires
        all_ends_are_nodes(network, patterns),
        0 <= i < patterns.len(),
        0 <= r < 6,
        ip_with_role(patterns[i], all_roles()[r]) == Some(ip),
    ensures
        exists|n: int|
            0 <= n < network.nodes.len() && (#[trigger] network.nodes[n]).addresses.contains(ip),
{
    let role = all_roles()[r];
    let f = |k: TrafficKind| ip_with_role(k, role);
    lemma_filter_map_holds(patterns, f, i, ip);
    let ips = ips_with(patterns, role);
    let k = choose|k: int| 0 <= k < ips.len() && ips[k] == ip;
    assert(node_with_address(network.nodes, ips_with(patterns, all_roles()[r])[k]) is Some);
    let owns = |n: NodeView| n.addresses.contains(ip);
    lemma_first_index(network.nodes, owns);
    let found = node_with_address(network.nodes, ip)->0;
    assert(owns(network.nodes[found]));
}

/// Whoever reuses nodes is told which ones.
pub proof fn law_reused_nodes_are_named(ids: Seq<Seq<char>>)
    ensures
        reuse_text(ids)
            == "it is currently not allowed to use the same node in different traffic specs, but the following nodes were reused: "@
            + joined(repeated(ids), ", "@),
{
}

/// Whoever has unknown fields in a file is told which file it is and which fields they are.
pub proof fn law_unknown_fields_are_named(path: Seq<char>, fields: Seq<Seq<char>>)
    ensures
        unknown_fields_text(path, fields) == "WARN: the JSON file at `"@ + path
            + "` contains the following unknown fields:\n- "@ + joined(fields, "\n- "@),
{
}


} // verus!
