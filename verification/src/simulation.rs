//! What a simulation does, and in which order.

use crate::config::cli::NetworkOpt;
use crate::config::traffic::{QuicRequestResponseTraffic, TrafficKind};
use crate::network::event::NetworkEvents;
use crate::network::ip::IpAddr;
use crate::network::node::NodeView;
use crate::network::run::{law_runs_are_repeatable, NetworkStep};
use crate::network::setup::is_initialized;
use crate::network::spec::NetworkSpec;
use crate::network::{
    link_with_id, node_with_address, node_with_id, InMemoryNetwork, NetworkView,
};
use crate::random::{entropy_seeds, Roll};
use crate::report::RoleNodes;
use crate::sorting::{has_rank, is_sorted_distinct, same_rank, sorted_distinct, SortOrder};
use crate::text::{
    decimal, join, joined, lemma_text_le_antisymmetric, push_decimal, push_line, texts,
};
use crate::time::Nanos;
use crate::tracing::tracer::TracerView;
use crate::util::{duplicates, repeated};
use vstd::prelude::*;

verus! {

/// Requests can only be spaced out when they are made one after the other.
pub open spec fn is_valid(t: QuicRequestResponseTraffic) -> bool {
    t.request_interval_ms == 0 || t.concurrent_streams_per_connection == 1
}

/// Whether the options of a traffic pattern are compatible with each other.
pub fn validate_traffic(opts: &QuicRequestResponseTraffic) -> (r: Result<(), &'static str>)
    ensures
        match r {
            Ok(_) => is_valid(*opts),
            Err(text) => !is_valid(*opts) && text@
                == "incompatible QUIC traffic options used: `request_interval_ms` is only valid when `concurrent_streams_per_connection` is set to `1` (its default value)"@,
        },
{
    if opts.request_interval_ms != 0 && opts.concurrent_streams_per_connection != 1 {
        return Err(
            "incompatible QUIC traffic options used: `request_interval_ms` is only valid when `concurrent_streams_per_connection` is set to `1` (its default value)",
        );
    }
    Ok(())
}

/// Whether the command-line options for a single traffic pattern are compatible with each other.
pub fn validate_opts(request_interval_ms: Option<u64>, concurrent_streams_per_connection: u32) -> (r:
    Result<(), &'static str>)
    ensures
        ({
            let spaced_out = request_interval_ms matches Some(ms) && ms != 0;
            match r {
                Ok(_) => !spaced_out || concurrent_streams_per_connection == 1,
                Err(text) => spaced_out && concurrent_streams_per_connection != 1 && text@
                    == "incompatible command-line options used: `--request-interval-ms` is only valid when `--concurrent-streams-per-connection` is set to `1` (its default value)"@,
            }
        }),
{
    let interval: u64 = match request_interval_ms {
        Some(ms) => ms,
        None => 0,
    };
    if interval != 0 && concurrent_streams_per_connection != 1 {
        return Err(
            "incompatible command-line options used: `--request-interval-ms` is only valid when `--concurrent-streams-per-connection` is set to `1` (its default value)",
        );
    }
    Ok(())
}

/// What the first traffic pattern means for the report.
pub struct TrafficPlan {
    pub main_traffic_name: &'static str,
    pub force_verbose_stats: bool,
    /// All patterns are UDP traffic in one direction
    pub all_traffic_is_udp: bool,
}

pub open spec fn has_valid_options(kind: TrafficKind) -> bool {
    kind matches TrafficKind::QuicRequestResponse(t) ==> is_valid(t)
}

pub open spec fn main_name(kind: TrafficKind) -> Seq<char> {
    match kind {
        TrafficKind::QuicRequestResponse(_) => "Requests"@,
        TrafficKind::UdpPing(_) => "Ping"@,
        TrafficKind::UdpOneDirection(_) => "UDP"@,
    }
}

/// Checks the traffic patterns and decides what is reported.
pub fn plan_traffic(patterns: &Vec<TrafficKind>) -> (r: Result<TrafficPlan, &'static str>)
    ensures
        ({
            let all_valid = forall|i: int|
                0 <= i < patterns@.len() ==> has_valid_options(#[trigger] patterns@[i]);
            match r {
                Ok(plan) => {
                    &&& all_valid
                    &&& patterns@.len() > 0
                    &&& plan.main_traffic_name@ == main_name(patterns@[0])
                    &&& plan.force_verbose_stats == !(patterns@[0] is QuicRequestResponse)
                    &&& plan.all_traffic_is_udp == forall|i: int|
                        0 <= i < patterns@.len() ==> (#[trigger] patterns@[i]) is UdpOneDirection
                },
                Err(text) => if all_valid {
                    patterns@.len() == 0 && text@
                        == "the specified traffic json file does not contain any traffic patterns"@
                } else {
                    text@
                        == "incompatible QUIC traffic options used: `request_interval_ms` is only valid when `concurrent_streams_per_connection` is set to `1` (its default value)"@
                },
            }
        }),
{
    let mut all_traffic_is_udp = true;
    for i in 0..patterns.len()
        invariant
            forall|k: int| 0 <= k < i ==> has_valid_options(#[trigger] patterns@[k]),
            all_traffic_is_udp == forall|k: int|
                0 <= k < i ==> (#[trigger] patterns@[k]) is UdpOneDirection,
    {
        match &patterns[i] {
            TrafficKind::QuicRequestResponse(t) => {
                match validate_traffic(t) {
                    Ok(_) => {},
                    Err(text) => {
                        assert(!has_valid_options(patterns@[i as int]));
                        return Err(text);
                    },
                }
                assert(!(patterns@[i as int] is UdpOneDirection));
                all_traffic_is_udp = false;
            },
            TrafficKind::UdpPing(_) => {
                assert(!(patterns@[i as int] is UdpOneDirection));
                all_traffic_is_udp = false;
            },
            TrafficKind::UdpOneDirection(_) => {},
        }
    }
    if patterns.len() == 0 {
        return Err("the specified traffic json file does not contain any traffic patterns");
    }
    let (main_traffic_name, force_verbose_stats) = match &patterns[0] {
        TrafficKind::QuicRequestResponse(_) => ("Requests", false),
        TrafficKind::UdpPing(_) => ("Ping", true),
        TrafficKind::UdpOneDirection(_) => ("UDP", true),
    };
    Ok(TrafficPlan { main_traffic_name, force_verbose_stats, all_traffic_is_udp })
}

/// What a node does in a traffic pattern.
#[derive(Clone, Copy, PartialEq, Eq, Structural, Debug)]
pub enum Role {
    PingClient,
    PingServer,
    QuicClient,
    QuicServer,
    UdpReceiver,
    UdpSender,
}

impl Role {
    pub open spec fn text(self) -> Seq<char> {
        match self {
            Role::PingClient => "ping client"@,
            Role::PingServer => "ping server"@,
            Role::QuicClient => "quic client"@,
            Role::QuicServer => "quic server"@,
            Role::UdpReceiver => "udp receiver"@,
            Role::UdpSender => "udp sender"@,
        }
    }

    pub fn name(self) -> (r: &'static str)
        ensures
            r@ == self.text(),
    {
        match self {
            Role::PingClient => "ping client",
            Role::PingServer => "ping server",
            Role::QuicClient => "quic client",
            Role::QuicServer => "quic server",
            Role::UdpReceiver => "udp receiver",
            Role::UdpSender => "udp sender",
        }
    }
}

/// All roles, in alphabetical order.
pub open spec fn all_roles() -> Seq<Role> {
    seq![
        Role::PingClient,
        Role::PingServer,
        Role::QuicClient,
        Role::QuicServer,
        Role::UdpReceiver,
        Role::UdpSender,
    ]
}

/// The address that has the role in the traffic pattern.
pub open spec fn ip_with_role(kind: TrafficKind, role: Role) -> Option<IpAddr> {
    match (kind, role) {
        (TrafficKind::QuicRequestResponse(t), Role::QuicClient) => Some(t.client.ip),
        (TrafficKind::QuicRequestResponse(t), Role::QuicServer) => Some(t.server.ip),
        (TrafficKind::UdpPing(t), Role::PingClient) => Some(t.client.ip),
        (TrafficKind::UdpPing(t), Role::PingServer) => Some(t.server.ip),
        (TrafficKind::UdpOneDirection(t), Role::UdpSender) => Some(t.client.ip),
        (TrafficKind::UdpOneDirection(t), Role::UdpReceiver) => Some(t.server.ip),
        _ => None,
    }
}

/// The addresses that have the role, in the order of the traffic patterns.
pub open spec fn ips_with(patterns: Seq<TrafficKind>, role: Role) -> Seq<IpAddr> {
    patterns.filter_map(|k: TrafficKind| ip_with_role(k, role))
}

/// The addresses that have the role, in the order of the traffic patterns.
pub fn ips_with_role(patterns: &Vec<TrafficKind>, role: Role) -> (r: Vec<IpAddr>)
    ensures
        r@ == ips_with(patterns@, role),
{
    let ghost f = |k: TrafficKind| ip_with_role(k, role);
    let mut ips: Vec<IpAddr> = Vec::new();
    assert(patterns@.take(0).filter_map(f) =~= Seq::empty());
    for i in 0..patterns.len()
        invariant
            f == (|k: TrafficKind| ip_with_role(k, role)),
            ips@ == patterns@.take(i as int).filter_map(f),
    {
        proof {
            patterns@.lemma_filter_map_take_succ(f, i as int);
        }
        match (&patterns[i], role) {
            (TrafficKind::QuicRequestResponse(t), Role::QuicClient) => ips.push(t.client.ip),
            (TrafficKind::QuicRequestResponse(t), Role::QuicServer) => ips.push(t.server.ip),
            (TrafficKind::UdpPing(t), Role::PingClient) => ips.push(t.client.ip),
            (TrafficKind::UdpPing(t), Role::PingServer) => ips.push(t.server.ip),
            (TrafficKind::UdpOneDirection(t), Role::UdpSender) => ips.push(t.client.ip),
            (TrafficKind::UdpOneDirection(t), Role::UdpReceiver) => ips.push(t.server.ip),
            _ => {},
        }
        assert(ips@ =~= patterns@.take(i + 1).filter_map(f));
    }
    assert(patterns@.take(patterns@.len() as int) =~= patterns@);
    ips
}

/// The error for nodes that are used more than once.
pub open spec fn reuse_text(ids: Seq<Seq<char>>) -> Seq<char> {
    "it is currently not allowed to use the same node in different traffic specs, but the following nodes were reused: "@
        + joined(repeated(ids), ", "@)
}

/// Checks that no node has two roles; only traffic that is all UDP in one direction may reuse nodes.
pub fn check_reuse(node_ids: &Vec<String>, all_traffic_is_udp: bool) -> (r: Result<(), String>)
    ensures
        match r {
            Ok(_) => repeated(texts(node_ids@)).len() == 0 || all_traffic_is_udp,
            Err(text) => repeated(texts(node_ids@)).len() > 0 && !all_traffic_is_udp && text@
                == reuse_text(texts(node_ids@)),
        },
{
    let duplicate_ids = duplicates(node_ids);
    assert(texts(duplicate_ids@).len() == duplicate_ids@.len());
    if duplicate_ids.len() > 0 && !all_traffic_is_udp {
        let mut text =
            "it is currently not allowed to use the same node in different traffic specs, but the following nodes were reused: ".to_owned();
        let list = join(&duplicate_ids, ", ");
        text.append(list.as_str());
        return Err(text);
    }
    Ok(())
}

/// The seeds of the two random number generators, given seeds from a source of entropy: the
/// configured ones, unless asked otherwise.
pub open spec fn chosen_seeds(opt: NetworkOpt, drawn: (u64, u64)) -> (u64, u64) {
    if opt.non_deterministic {
        drawn
    } else {
        (opt.quinn_rng_seed, opt.network_rng_seed)
    }
}

/// The seeds of the two random number generators, given seeds from a source of entropy.
pub fn choose_seeds(opt: &NetworkOpt, drawn: (u64, u64)) -> (r: (u64, u64))
    ensures
        r == chosen_seeds(*opt, drawn),
{
    if opt.non_deterministic {
        drawn
    } else {
        (opt.quinn_rng_seed, opt.network_rng_seed)
    }
}

/// The seeds of the two random number generators. Runs are repeatable unless asked otherwise.
pub fn pick_seeds(opt: &NetworkOpt) -> (r: (u64, u64))
    ensures
        !opt.non_deterministic ==> r == (opt.quinn_rng_seed, opt.network_rng_seed),
{
    choose_seeds(opt, entropy_seeds())
}

/// Simulations with the same options are the same, unless asked otherwise: whatever comes from the
/// source of entropy, the generators get the same seeds, and two networks that were set up with them,
/// and to which the same is done at the same times, are the same in the end and have recorded the same
/// steps.
pub proof fn law_simulations_are_repeatable(
    opt: NetworkOpt,
    drawn_a: (u64, u64),
    drawn_b: (u64, u64),
    a: NetworkView,
    b: NetworkView,
    spec: NetworkSpec,
    events: NetworkEvents,
    tracer: TracerView,
    now: Nanos,
    steps: Seq<NetworkStep>,
    draw: spec_fn(u64) -> Roll,
)
    requires
        !opt.non_deterministic,
        is_initialized(a, spec, events, tracer, chosen_seeds(opt, drawn_a).1, now),
        is_initialized(b, spec, events, tracer, chosen_seeds(opt, drawn_b).1, now),
    ensures
        chosen_seeds(opt, drawn_a) == chosen_seeds(opt, drawn_b),
        a.run(steps, draw) == b.run(steps, draw),
        a.run(steps, draw).tracer.steps == b.run(steps, draw).tracer.steps,
{
    law_runs_are_repeatable(a, b, spec, events, tracer, opt.network_rng_seed, now, steps, draw);
}

/// The two addresses, the smaller one first.
pub open spec fn ordered(a: IpAddr, b: IpAddr) -> (IpAddr, IpAddr) {
    if a.at_most(b) {
        (a, b)
    } else {
        (b, a)
    }
}

/// The pairs of hosts that have to be connected, each one once, in a fixed order.
pub fn socket_pairs_from_traffic(traffic: &Vec<TrafficKind>) -> (pairs: Vec<(IpAddr, IpAddr)>)
    ensures
        is_sorted_distinct(
            traffic@.map_values(|k: TrafficKind| ordered(k.spec_ends().0, k.spec_ends().1)),
            pairs@,
        ),
{
    let ghost f = |k: TrafficKind| ordered(k.spec_ends().0, k.spec_ends().1);
    let mut pairs: Vec<(IpAddr, IpAddr)> = Vec::new();
    for i in 0..traffic.len()
        invariant
            f == (|k: TrafficKind| ordered(k.spec_ends().0, k.spec_ends().1)),
            pairs@ == traffic@.take(i as int).map_values(f),
    {
        // Order the addresses to prevent duplicates
        let (client, server) = traffic[i].ends();
        if client.comes_before(&server) {
            pairs.push((client, server));
        } else {
            pairs.push((server, client));
        }
        assert(pairs@ =~= traffic@.take(i + 1).map_values(f));
    }
    assert(traffic@.take(traffic@.len() as int) =~= traffic@);
    // Sort to ensure determinism
    sorted_distinct(pairs)
}

/// Two addresses that the order does not tell apart are the same: no pair of hosts is listed twice.
pub proof fn law_pairs_are_distinct(input: Seq<(IpAddr, IpAddr)>, pairs: Seq<(IpAddr, IpAddr)>)
    requires
        is_sorted_distinct(input, pairs),
    ensures
        pairs.no_duplicates(),
        forall|p: (IpAddr, IpAddr)| input.contains(p) <==> pairs.contains(p),
{
    assert forall|i: int, j: int| 0 <= i < pairs.len() && 0 <= j < pairs.len() && i != j implies
        pairs[i] != pairs[j] by {
        if i < j {
            assert(pairs[i].precedes(pairs[j]) && !pairs[j].precedes(pairs[i]));
        } else {
            assert(pairs[j].precedes(pairs[i]) && !pairs[i].precedes(pairs[j]));
        }
    }
    assert forall|p: (IpAddr, IpAddr)| input.contains(p) <==> pairs.contains(p) by {
        if input.contains(p) {
            let i = choose|i: int| 0 <= i < input.len() && input[i] == p;
            assert(has_rank(pairs, input[i]));
            let k = choose|k: int|
                0 <= k < pairs.len() && #[trigger] same_rank(pairs[k], p);
            assert(pairs[k] == p);
        }
        if pairs.contains(p) {
            let k = choose|k: int| 0 <= k < pairs.len() && pairs[k] == p;
            assert(input.contains(pairs[k]));
        }
    }
}

pub open spec fn request_response_of(kind: TrafficKind) -> Option<QuicRequestResponseTraffic> {
    match kind {
        TrafficKind::QuicRequestResponse(t) => Some(t),
        _ => None,
    }
}

/// The QUIC traffic among the patterns.
pub fn request_response_traffic(traffic: &Vec<TrafficKind>) -> (r: Vec<QuicRequestResponseTraffic>)
    ensures
        r@ == traffic@.filter_map(|k: TrafficKind| request_response_of(k)),
{
    let ghost f = |k: TrafficKind| request_response_of(k);
    let mut filtered: Vec<QuicRequestResponseTraffic> = Vec::new();
    assert(traffic@.take(0).filter_map(f) =~= Seq::empty());
    for i in 0..traffic.len()
        invariant
            f == (|k: TrafficKind| request_response_of(k)),
            filtered@ == traffic@.take(i as int).filter_map(f),
    {
        proof {
            traffic@.lemma_filter_map_take_succ(f, i as int);
        }
        if let TrafficKind::QuicRequestResponse(t) = &traffic[i] {
            filtered.push(*t);
        }
        assert(filtered@ =~= traffic@.take(i + 1).filter_map(f));
    }
    assert(traffic@.take(traffic@.len() as int) =~= traffic@);
    filtered
}

/// The two hosts of QUIC traffic, the smaller address first.
pub open spec fn quic_pair(t: QuicRequestResponseTraffic) -> (IpAddr, IpAddr) {
    ordered(t.client.ip, t.server.ip)
}

/// The pairs of hosts with QUIC traffic between them, each one once, in a fixed order.
pub fn ip_pairs_from_traffic(traffic: &Vec<TrafficKind>) -> (pairs: Vec<(IpAddr, IpAddr)>)
    ensures
        is_sorted_distinct(
            traffic@.filter_map(|k: TrafficKind| request_response_of(k)).map_values(
                |t: QuicRequestResponseTraffic| quic_pair(t),
            ),
            pairs@,
        ),
{
    let quic = request_response_traffic(traffic);
    let ghost f = |t: QuicRequestResponseTraffic| quic_pair(t);
    let mut pairs: Vec<(IpAddr, IpAddr)> = Vec::new();
    for i in 0..quic.len()
        invariant
            f == (|t: QuicRequestResponseTraffic| quic_pair(t)),
            pairs@ == quic@.take(i as int).map_values(f),
    {
        // Order the addresses to prevent duplicates
        let t = &quic[i];
        if t.client.ip.comes_before(&t.server.ip) {
            pairs.push((t.client.ip, t.server.ip));
        } else {
            pairs.push((t.server.ip, t.client.ip));
        }
        assert(pairs@ =~= quic@.take(i + 1).map_values(f));
    }
    assert(quic@.take(quic@.len() as int) =~= quic@);
    // Sort to ensure determinism
    sorted_distinct(pairs)
}

/// The warning about the given fields of a configuration file.
pub open spec fn unknown_fields_text(path: Seq<char>, fields: Seq<Seq<char>>) -> Seq<char> {
    "WARN: the JSON file at `"@ + path + "` contains the following unknown fields:\n- "@ + joined(
        fields,
        "\n- "@,
    )
}

/// The warning about fields of a configuration file that were not used, if there are any. Each field
/// is listed once, in alphabetical order.
pub fn unknown_fields_warning(path: &str, unused: Vec<String>) -> (r: Option<String>)
    ensures
        match r {
            None => unused@.len() == 0,
            Some(text) => unused@.len() > 0 && exists|fields: Seq<String>| #[trigger]
                is_sorted_distinct(unused@, fields) && text@ == unknown_fields_text(
                    path@,
                    texts(fields),
                ),
        },
{
    if unused.len() == 0 {
        return None;
    }
    let fields = sorted_distinct(unused);
    let mut text = "WARN: the JSON file at `".to_owned();
    text.append(path);
    text.append("` contains the following unknown fields:\n- ");
    let list = join(&fields, "\n- ");
    text.append(list.as_str());
    Some(text)
}

/// Every unused field is listed, and no field is listed twice.
pub proof fn law_unknown_fields_are_listed_once(unused: Seq<String>, fields: Seq<String>)
    requires
        is_sorted_distinct(unused, fields),
    ensures
        texts(fields).no_duplicates(),
        forall|i: int|
            0 <= i < unused.len() ==> texts(fields).contains((#[trigger] unused[i])@),
        forall|i: int| 0 <= i < fields.len() ==> texts(unused).contains((#[trigger] fields[i])@),
{
    let listed = texts(fields);
    assert forall|i: int, j: int|
        0 <= i < listed.len() && 0 <= j < listed.len() && i != j implies listed[i] != listed[j] by {
        if i < j {
            assert(fields[i].precedes(fields[j]) && !fields[j].precedes(fields[i]));
        } else {
            assert(fields[j].precedes(fields[i]) && !fields[i].precedes(fields[j]));
        }
    }
    assert forall|i: int| 0 <= i < unused.len() implies listed.contains(
        (#[trigger] unused[i])@,
    ) by {
        assert(has_rank(fields, unused[i]));
        let k = choose|k: int| 0 <= k < fields.len() && #[trigger] same_rank(fields[k], unused[i]);
        lemma_text_le_antisymmetric(fields[k]@, unused[i]@);
        assert(listed[k] == unused[i]@);
    }
    assert forall|i: int| 0 <= i < fields.len() implies texts(unused).contains(
        (#[trigger] fields[i])@,
    ) by {
        assert(unused.contains(fields[i]));
        let k = choose|k: int| 0 <= k < unused.len() && unused[k] == fields[i];
        assert(texts(unused)[k] == fields[i]@);
    }
}

/// A line about a path, if there is one.
pub open spec fn path_line(label: Seq<char>, path: Option<&String>) -> Seq<Seq<char>> {
    match path {
        Some(p) => seq![label + p@],
        None => Seq::empty(),
    }
}

fn push_path_line(lines: &mut Vec<String>, label: &str, path: Option<&String>)
    ensures
        texts(final(lines)@) == texts(old(lines)@) + path_line(label@, path),
{
    if let Some(p) = path {
        let mut line = label.to_owned();
        line.append(p.as_str());
        push_line(lines, line);
    }
    assert(texts(lines@) =~= texts(old(lines)@) + path_line(label@, path));
}

/// The lines about the parameters of a simulation.
pub open spec fn params_text(
    quinn_seed: u64,
    network_seed: u64,
    network_graph: Seq<char>,
    network_events: Option<&String>,
    traffic: Option<&String>,
) -> Seq<Seq<char>> {
    seq![
        "--- Params ---"@,
        "* Quinn seed: "@ + decimal(quinn_seed as nat),
        "* Network seed: "@ + decimal(network_seed as nat),
        "* Network graph path: "@ + network_graph,
    ] + path_line("* Network events path: "@, network_events) + path_line(
        "* Traffic patterns path: "@,
        traffic,
    )
}

/// The lines about the parameters of a simulation. Files that are not used are not mentioned.
pub fn params_lines(
    quinn_seed: u64,
    network_seed: u64,
    network_graph: &str,
    network_events: Option<&String>,
    traffic: Option<&String>,
) -> (lines: Vec<String>)
    ensures
        texts(lines@) == params_text(
            quinn_seed,
            network_seed,
            network_graph@,
            network_events,
            traffic,
        ),
{
    let mut lines: Vec<String> = Vec::new();
    push_line(&mut lines, "--- Params ---".to_owned());
    let mut quinn = "* Quinn seed: ".to_owned();
    push_decimal(&mut quinn, quinn_seed as u128);
    push_line(&mut lines, quinn);
    let mut network = "* Network seed: ".to_owned();
    push_decimal(&mut network, network_seed as u128);
    push_line(&mut lines, network);
    let mut graph = "* Network graph path: ".to_owned();
    graph.append(network_graph);
    push_line(&mut lines, graph);
    assert(texts(lines@) =~= seq![
        "--- Params ---"@,
        "* Quinn seed: "@ + decimal(quinn_seed as nat),
        "* Network seed: "@ + decimal(network_seed as nat),
        "* Network graph path: "@ + network_graph@,
    ]);
    push_path_line(&mut lines, "* Network events path: ", network_events);
    push_path_line(&mut lines, "* Traffic patterns path: ", traffic);
    lines
}

/// The pairs of hosts whose connectivity is checked before the simulation. When time is not warped
/// the check would take too long, so it is skipped.
pub fn pairs_to_check(disable_time_warping: bool, traffic: &Vec<TrafficKind>) -> (r: Option<
    Vec<(IpAddr, IpAddr)>,
>)
    ensures
        match r {
            Some(pairs) => !disable_time_warping && is_sorted_distinct(
                traffic@.map_values(|k: TrafficKind| ordered(k.spec_ends().0, k.spec_ends().1)),
                pairs@,
            ),
            None => disable_time_warping,
        },
{
    if disable_time_warping {
        None
    } else {
        Some(socket_pairs_from_traffic(traffic))
    }
}

/// A notice for the case that there are several traffic patterns.
pub fn several_patterns_notice(patterns: &Vec<TrafficKind>) -> (r: Option<&'static str>)
    ensures
        match r {
            Some(text) => patterns@.len() > 1 && text@
                == "(We are simulating multiple traffic patterns and will only display logs for the first one.)"@,
            None => patterns@.len() <= 1,
        },
{
    if patterns.len() > 1 {
        Some(
            "(We are simulating multiple traffic patterns and will only display logs for the first one.)",
        )
    } else {
        None
    }
}

/// A notice for the case that there are several QUIC clients, given the id of the first one's node.
pub fn several_clients_notice(clients: usize, first_client_id: &String) -> (r: Option<String>)
    ensures
        match r {
            Some(text) => clients > 1 && text@
                == "There are multiple clients (on separate nodes). We will only display request-response logs for "@
                + first_client_id@ + "."@,
            None => clients <= 1,
        },
{
    if clients > 1 {
        let mut text =
            "There are multiple clients (on separate nodes). We will only display request-response logs for ".to_owned();
        text.append(first_client_id.as_str());
        text.append(".");
        Some(text)
    } else {
        None
    }
}

/// The line about packets that got through.
pub fn connectivity_passed_line(arrived1: Nanos, arrived2: Nanos) -> (r: String)
    ensures
        r@ == "passed (packets arrived after "@ + decimal((arrived1 / 1_000_000) as nat) + " ms and "@
            + decimal((arrived2 / 1_000_000) as nat) + " ms)"@,
{
    let mut line = "passed (packets arrived after ".to_owned();
    push_decimal(&mut line, arrived1 / 1_000_000);
    line.append(" ms and ");
    push_decimal(&mut line, arrived2 / 1_000_000);
    line.append(" ms)");
    line
}

/// A line about the status of a node or a link.
pub open spec fn status_text(id: Seq<char>, status: Seq<char>) -> Seq<char> {
    "  * "@ + id + ": "@ + status
}

fn status_line(id: &String, status: &str) -> (r: String)
    ensures
        r@ == status_text(id@, status@),
{
    let mut line = "  * ".to_owned();
    line.append(id.as_str());
    line.append(": ");
    line.append(status);
    line
}

impl InMemoryNetwork {
    /// The lines about the statuses of the given links.
    pub fn link_status_lines(&self, spec: &NetworkSpec) -> (lines: Vec<String>)
        requires
            forall|i: int|
                0 <= i < spec.links@.len() ==> link_with_id(
                    self@.links,
                    (#[trigger] spec.links@[i]).id@,
                ) is Some,
        ensures
            lines@.len() == spec.links@.len(),
            forall|i: int|
                0 <= i < lines@.len() ==> (#[trigger] lines@[i])@ == status_text(
                    spec.links@[i].id@,
                    match self@.links[link_with_id(
                        self@.links,
                        spec.links@[i].id@,
                    )->0].status {
                        crate::network::link::LinkStatus::Up => "UP"@,
                        crate::network::link::LinkStatus::Down => "DOWN"@,
                    },
                ),
    {
        let mut lines: Vec<String> = Vec::new();
        for i in 0..spec.links.len()
            invariant
                forall|i: int|
                    0 <= i < spec.links@.len() ==> link_with_id(
                        self@.links,
                        (#[trigger] spec.links@[i]).id@,
                    ) is Some,
                lines@.len() == i,
                forall|i: int|
                    0 <= i < lines@.len() ==> (#[trigger] lines@[i])@ == status_text(
                        spec.links@[i].id@,
                        match self@.links[link_with_id(
                            self@.links,
                            spec.links@[i].id@,
                        )->0].status {
                            crate::network::link::LinkStatus::Up => "UP"@,
                            crate::network::link::LinkStatus::Down => "DOWN"@,
                        },
                    ),
        {
            let id = &spec.links[i].id;
            lines.push(status_line(id, self.get_link_status(id)));
        }
        lines
    }

    /// The lines about the statuses of the given nodes.
    pub fn node_status_lines(&self, spec: &NetworkSpec) -> (lines: Vec<String>)
        requires
            forall|i: int|
                0 <= i < spec.nodes@.len() ==> node_with_id(
                    self@.nodes,
                    (#[trigger] spec.nodes@[i]).id@,
                ) is Some,
        ensures
            lines@.len() == spec.nodes@.len(),
            forall|i: int|
                0 <= i < lines@.len() ==> (#[trigger] lines@[i])@ == status_text(
                    spec.nodes@[i].id@,
                    match self@.nodes[node_with_id(
                        self@.nodes,
                        spec.nodes@[i].id@,
                    )->0].status {
                        crate::network::node::NodeStatus::Up => "UP"@,
                        crate::network::node::NodeStatus::Down => "DOWN"@,
                    },
                ),
    {
        let mut lines: Vec<String> = Vec::new();
        for i in 0..spec.nodes.len()
            invariant
                forall|i: int|
                    0 <= i < spec.nodes@.len() ==> node_with_id(
                        self@.nodes,
                        (#[trigger] spec.nodes@[i]).id@,
                    ) is Some,
                lines@.len() == i,
                forall|i: int|
                    0 <= i < lines@.len() ==> (#[trigger] lines@[i])@ == status_text(
                        spec.nodes@[i].id@,
                        match self@.nodes[node_with_id(
                            self@.nodes,
                            spec.nodes@[i].id@,
                        )->0].status {
                            crate::network::node::NodeStatus::Up => "UP"@,
                            crate::network::node::NodeStatus::Down => "DOWN"@,
                        },
                    ),
        {
            let id = &spec.nodes[i].id;
            lines.push(status_line(id, self.get_node_status(id)));
        }
        lines
    }

    /// The ids of the nodes with the given addresses, if there is a node for each of them.
    pub fn node_ids_of(&self, ips: &Vec<IpAddr>) -> (r: Option<Vec<String>>)
        ensures
            match r {
                Some(ids) => {
                    &&& ids@ == ips@.map_values(|ip: IpAddr| id_at(self@.nodes, ip))
                    &&& forall|i: int|
                        0 <= i < ips@.len() ==> node_with_address(
                            self@.nodes,
                            #[trigger] ips@[i],
                        ) is Some
                },
                None => exists|i: int|
                    0 <= i < ips@.len() && node_with_address(
                        self@.nodes,
                        #[trigger] ips@[i],
                    ) is None,
            },
    {
        let mut ids: Vec<String> = Vec::new();
        let ghost f = |ip: IpAddr| id_at(self@.nodes, ip);
        for i in 0..ips.len()
            invariant
                f == (|ip: IpAddr| id_at(self@.nodes, ip)),
                ids@ == ips@.take(i as int).map_values(f),
                forall|k: int|
                    0 <= k < i ==> node_with_address(self@.nodes, #[trigger] ips@[k]) is Some,
        {
            match self.node(ips[i]) {
                Some(n) => {
                    assert(self@.nodes[n as int] == self.nodes@[n as int]@);
                    ids.push(self.nodes[n].id.clone());
                    assert(ids@ =~= ips@.take(i + 1).map_values(f));
                },
                None => {
                    assert(node_with_address(self@.nodes, ips@[i as int]) is None);
                    return None;
                },
            }
        }
        assert(ips@.take(ips@.len() as int) =~= ips@);
        Some(ids)
    }
}

/// The id of the node with the given address.
pub open spec fn id_at(nodes: Seq<NodeView>, ip: IpAddr) -> String {
    nodes[node_with_address(nodes, ip)->0].id
}

/// A node has a role: the report lists it under the role's name.
pub open spec fn is_role_entry(
    entry: RoleNodes,
    network: NetworkView,
    patterns: Seq<TrafficKind>,
    role: Role,
) -> bool {
    &&& entry.role@ == role.text()
    &&& entry.node_ids@ == ips_with(patterns, role).map_values(
        |ip: IpAddr| id_at(network.nodes, ip),
    )
}

/// The entry for one role.
pub fn role_entry(network: &InMemoryNetwork, patterns: &Vec<TrafficKind>, role: Role) -> (r: Option<
    RoleNodes,
>)
    ensures
        match r {
            Some(entry) => is_role_entry(entry, network@, patterns@, role) && forall|i: int|
                0 <= i < ips_with(patterns@, role).len() ==> node_with_address(
                    network@.nodes,
                    #[trigger] ips_with(patterns@, role)[i],
                ) is Some,
            None => exists|i: int|
                0 <= i < ips_with(patterns@, role).len() && node_with_address(
                    network@.nodes,
                    #[trigger] ips_with(patterns@, role)[i],
                ) is None,
        },
{
    let ips = ips_with_role(patterns, role);
    match network.node_ids_of(&ips) {
        Some(node_ids) => {
            Some(RoleNodes { role: role.name().to_owned(), node_ids })
        },
        None => None,
    }
}

/// Every address in a traffic pattern belongs to a node.
pub open spec fn all_ends_are_nodes(network: NetworkView, patterns: Seq<TrafficKind>) -> bool {
    forall|r: int, i: int|
        0 <= r < all_roles().len() && 0 <= i < ips_with(patterns, all_roles()[r]).len()
            ==> node_with_address(
            network.nodes,
            #[trigger] ips_with(patterns, all_roles()[r])[i],
        ) is Some
}

/// The entries for all roles, unless an address in a traffic pattern belongs to no node.
pub fn role_entries(network: &InMemoryNetwork, patterns: &Vec<TrafficKind>) -> (r: Option<
    Vec<RoleNodes>,
>)
    ensures
        match r {
            Some(entries) => {
                &&& all_ends_are_nodes(network@, patterns@)
                &&& entries@.len() == all_roles().len()
                &&& forall|i: int|
                    0 <= i < entries@.len() ==> is_role_entry(
                        #[trigger] entries@[i],
                        network@,
                        patterns@,
                        all_roles()[i],
                    )
            },
            None => !all_ends_are_nodes(network@, patterns@),
        },
{
    let roles: [Role; 6] = [
        Role::PingClient,
        Role::PingServer,
        Role::QuicClient,
        Role::QuicServer,
        Role::UdpReceiver,
        Role::UdpSender,
    ];
    assert(roles@ =~= all_roles());
    let mut entries: Vec<RoleNodes> = Vec::new();
    for k in 0..6usize
        invariant
            roles@ == all_roles(),
            entries@.len() == k,
            forall|i: int|
                0 <= i < entries@.len() ==> is_role_entry(
                    #[trigger] entries@[i],
                    network@,
                    patterns@,
                    all_roles()[i],
                ),
            forall|r: int, i: int|
                0 <= r < k && 0 <= i < ips_with(patterns@, all_roles()[r]).len()
                    ==> node_with_address(
                    network@.nodes,
                    #[trigger] ips_with(patterns@, all_roles()[r])[i],
                ) is Some,
    {
        match role_entry(network, patterns, roles[k]) {
            Some(entry) => {
                entries.push(entry);
            },
            None => {
                proof {
                    let ips = ips_with(patterns@, all_roles()[k as int]);
                    let i = choose|i: int|
                        0 <= i < ips.len() && node_with_address(
                            network@.nodes,
                            #[trigger] ips[i],
                        ) is None;
                    assert(node_with_address(
                        network@.nodes,
                        ips_with(patterns@, all_roles()[k as int])[i],
                    ) is None);
                }
                return None;
            },
        }
    }
    Some(entries)
}

/// The nodes of all entries, one entry after the other.
pub open spec fn nodes_of(entries: Seq<RoleNodes>) -> Seq<String> {
    entries.flat_map(|e: RoleNodes| e.node_ids@)
}

/// The nodes of all entries, one entry after the other.
pub fn role_node_ids(entries: &Vec<RoleNodes>) -> (ids: Vec<String>)
    ensures
        ids@ == nodes_of(entries@),
{
    let mut ids: Vec<String> = Vec::new();
    let ghost f = |e: RoleNodes| e.node_ids@;
    assert(entries@.take(0).flat_map(f) =~= Seq::empty());
    for k in 0..entries.len()
        invariant
            f == (|e: RoleNodes| e.node_ids@),
            ids@ == entries@.take(k as int).flat_map(f),
    {
        let ghost before = ids@;
        let node_ids = &entries[k].node_ids;
        let ghost added = node_ids@;
        assert(before + added.take(0) =~= before);
        for i in 0..node_ids.len()
            invariant
                added == node_ids@,
                ids@ == before + added.take(i as int),
        {
            ids.push(node_ids[i].clone());
            assert(ids@ =~= before + added.take(i + 1));
        }
        proof {
            assert(added.take(node_ids@.len() as int) =~= added);
            entries@.lemma_flat_map_take_append(f, k as int);
            assert(f(entries@[k as int]) == added);
        }
    }
    assert(entries@.take(entries@.len() as int) =~= entries@);
    ids
}

} // verus!
