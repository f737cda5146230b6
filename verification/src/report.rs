//! What is reported at the end of a simulation.

use crate::search::{first_index, lemma_first_index, lemma_first_index_is};
use crate::sorting::{is_stable_sort, stable_sort, SortOrder};
use crate::text::{decimal, push_decimal, push_line, push_text_if, text_if, text_le, texts};
use vstd::prelude::*;

verus! {

/// A number of packets and their size.
#[derive(Clone, Copy, PartialEq, Eq, Structural, Debug)]
pub struct PacketCount {
    pub packets: u64,
    pub bytes: u64,
}

impl PacketCount {
    /// The two counts can be added.
    pub open spec fn can_join(self, other: PacketCount) -> bool {
        self.packets + other.packets <= u64::MAX && self.bytes + other.bytes <= u64::MAX
    }

    pub open spec fn spec_join(self, other: PacketCount) -> PacketCount {
        PacketCount {
            packets: (self.packets + other.packets) as u64,
            bytes: (self.bytes + other.bytes) as u64,
        }
    }

    /// The sum of two counts.
    pub fn join(&self, other: &PacketCount) -> (r: PacketCount)
        requires
            self.can_join(*other),
        ensures
            r == self.spec_join(*other),
    {
        PacketCount { packets: self.packets + other.packets, bytes: self.bytes + other.bytes }
    }
}

/// What happened to the packets at a node.
#[derive(Clone, Copy, PartialEq, Eq, Structural, Debug)]
pub struct NodeStats {
    pub sent: PacketCount,
    pub duplicates: PacketCount,
    pub congestion_experienced: PacketCount,
    pub dropped_injected: PacketCount,
    pub dropped_buffer_full: PacketCount,
    pub dropped_on_arrival: PacketCount,
    pub dropped_buffer_cleared: PacketCount,
    pub received: PacketCount,
    pub received_out_of_order: PacketCount,
    pub max_buffer_usage: u64,
}

impl NodeStats {
    pub open spec fn dropped_in_range(self) -> bool {
        &&& self.dropped_injected.packets + self.dropped_buffer_full.packets
            + self.dropped_on_arrival.packets + self.dropped_buffer_cleared.packets <= u64::MAX
        &&& self.dropped_injected.bytes + self.dropped_buffer_full.bytes
            + self.dropped_on_arrival.bytes + self.dropped_buffer_cleared.bytes <= u64::MAX
    }

    /// All packets that were dropped.
    pub open spec fn spec_dropped(self) -> PacketCount {
        self.dropped_injected.spec_join(self.dropped_buffer_full).spec_join(
            self.dropped_on_arrival,
        ).spec_join(self.dropped_buffer_cleared)
    }
}

/// A text with a count in it.
pub open spec fn count_text(
    start: Seq<char>,
    count: PacketCount,
    middle: Seq<char>,
    end: Seq<char>,
) -> Seq<char> {
    start + decimal(count.packets as nat) + middle + decimal(count.bytes as nat) + end
}

fn count_line(start: &str, count: &PacketCount, middle: &str, end: &str) -> (r: String)
    ensures
        r@ == count_text(start@, *count, middle@, end@),
{
    let mut line = start.to_owned();
    push_decimal(&mut line, count.packets as u128);
    line.append(middle);
    push_decimal(&mut line, count.bytes as u128);
    line.append(end);
    line
}

/// Why packets were dropped at a node.
pub open spec fn drop_causes(stats: NodeStats) -> Seq<Seq<char>> {
    text_if(
        stats.dropped_on_arrival.packets != 0,
        count_text(
            "      | node was down when the packet arrived ("@,
            stats.dropped_on_arrival,
            " packets, "@,
            " bytes)"@,
        ),
    ) + text_if(
        stats.dropped_buffer_full.packets != 0,
        count_text(
            "      | buffer was full when the packet arrived ("@,
            stats.dropped_buffer_full,
            " packets, "@,
            " bytes)"@,
        ),
    ) + text_if(
        stats.dropped_buffer_cleared.packets != 0,
        count_text(
            "      | buffer got cleared before the packet was sent ("@,
            stats.dropped_buffer_cleared,
            " packets, "@,
            " bytes)"@,
        ),
    ) + text_if(
        stats.dropped_injected.packets != 0,
        count_text(
            "      | randomly dropped ("@,
            stats.dropped_injected,
            " packets, "@,
            " bytes)"@,
        ),
    )
}

/// The lines about packets that a node sent.
pub open spec fn sent_lines(stats: NodeStats) -> Seq<Seq<char>> {
    seq![
        count_text("  * Sent packets: "@, stats.sent, " ("@, " bytes)"@),
        count_text("    | "@, stats.duplicates, " packets duplicated ("@, " bytes)"@),
        count_text(
            "    | "@,
            stats.congestion_experienced,
            " packets marked with the CE ECN codepoint ("@,
            " bytes)"@,
        ),
        count_text(
            "    | "@,
            stats.spec_dropped(),
            " packets dropped ("@,
            if stats.spec_dropped().packets != 0 {
                " bytes). Caused by:"@
            } else {
                " bytes)"@
            },
        ),
    ]
}

/// The lines about packets that a node received.
pub open spec fn received_lines(stats: NodeStats) -> Seq<Seq<char>> {
    seq![
        count_text("  * Received packets: "@, stats.received, " ("@, " bytes)"@),
        count_text(
            "    | "@,
            stats.received_out_of_order,
            " packets received out of order ("@,
            " bytes)"@,
        ),
    ]
}

/// The lines about a node.
pub open spec fn single_node_text(stats: NodeStats) -> Seq<Seq<char>> {
    sent_lines(stats) + (if stats.spec_dropped().packets != 0 {
        drop_causes(stats)
    } else {
        Seq::empty()
    }) + received_lines(stats)
}

fn push_drop_causes(lines: &mut Vec<String>, stats: &NodeStats)
    ensures
        texts(final(lines)@) == texts(old(lines)@) + drop_causes(*stats),
{
    let on_arrival = count_line(
        "      | node was down when the packet arrived (",
        &stats.dropped_on_arrival,
        " packets, ",
        " bytes)",
    );
    push_text_if(lines, stats.dropped_on_arrival.packets != 0, on_arrival.as_str());
    let buffer_full = count_line(
        "      | buffer was full when the packet arrived (",
        &stats.dropped_buffer_full,
        " packets, ",
        " bytes)",
    );
    push_text_if(lines, stats.dropped_buffer_full.packets != 0, buffer_full.as_str());
    let buffer_cleared = count_line(
        "      | buffer got cleared before the packet was sent (",
        &stats.dropped_buffer_cleared,
        " packets, ",
        " bytes)",
    );
    push_text_if(lines, stats.dropped_buffer_cleared.packets != 0, buffer_cleared.as_str());
    let injected = count_line(
        "      | randomly dropped (",
        &stats.dropped_injected,
        " packets, ",
        " bytes)",
    );
    push_text_if(lines, stats.dropped_injected.packets != 0, injected.as_str());
    assert(texts(lines@) =~= texts(old(lines)@) + drop_causes(*stats));
}

fn push_sent_lines(lines: &mut Vec<String>, stats: &NodeStats, dropped: &PacketCount)
    requires
        *dropped == stats.spec_dropped(),
    ensures
        texts(final(lines)@) == texts(old(lines)@) + sent_lines(*stats),
{
    push_line(lines, count_line("  * Sent packets: ", &stats.sent, " (", " bytes)"));
    push_line(
        lines,
        count_line("    | ", &stats.duplicates, " packets duplicated (", " bytes)"),
    );
    push_line(
        lines,
        count_line(
            "    | ",
            &stats.congestion_experienced,
            " packets marked with the CE ECN codepoint (",
            " bytes)",
        ),
    );
    let end = if dropped.packets != 0 {
        " bytes). Caused by:"
    } else {
        " bytes)"
    };
    push_line(lines, count_line("    | ", dropped, " packets dropped (", end));
    assert(texts(lines@) =~= texts(old(lines)@) + sent_lines(*stats));
}

/// Adds the lines about a node.
pub fn push_single_node_stats(lines: &mut Vec<String>, stats: &NodeStats)
    requires
        stats.dropped_in_range(),
    ensures
        texts(final(lines)@) == texts(old(lines)@) + single_node_text(*stats),
{
    let dropped = stats.dropped_injected.join(&stats.dropped_buffer_full).join(
        &stats.dropped_on_arrival,
    ).join(&stats.dropped_buffer_cleared);
    push_sent_lines(lines, stats, &dropped);
    if dropped.packets != 0 {
        push_drop_causes(lines, stats);
    }
    let ghost before = texts(lines@);
    push_line(lines, count_line("  * Received packets: ", &stats.received, " (", " bytes)"));
    push_line(
        lines,
        count_line(
            "    | ",
            &stats.received_out_of_order,
            " packets received out of order (",
            " bytes)",
        ),
    );
    assert(texts(lines@) =~= before + received_lines(*stats));
    assert(texts(lines@) =~= texts(old(lines)@) + single_node_text(*stats));
}

/// A role, and the nodes that have it.
pub struct RoleNodes {
    pub role: String,
    pub node_ids: Vec<String>,
}

/// Roles come in alphabetical order.
impl SortOrder for RoleNodes {
    open spec fn precedes(self, other: Self) -> bool {
        text_le(self.role@, other.role@)
    }

    proof fn total(a: Self, b: Self) {
        String::total(a.role, b.role);
    }

    proof fn transitive(a: Self, b: Self, c: Self) {
        String::transitive(a.role, b.role, c.role);
    }

    fn comes_before(&self, other: &Self) -> (r: bool) {
        self.role.comes_before(&other.role)
    }
}

/// The stats of the node with the given id.
pub open spec fn stats_of(stats: Seq<(String, NodeStats)>, id: Seq<char>) -> NodeStats {
    stats[first_index(stats, has_id(id))->0].1
}

/// The entry is about the node with the given id.
pub open spec fn has_id(id: Seq<char>) -> spec_fn((String, NodeStats)) -> bool {
    |s: (String, NodeStats)| s.0@ == id
}

/// There are stats for the node, and they are in range.
pub open spec fn has_stats(stats: Seq<(String, NodeStats)>, id: Seq<char>) -> bool {
    first_index(stats, has_id(id)) is Some && stats_of(stats, id).dropped_in_range()
}

fn find_stats(stats: &Vec<(String, NodeStats)>, id: &String) -> (r: NodeStats)
    requires
        has_stats(stats@, id@),
    ensures
        r == stats_of(stats@, id@),
{
    let mut i: usize = 0;
    proof {
        lemma_first_index(stats@, has_id(id@));
    }
    while i < stats.len()
        invariant
            i <= stats@.len(),
            first_index(stats@, has_id(id@)) matches Some(k) && i <= k < stats@.len(),
            forall|j: int| 0 <= j < i ==> !has_id(id@)(#[trigger] stats@[j]),
        decreases stats@.len() - i,
    {
        proof {
            lemma_first_index(stats@, has_id(id@));
        }
        if stats[i].0 == *id {
            proof {
                lemma_first_index_is(stats@, has_id(id@), i as int);
            }
            return stats[i].1;
        }
        assert(!has_id(id@)(stats@[i as int]));
        i = i + 1;
    }
    vstd::pervasive::unreached()
}

pub open spec fn node_with_role_text(id: Seq<char>, role: Seq<char>) -> Seq<char> {
    "* "@ + id + " ("@ + role + ")"@
}

/// The lines about nodes that have the role.
pub open spec fn role_text(
    role: Seq<char>,
    ids: Seq<Seq<char>>,
    stats: Seq<(String, NodeStats)>,
) -> Seq<Seq<char>>
    decreases ids.len(),
{
    if ids.len() == 0 {
        Seq::empty()
    } else {
        role_text(role, ids.drop_last(), stats).push(node_with_role_text(ids.last(), role))
            + single_node_text(stats_of(stats, ids.last()))
    }
}

/// The lines about all nodes that have a role.
pub open spec fn roles_text(roles: Seq<RoleNodes>, stats: Seq<(String, NodeStats)>) -> Seq<
    Seq<char>,
>
    decreases roles.len(),
{
    if roles.len() == 0 {
        Seq::empty()
    } else {
        roles_text(roles.drop_last(), stats) + role_text(
            roles.last().role@,
            texts(roles.last().node_ids@),
            stats,
        )
    }
}

/// The node has one of the roles.
pub open spec fn has_role(roles: Seq<RoleNodes>, id: Seq<char>) -> bool {
    exists|i: int| 0 <= i < roles.len() && texts((#[trigger] roles[i]).node_ids@).contains(id)
}

/// The lines about nodes that have no role.
pub open spec fn others_text(
    ids: Seq<Seq<char>>,
    roles: Seq<RoleNodes>,
    stats: Seq<(String, NodeStats)>,
) -> Seq<Seq<char>>
    decreases ids.len(),
{
    if ids.len() == 0 {
        Seq::empty()
    } else if has_role(roles, ids.last()) {
        others_text(ids.drop_last(), roles, stats)
    } else {
        others_text(ids.drop_last(), roles, stats).push("* "@ + ids.last()) + single_node_text(
            stats_of(stats, ids.last()),
        )
    }
}

/// All nodes that are reported have stats: those that have a role, and, if `verbose`, the others.
pub open spec fn all_have_stats(
    node_ids: Seq<String>,
    roles: Seq<RoleNodes>,
    stats: Seq<(String, NodeStats)>,
    verbose: bool,
) -> bool {
    &&& forall|i: int|
        0 <= i < node_ids.len() && verbose && !has_role(roles, (#[trigger] node_ids[i])@)
            ==> has_stats(stats, node_ids[i]@)
    &&& forall|r: int, i: int|
        0 <= r < roles.len() && 0 <= i < roles[r].node_ids@.len() ==> has_stats(
            stats,
            (#[trigger] roles[r].node_ids@[i])@,
        )
}

fn is_among(ids: &Vec<String>, id: &String) -> (r: bool)
    ensures
        r == texts(ids@).contains(id@),
{
    for i in 0..ids.len()
        invariant
            forall|j: int| 0 <= j < i ==> #[trigger] texts(ids@)[j] != id@,
    {
        if ids[i] == *id {
            assert(texts(ids@)[i as int] == id@);
            return true;
        }
    }
    false
}

/// The lines about nodes: those that have a role, role by role, and then, if `verbose`, the others.
pub open spec fn nodes_text(
    node_ids: Seq<Seq<char>>,
    stats: Seq<(String, NodeStats)>,
    roles: Seq<RoleNodes>,
    verbose: bool,
) -> Seq<Seq<char>> {
    roles_text(roles, stats) + if verbose {
        others_text(node_ids, roles, stats)
    } else {
        Seq::empty()
    }
}

proof fn lemma_sorted_have_stats(
    node_ids: Seq<String>,
    roles: Seq<RoleNodes>,
    sorted: Seq<RoleNodes>,
    stats: Seq<(String, NodeStats)>,
    verbose: bool,
)
    requires
        all_have_stats(node_ids, roles, stats, verbose),
        is_stable_sort(roles, sorted),
    ensures
        all_have_stats(node_ids, sorted, stats, verbose),
{
    assert forall|i: int|
        0 <= i < node_ids.len() && verbose && !has_role(
            sorted,
            (#[trigger] node_ids[i])@,
        ) implies has_stats(stats, node_ids[i]@) by {
        if has_role(roles, node_ids[i]@) {
            let k = choose|k: int|
                0 <= k < roles.len() && texts((#[trigger] roles[k]).node_ids@).contains(
                    node_ids[i]@,
                );
            roles.to_multiset_ensures();
            sorted.to_multiset_ensures();
            assert(roles.contains(roles[k]));
            assert(roles.to_multiset().count(roles[k]) > 0);
            assert(sorted.contains(roles[k]));
            let j = choose|j: int| 0 <= j < sorted.len() && sorted[j] == roles[k];
            assert(texts(sorted[j].node_ids@).contains(node_ids[i]@));
        }
    }
    assert forall|r: int, i: int|
        0 <= r < sorted.len() && 0 <= i < sorted[r].node_ids@.len() implies has_stats(
        stats,
        (#[trigger] sorted[r].node_ids@[i])@,
    ) by {
        sorted.to_multiset_ensures();
        roles.to_multiset_ensures();
        assert(sorted.contains(sorted[r]));
        assert(sorted.to_multiset().count(sorted[r]) > 0);
        assert(roles.contains(sorted[r]));
        let k = choose|k: int| 0 <= k < roles.len() && roles[k] == sorted[r];
        assert(has_stats(stats, roles[k].node_ids@[i]@));
    }
}

/// The lines about nodes: those that have a role, role by role, and then, if `verbose`, the others.
/// The roles come in alphabetical order.
pub fn node_stats_lines(
    node_ids: &Vec<String>,
    stats: &Vec<(String, NodeStats)>,
    roles: Vec<RoleNodes>,
    verbose: bool,
) -> (lines: Vec<String>)
    requires
        all_have_stats(node_ids@, roles@, stats@, verbose),
    ensures
        exists|sorted: Seq<RoleNodes>| #[trigger]
            is_stable_sort(roles@, sorted) && texts(lines@) == nodes_text(
                texts(node_ids@),
                stats@,
                sorted,
                verbose,
            ),
{
    let ghost unsorted = roles@;
    let roles = stable_sort(roles);
    proof {
        lemma_sorted_have_stats(node_ids@, unsorted, roles@, stats@, verbose);
    }
    let mut lines: Vec<String> = Vec::new();
    assert(texts(lines@) =~= roles_text(roles@.take(0), stats@));
    for r in 0..roles.len()
        invariant
            all_have_stats(node_ids@, roles@, stats@, verbose),
            texts(lines@) == roles_text(roles@.take(r as int), stats@),
    {
        let role = &roles[r];
        let ghost before = texts(lines@);
        let ghost ids = texts(role.node_ids@);
        assert(before + role_text(role.role@, ids.take(0), stats@) =~= before);
        for i in 0..role.node_ids.len()
            invariant
                r < roles@.len(),
                *role == roles@[r as int],
                all_have_stats(node_ids@, roles@, stats@, verbose),
                ids == texts(role.node_ids@),
                texts(lines@) == before + role_text(role.role@, ids.take(i as int), stats@),
        {
            let id = &role.node_ids[i];
            proof {
                assert(has_stats(stats@, roles@[r as int].node_ids@[i as int]@));
                assert(ids.take(i + 1).drop_last() =~= ids.take(i as int));
                assert(ids.take(i + 1).last() == id@);
            }
            let mut header = "* ".to_owned();
            header.append(id.as_str());
            header.append(" (");
            header.append(role.role.as_str());
            header.append(")");
            push_line(&mut lines, header);
            let node_stats = find_stats(stats, id);
            push_single_node_stats(&mut lines, &node_stats);
            assert(texts(lines@) =~= before + role_text(role.role@, ids.take(i + 1), stats@));
        }
        proof {
            assert(ids.take(role.node_ids@.len() as int) =~= ids);
            assert(roles@.take(r + 1).drop_last() =~= roles@.take(r as int));
        }
    }
    assert(roles@.take(roles@.len() as int) =~= roles@);
    if verbose {
        let ghost before = texts(lines@);
        let ghost ids = texts(node_ids@);
        assert(before + others_text(ids.take(0), roles@, stats@) =~= before);
        for i in 0..node_ids.len()
            invariant
                verbose,
                all_have_stats(node_ids@, roles@, stats@, verbose),
                ids == texts(node_ids@),
                texts(lines@) == before + others_text(ids.take(i as int), roles@, stats@),
        {
            let id = &node_ids[i];
            proof {
                assert(!has_role(roles@, node_ids@[i as int]@) ==> has_stats(stats@, id@));
                assert(ids.take(i + 1).drop_last() =~= ids.take(i as int));
                assert(ids.take(i + 1).last() == id@);
            }
            let mut reported = false;
            for r in 0..roles.len()
                invariant
                    reported == exists|k: int|
                        0 <= k < r && texts((#[trigger] roles@[k]).node_ids@).contains(id@),
            {
                if is_among(&roles[r].node_ids, id) {
                    reported = true;
                    assert(texts(roles@[r as int].node_ids@).contains(id@));
                }
            }
            assert(reported == has_role(roles@, id@));
            if !reported {
                let mut header = "* ".to_owned();
                header.append(id.as_str());
                push_line(&mut lines, header);
                let node_stats = find_stats(stats, id);
                push_single_node_stats(&mut lines, &node_stats);
            }
            assert(texts(lines@) =~= before + others_text(ids.take(i + 1), roles@, stats@));
        }
        assert(ids.take(node_ids@.len() as int) =~= ids);
    }
    assert(texts(lines@) =~= nodes_text(texts(node_ids@), stats@, roles@, verbose));
    lines
}

/// How much of its buffer a node used.
pub struct BufferUsage {
    pub node_id: String,
    pub max_buffer_usage: u64,
    /// The packets that were dropped because the buffer was full
    pub dropped_packets: u64,
}

/// The nodes that used most of their buffers come first; among those that used the same amount, the
/// order is alphabetical.
impl SortOrder for BufferUsage {
    open spec fn precedes(self, other: Self) -> bool {
        self.max_buffer_usage > other.max_buffer_usage || (self.max_buffer_usage
            == other.max_buffer_usage && text_le(self.node_id@, other.node_id@))
    }

    proof fn total(a: Self, b: Self) {
        String::total(a.node_id, b.node_id);
    }

    proof fn transitive(a: Self, b: Self, c: Self) {
        if a.max_buffer_usage == b.max_buffer_usage && b.max_buffer_usage == c.max_buffer_usage {
            String::transitive(a.node_id, b.node_id, c.node_id);
        }
    }

    fn comes_before(&self, other: &Self) -> (r: bool) {
        self.max_buffer_usage > other.max_buffer_usage || (self.max_buffer_usage
            == other.max_buffer_usage && self.node_id.comes_before(&other.node_id))
    }
}

pub open spec fn buffer_usage_text(usage: BufferUsage) -> Seq<char> {
    "* "@ + usage.node_id@ + ": "@ + decimal(usage.max_buffer_usage as nat) + " bytes ("@ + decimal(
        usage.dropped_packets as nat,
    ) + " packets dropped due to buffer being full)"@
}

/// The lines about the nodes' buffers.
pub fn buffer_usage_lines(usages: Vec<BufferUsage>) -> (lines: Vec<String>)
    ensures
        exists|sorted: Seq<BufferUsage>| #[trigger]
            is_stable_sort(usages@, sorted) && texts(lines@) == seq![
                "--- Max buffer usage per node ---"@,
            ] + sorted.map_values(|u: BufferUsage| buffer_usage_text(u)),
{
    let sorted = stable_sort(usages);
    let mut lines: Vec<String> = Vec::new();
    let ghost head = seq!["--- Max buffer usage per node ---"@];
    let ghost f = |u: BufferUsage| buffer_usage_text(u);
    push_line(&mut lines, "--- Max buffer usage per node ---".to_owned());
    assert(texts(lines@) =~= head + sorted@.take(0).map_values(f));
    for i in 0..sorted.len()
        invariant
            f == (|u: BufferUsage| buffer_usage_text(u)),
            texts(lines@) == head + sorted@.take(i as int).map_values(f),
    {
        let usage = &sorted[i];
        let mut line = "* ".to_owned();
        line.append(usage.node_id.as_str());
        line.append(": ");
        push_decimal(&mut line, usage.max_buffer_usage as u128);
        line.append(" bytes (");
        push_decimal(&mut line, usage.dropped_packets as u128);
        line.append(" packets dropped due to buffer being full)");
        push_line(&mut lines, line);
        assert(texts(lines@) =~= head + sorted@.take(i + 1).map_values(f));
    }
    assert(sorted@.take(sorted@.len() as int) =~= sorted@);
    lines
}

/// What happened on a link.
pub struct LinkStats {
    pub link_id: String,
    pub dropped_in_transit: PacketCount,
    pub max_used_bandwidth_bps: u64,
    /// The part of the bandwidth that was used at most, in percent
    pub usage_percent: String,
}

/// Links come in alphabetical order.
impl SortOrder for LinkStats {
    open spec fn precedes(self, other: Self) -> bool {
        text_le(self.link_id@, other.link_id@)
    }

    proof fn total(a: Self, b: Self) {
        String::total(a.link_id, b.link_id);
    }

    proof fn transitive(a: Self, b: Self, c: Self) {
        String::transitive(a.link_id, b.link_id, c.link_id);
    }

    fn comes_before(&self, other: &Self) -> (r: bool) {
        self.link_id.comes_before(&other.link_id)
    }
}

pub open spec fn bandwidth_text(stats: LinkStats) -> Seq<char> {
    "|-> Max used bandwidth (bps): "@ + decimal(stats.max_used_bandwidth_bps as nat) + " ("@
        + stats.usage_percent@ + "% of the link's bandwidth)"@
}

/// The lines about links, one after the other.
pub open spec fn links_text(links: Seq<LinkStats>) -> Seq<Seq<char>>
    decreases links.len(),
{
    if links.len() == 0 {
        Seq::empty()
    } else {
        links_text(links.drop_last()).push("* "@ + links.last().link_id@ + ":"@).push(
            count_text(
                "|-> Lost in transit "@,
                links.last().dropped_in_transit,
                " packets ("@,
                " bytes)"@,
            ),
        ).push(bandwidth_text(links.last()))
    }
}

/// The lines about links.
pub fn link_stats_lines(links: Vec<LinkStats>) -> (lines: Vec<String>)
    ensures
        exists|sorted: Seq<LinkStats>| #[trigger]
            is_stable_sort(links@, sorted) && texts(lines@) == text_if(
                links@.len() > 0,
                "--- Link stats ---"@,
            ) + links_text(sorted),
{
    let mut lines: Vec<String> = Vec::new();
    push_text_if(&mut lines, links.len() > 0, "--- Link stats ---");
    let ghost head = text_if(links@.len() > 0, "--- Link stats ---"@);
    assert(texts(lines@) =~= head);
    let sorted = stable_sort(links);
    assert(head + links_text(sorted@.take(0)) =~= head);
    for i in 0..sorted.len()
        invariant
            texts(lines@) == head + links_text(sorted@.take(i as int)),
    {
        let stats = &sorted[i];
        let ghost before = texts(lines@);
        proof {
            assert(sorted@.take(i + 1).drop_last() =~= sorted@.take(i as int));
            assert(sorted@.take(i + 1).last() == *stats);
        }
        let mut header = "* ".to_owned();
        header.append(stats.link_id.as_str());
        header.append(":");
        push_line(&mut lines, header);
        push_line(
            &mut lines,
            count_line(
                "|-> Lost in transit ",
                &stats.dropped_in_transit,
                " packets (",
                " bytes)",
            ),
        );
        let mut bandwidth = "|-> Max used bandwidth (bps): ".to_owned();
        push_decimal(&mut bandwidth, stats.max_used_bandwidth_bps as u128);
        bandwidth.append(" (");
        bandwidth.append(stats.usage_percent.as_str());
        bandwidth.append("% of the link's bandwidth)");
        push_line(&mut lines, bandwidth);
        assert(texts(lines@) =~= head + links_text(sorted@.take(i + 1)));
    }
    assert(sorted@.take(sorted@.len() as int) =~= sorted@);
    lines
}

/// No more errors than this are shown.
pub const DISPLAY_MAX_ERRORS: usize = 10;

/// The number of errors that are shown.
pub open spec fn shown_errors(count: int) -> int {
    if count < DISPLAY_MAX_ERRORS {
        count
    } else {
        DISPLAY_MAX_ERRORS as int
    }
}

pub open spec fn errors_header(count: int) -> Seq<char> {
    if count > DISPLAY_MAX_ERRORS {
        "--- Internal errors (showing "@ + decimal(DISPLAY_MAX_ERRORS as nat) + " of "@ + decimal(
            count as nat,
        ) + ") ---"@
    } else {
        "--- Internal errors ---"@
    }
}

/// The lines about errors that did not end the simulation.
pub fn error_lines(errors: &Vec<String>) -> (lines: Vec<String>)
    ensures
        texts(lines@) == text_if(errors@.len() > 0, errors_header(errors@.len() as int)) + text_if(
            errors@.len() > 0,
            "(These errors might indicate a bug in the workbench, please report them to the project's maintainers.)"@,
        ) + texts(errors@).take(shown_errors(errors@.len() as int)).map_values(
            |e: Seq<char>| "* "@ + e,
        ),
{
    let mut lines: Vec<String> = Vec::new();
    let count: usize = errors.len();
    let header = if count > DISPLAY_MAX_ERRORS {
        let mut header = "--- Internal errors (showing ".to_owned();
        push_decimal(&mut header, DISPLAY_MAX_ERRORS as u128);
        header.append(" of ");
        push_decimal(&mut header, count as u128);
        header.append(") ---");
        header
    } else {
        "--- Internal errors ---".to_owned()
    };
    push_text_if(&mut lines, count > 0, header.as_str());
    push_text_if(
        &mut lines,
        count > 0,
        "(These errors might indicate a bug in the workbench, please report them to the project's maintainers.)",
    );
    let ghost head = text_if(errors@.len() > 0, errors_header(errors@.len() as int)) + text_if(
        errors@.len() > 0,
        "(These errors might indicate a bug in the workbench, please report them to the project's maintainers.)"@,
    );
    assert(texts(lines@) =~= head);
    let ghost f = |e: Seq<char>| "* "@ + e;
    let shown: usize = if count < DISPLAY_MAX_ERRORS {
        count
    } else {
        DISPLAY_MAX_ERRORS
    };
    assert(texts(lines@) =~= head + texts(errors@).take(0).map_values(f));
    for i in 0..shown
        invariant
            shown <= errors@.len(),
            f == (|e: Seq<char>| "* "@ + e),
            texts(lines@) == head + texts(errors@).take(i as int).map_values(f),
    {
        let mut line = "* ".to_owned();
        line.append(errors[i].as_str());
        push_line(&mut lines, line);
        assert(texts(lines@) =~= head + texts(errors@).take(i + 1).map_values(f));
    }
    lines
}

/// How many of the four conditions hold.
pub open spec fn how_many(a: bool, b: bool, c: bool, d: bool) -> int {
    (if a {
        1int
    } else {
        0
    }) + (if b {
        1int
    } else {
        0
    }) + (if c {
        1int
    } else {
        0
    }) + (if d {
        1int
    } else {
        0
    })
}

/// The report about a node accounts for all packets that were dropped: their number and size are the
/// sums over all four causes, and each cause that occurred is listed, with its own number and size.
pub proof fn law_all_drops_are_reported(stats: NodeStats)
    requires
        stats.dropped_injected.packets + stats.dropped_buffer_full.packets
            + stats.dropped_on_arrival.packets + stats.dropped_buffer_cleared.packets <= u64::MAX,
        stats.dropped_injected.bytes + stats.dropped_buffer_full.bytes
            + stats.dropped_on_arrival.bytes + stats.dropped_buffer_cleared.bytes <= u64::MAX,
    ensures
        ({
            let lines = single_node_text(stats);
            let full = stats.dropped_buffer_full;
            let down = stats.dropped_on_arrival;
            let cleared = stats.dropped_buffer_cleared;
            let random = stats.dropped_injected;
            let packets = full.packets + down.packets + cleared.packets + random.packets;
            let bytes = full.bytes + down.bytes + cleared.bytes + random.bytes;
            &&& lines[3] == "    | "@ + decimal(packets as nat) + " packets dropped ("@ + decimal(
                bytes as nat,
            ) + if packets == 0 {
                " bytes)"@
            } else {
                " bytes). Caused by:"@
            }
            &&& lines.len() == 6 + how_many(
                full.packets != 0,
                down.packets != 0,
                cleared.packets != 0,
                random.packets != 0,
            )
            &&& full.packets != 0 ==> lines.contains(
                "      | buffer was full when the packet arrived ("@ + decimal(full.packets as nat)
                    + " packets, "@ + decimal(full.bytes as nat) + " bytes)"@,
            )
            &&& down.packets != 0 ==> lines.contains(
                "      | node was down when the packet arrived ("@ + decimal(down.packets as nat)
                    + " packets, "@ + decimal(down.bytes as nat) + " bytes)"@,
            )
            &&& cleared.packets != 0 ==> lines.contains(
                "      | buffer got cleared before the packet was sent ("@ + decimal(
                    cleared.packets as nat,
                ) + " packets, "@ + decimal(cleared.bytes as nat) + " bytes)"@,
            )
            &&& random.packets != 0 ==> lines.contains(
                "      | randomly dropped ("@ + decimal(random.packets as nat) + " packets, "@
                    + decimal(random.bytes as nat) + " bytes)"@,
            )
        }),
{
    let lines = single_node_text(stats);
    let full = stats.dropped_buffer_full.packets != 0;
    let down = stats.dropped_on_arrival.packets != 0;
    let cleared = stats.dropped_buffer_cleared.packets != 0;
    let random = stats.dropped_injected.packets != 0;
    if full || down || cleared || random {
        let causes = drop_causes(stats);
        let first = how_many(down, false, false, false);
        let second = how_many(down, full, false, false);
        let third = how_many(down, full, cleared, false);
        assert(lines =~= sent_lines(stats) + causes + received_lines(stats));
        assert(causes.len() == how_many(full, down, cleared, random));
        assert(down ==> lines[4] == causes[0]);
        assert(full ==> lines[4 + first] == causes[first]);
        assert(cleared ==> lines[4 + second] == causes[second]);
        assert(random ==> lines[4 + third] == causes[third]);
    }
}

/// The report about a node tells what was sent, duplicated, marked and received, each with its number
/// and size.
pub proof fn law_traffic_of_a_node_is_reported(stats: NodeStats)
    ensures
        ({
            let lines = single_node_text(stats);
            let n = lines.len() as int;
            &&& n >= 6
            &&& lines[0] == "  * Sent packets: "@ + decimal(stats.sent.packets as nat) + " ("@
                + decimal(stats.sent.bytes as nat) + " bytes)"@
            &&& lines[1] == "    | "@ + decimal(stats.duplicates.packets as nat)
                + " packets duplicated ("@ + decimal(stats.duplicates.bytes as nat) + " bytes)"@
            &&& lines[2] == "    | "@ + decimal(stats.congestion_experienced.packets as nat)
                + " packets marked with the CE ECN codepoint ("@ + decimal(
                stats.congestion_experienced.bytes as nat,
            ) + " bytes)"@
            &&& lines[n - 2] == "  * Received packets: "@ + decimal(stats.received.packets as nat)
                + " ("@ + decimal(stats.received.bytes as nat) + " bytes)"@
            &&& lines[n - 1] == "    | "@ + decimal(stats.received_out_of_order.packets as nat)
                + " packets received out of order ("@ + decimal(
                stats.received_out_of_order.bytes as nat,
            ) + " bytes)"@
        }),
{
}

/// The lines start, at the given place, with a header and the report about a node.
pub open spec fn reports_at(
    lines: Seq<Seq<char>>,
    at: int,
    header: Seq<char>,
    stats: NodeStats,
) -> bool {
    &&& 0 <= at
    &&& at + 1 + single_node_text(stats).len() <= lines.len()
    &&& lines[at] == header
    &&& lines.subrange(at + 1, at + 1 + single_node_text(stats).len() as int)
        == single_node_text(stats)
}

/// The entry is the first one about the node with the given id.
pub open spec fn is_first_entry(stats: Seq<(String, NodeStats)>, k: int, id: Seq<char>) -> bool {
    &&& 0 <= k < stats.len()
    &&& stats[k].0@ == id
    &&& forall|j: int| 0 <= j < k ==> (#[trigger] stats[j]).0@ != id
}

proof fn lemma_first_entry(stats: Seq<(String, NodeStats)>, k: int, id: Seq<char>)
    requires
        is_first_entry(stats, k, id),
    ensures
        stats_of(stats, id) == stats[k].1,
{
    lemma_first_index_is(stats, has_id(id), k);
}

proof fn lemma_still_reports(
    lines: Seq<Seq<char>>,
    all: Seq<Seq<char>>,
    before: int,
    at: int,
    header: Seq<char>,
    stats: NodeStats,
)
    requires
        reports_at(lines, at, header, stats),
        0 <= before,
        all.len() >= before + lines.len(),
        forall|i: int| 0 <= i < lines.len() ==> #[trigger] all[before + i] == lines[i],
    ensures
        reports_at(all, before + at, header, stats),
{
    let n = single_node_text(stats).len() as int;
    assert(all[before + at] == lines[at]);
    let a = all.subrange(before + at + 1, before + at + 1 + n);
    let b = lines.subrange(at + 1, at + 1 + n);
    assert forall|i: int| 0 <= i < n implies a[i] == #[trigger] b[i] by {
        assert(all[before + (at + 1 + i)] == lines[at + 1 + i]);
    }
    assert(a =~= b);
}

proof fn lemma_role_reports(
    role: Seq<char>,
    ids: Seq<Seq<char>>,
    stats: Seq<(String, NodeStats)>,
    i: int,
) -> (at: int)
    requires
        0 <= i < ids.len(),
    ensures
        reports_at(
            role_text(role, ids, stats),
            at,
            node_with_role_text(ids[i], role),
            stats_of(stats, ids[i]),
        ),
    decreases ids.len(),
{
    let front = role_text(role, ids.drop_last(), stats);
    let all = role_text(role, ids, stats);
    let last = stats_of(stats, ids.last());
    if i == ids.len() - 1 {
        let at = front.len() as int;
        assert(all.subrange(at + 1, at + 1 + single_node_text(last).len() as int)
            =~= single_node_text(last));
        at
    } else {
        let at = lemma_role_reports(role, ids.drop_last(), stats, i);
        lemma_still_reports(
            front,
            all,
            0,
            at,
            node_with_role_text(ids[i], role),
            stats_of(stats, ids[i]),
        );
        at
    }
}

proof fn lemma_roles_report(
    roles: Seq<RoleNodes>,
    stats: Seq<(String, NodeStats)>,
    r: int,
    i: int,
) -> (at: int)
    requires
        0 <= r < roles.len(),
        0 <= i < roles[r].node_ids@.len(),
    ensures
        reports_at(
            roles_text(roles, stats),
            at,
            node_with_role_text(roles[r].node_ids@[i]@, roles[r].role@),
            stats_of(stats, roles[r].node_ids@[i]@),
        ),
    decreases roles.len(),
{
    let front = roles_text(roles.drop_last(), stats);
    let all = roles_text(roles, stats);
    let header = node_with_role_text(roles[r].node_ids@[i]@, roles[r].role@);
    let entry = stats_of(stats, roles[r].node_ids@[i]@);
    if r == roles.len() - 1 {
        let ids = texts(roles[r].node_ids@);
        let own = role_text(roles[r].role@, ids, stats);
        let at = lemma_role_reports(roles[r].role@, ids, stats, i);
        assert(all == front + own);
        lemma_still_reports(own, all, front.len() as int, at, header, entry);
        front.len() as int + at
    } else {
        let at = lemma_roles_report(roles.drop_last(), stats, r, i);
        lemma_still_reports(front, all, 0, at, header, entry);
        at
    }
}

proof fn lemma_others_report(
    ids: Seq<Seq<char>>,
    roles: Seq<RoleNodes>,
    stats: Seq<(String, NodeStats)>,
    i: int,
) -> (at: int)
    requires
        0 <= i < ids.len(),
        !has_role(roles, ids[i]),
    ensures
        reports_at(
            others_text(ids, roles, stats),
            at,
            "* "@ + ids[i],
            stats_of(stats, ids[i]),
        ),
    decreases ids.len(),
{
    let front = others_text(ids.drop_last(), roles, stats);
    let all = others_text(ids, roles, stats);
    let last = stats_of(stats, ids.last());
    if i == ids.len() - 1 {
        let at = front.len() as int;
        assert(all.subrange(at + 1, at + 1 + single_node_text(last).len() as int)
            =~= single_node_text(last));
        at
    } else {
        let at = lemma_others_report(ids.drop_last(), roles, stats, i);
        lemma_still_reports(front, all, 0, at, "* "@ + ids[i], stats_of(stats, ids[i]));
        at
    }
}

/// Every node that has a role is reported, under each of its roles, with its own stats.
pub proof fn law_nodes_with_roles_are_reported(
    node_ids: Seq<Seq<char>>,
    stats: Seq<(String, NodeStats)>,
    roles: Seq<RoleNodes>,
    verbose: bool,
    r: int,
    i: int,
    k: int,
)
    requires
        0 <= r < roles.len(),
        0 <= i < roles[r].node_ids@.len(),
        is_first_entry(stats, k, roles[r].node_ids@[i]@),
    ensures
        exists|at: int| #[trigger]
            reports_at(
                nodes_text(node_ids, stats, roles, verbose),
                at,
                "* "@ + roles[r].node_ids@[i]@ + " ("@ + roles[r].role@ + ")"@,
                stats[k].1,
            ),
{
    let id = roles[r].node_ids@[i]@;
    let header = node_with_role_text(id, roles[r].role@);
    let own = roles_text(roles, stats);
    let all = nodes_text(node_ids, stats, roles, verbose);
    lemma_first_entry(stats, k, id);
    let at = lemma_roles_report(roles, stats, r, i);
    lemma_still_reports(own, all, 0, at, header, stats[k].1);
}

/// Every node that has no role is reported if `verbose`, with its own stats.
pub proof fn law_other_nodes_are_reported_if_verbose(
    node_ids: Seq<Seq<char>>,
    stats: Seq<(String, NodeStats)>,
    roles: Seq<RoleNodes>,
    i: int,
    k: int,
)
    requires
        0 <= i < node_ids.len(),
        forall|r: int, j: int|
            0 <= r < roles.len() && 0 <= j < roles[r].node_ids@.len() ==> (
            #[trigger] roles[r].node_ids@[j])@ != node_ids[i],
        is_first_entry(stats, k, node_ids[i]),
    ensures
        exists|at: int| #[trigger]
            reports_at(
                nodes_text(node_ids, stats, roles, true),
                at,
                "* "@ + node_ids[i],
                stats[k].1,
            ),
{
    let own = others_text(node_ids, roles, stats);
    let before = roles_text(roles, stats);
    let all = nodes_text(node_ids, stats, roles, true);
    assert(!has_role(roles, node_ids[i])) by {
        if has_role(roles, node_ids[i]) {
            let r = choose|r: int|
                0 <= r < roles.len() && texts((#[trigger] roles[r]).node_ids@).contains(
                    node_ids[i],
                );
            let ids = texts(roles[r].node_ids@);
            let j = choose|j: int| 0 <= j < ids.len() && ids[j] == node_ids[i];
            assert(roles[r].node_ids@[j]@ == node_ids[i]);
        }
    }
    lemma_first_entry(stats, k, node_ids[i]);
    let at = lemma_others_report(node_ids, roles, stats, i);
    lemma_still_reports(
        own,
        all,
        before.len() as int,
        at,
        "* "@ + node_ids[i],
        stats[k].1,
    );
}

/// Unless `verbose`, only nodes that have a role are reported, and nodes that have one are not reported
/// again otherwise. What is reported about a list of roles is what is reported about each of them.
pub proof fn law_nothing_else_is_reported(
    node_ids: Seq<Seq<char>>,
    stats: Seq<(String, NodeStats)>,
    roles: Seq<RoleNodes>,
)
    requires
        roles.len() > 0,
    ensures
        nodes_text(node_ids, stats, Seq::empty(), false) == Seq::<Seq<char>>::empty(),
        nodes_text(node_ids, stats, roles, false) == nodes_text(
            Seq::empty(),
            stats,
            roles.drop_last(),
            false,
        ) + nodes_text(Seq::empty(), stats, seq![roles.last()], false),
        roles.last().node_ids@.len() == 0 ==> nodes_text(
            Seq::empty(),
            stats,
            seq![roles.last()],
            false,
        ) == Seq::<Seq<char>>::empty(),
        roles.last().node_ids@.len() == 1 ==> nodes_text(
            Seq::empty(),
            stats,
            seq![roles.last()],
            false,
        ).len() == 1 + single_node_text(stats_of(stats, roles.last().node_ids@[0]@)).len(),
        (forall|i: int|
            0 <= i < node_ids.len() ==> exists|r: int, j: int|
                0 <= r < roles.len() && 0 <= j < roles[r].node_ids@.len() && (
                #[trigger] roles[r].node_ids@[j])@ == #[trigger] node_ids[i]) ==> nodes_text(
            node_ids,
            stats,
            roles,
            true,
        ) == nodes_text(node_ids, stats, roles, false),
{
    let last = seq![roles.last()];
    let none = Seq::<Seq<char>>::empty();
    assert(last.drop_last() =~= Seq::empty());
    assert(roles_text(last.drop_last(), stats) =~= none);
    assert(nodes_text(none, stats, last, false) =~= role_text(
        roles.last().role@,
        texts(roles.last().node_ids@),
        stats,
    ));
    assert(nodes_text(node_ids, stats, roles, false) =~= nodes_text(
        none,
        stats,
        roles.drop_last(),
        false,
    ) + nodes_text(none, stats, last, false));
    if roles.last().node_ids@.len() == 1 {
        let ids = texts(roles.last().node_ids@);
        assert(role_text(roles.last().role@, ids.drop_last(), stats) =~= none);
    }
    if forall|i: int|
        0 <= i < node_ids.len() ==> exists|r: int, j: int|
            0 <= r < roles.len() && 0 <= j < roles[r].node_ids@.len() && (
            #[trigger] roles[r].node_ids@[j])@ == #[trigger] node_ids[i] {
        assert forall|i: int| 0 <= i < node_ids.len() implies has_role(
            roles,
            #[trigger] node_ids[i],
        ) by {
            let (r, j) = choose|r: int, j: int|
                0 <= r < roles.len() && 0 <= j < roles[r].node_ids@.len() && (
                #[trigger] roles[r].node_ids@[j])@ == node_ids[i];
            assert(texts(roles[r].node_ids@)[j] == node_ids[i]);
        }
        lemma_no_others(node_ids, roles, stats);
        assert(nodes_text(node_ids, stats, roles, true) =~= nodes_text(
            node_ids,
            stats,
            roles,
            false,
        ));
    }
}

proof fn lemma_no_others(
    ids: Seq<Seq<char>>,
    roles: Seq<RoleNodes>,
    stats: Seq<(String, NodeStats)>,
)
    requires
        forall|i: int| 0 <= i < ids.len() ==> has_role(roles, #[trigger] ids[i]),
    ensures
        others_text(ids, roles, stats) == Seq::<Seq<char>>::empty(),
    decreases ids.len(),
{
    if ids.len() > 0 {
        assert forall|i: int| 0 <= i < ids.drop_last().len() implies has_role(
            roles,
            #[trigger] ids.drop_last()[i],
        ) by {
            assert(has_role(roles, ids[i]));
        }
        lemma_no_others(ids.drop_last(), roles, stats);
        assert(has_role(roles, ids[ids.len() - 1]));
    }
}

/// Nodes that used more of their buffers come first; those that used as much come in alphabetical
/// order. All of them are listed, each with the bytes that it used and the packets that it dropped.
pub proof fn law_buffer_usages_are_listed(
    usages: Seq<BufferUsage>,
    sorted: Seq<BufferUsage>,
    i: int,
    j: int,
)
    requires
        is_stable_sort(usages, sorted),
        0 <= i < j < sorted.len(),
    ensures
        sorted[i].max_buffer_usage >= sorted[j].max_buffer_usage,
        sorted[i].max_buffer_usage == sorted[j].max_buffer_usage ==> text_le(
            sorted[i].node_id@,
            sorted[j].node_id@,
        ),
        sorted.to_multiset() == usages.to_multiset(),
        buffer_usage_text(sorted[i]) == "* "@ + sorted[i].node_id@ + ": "@ + decimal(
            sorted[i].max_buffer_usage as nat,
        ) + " bytes ("@ + decimal(sorted[i].dropped_packets as nat)
            + " packets dropped due to buffer being full)"@,
{
    assert(sorted[i].precedes(sorted[j]));
}

/// Links come in alphabetical order, and all of them are listed. There are three lines about each: its
/// id, what it lost, and how much of its bandwidth was used at most.
pub proof fn law_links_are_listed(links: Seq<LinkStats>, sorted: Seq<LinkStats>, i: int, j: int)
    requires
        is_stable_sort(links, sorted),
        0 <= i < sorted.len(),
        i < j < sorted.len() || j == i,
    ensures
        text_le(sorted[i].link_id@, sorted[j].link_id@),
        sorted.to_multiset() == links.to_multiset(),
        links_text(sorted).len() == 3 * sorted.len(),
        links_text(sorted)[3 * i] == "* "@ + sorted[i].link_id@ + ":"@,
        links_text(sorted)[3 * i + 1] == "|-> Lost in transit "@ + decimal(
            sorted[i].dropped_in_transit.packets as nat,
        ) + " packets ("@ + decimal(sorted[i].dropped_in_transit.bytes as nat) + " bytes)"@,
        links_text(sorted)[3 * i + 2] == "|-> Max used bandwidth (bps): "@ + decimal(
            sorted[i].max_used_bandwidth_bps as nat,
        ) + " ("@ + sorted[i].usage_percent@ + "% of the link's bandwidth)"@,
{
    if i < j {
        assert(sorted[i].precedes(sorted[j]));
    } else {
        LinkStats::total(sorted[i], sorted[i]);
    }
    lemma_links_text(sorted, i);
}

proof fn lemma_links_text(links: Seq<LinkStats>, i: int)
    requires
        0 <= i < links.len(),
    ensures
        links_text(links).len() == 3 * links.len(),
        links_text(links)[3 * i] == "* "@ + links[i].link_id@ + ":"@,
        links_text(links)[3 * i + 1] == count_text(
            "|-> Lost in transit "@,
            links[i].dropped_in_transit,
            " packets ("@,
            " bytes)"@,
        ),
        links_text(links)[3 * i + 2] == bandwidth_text(links[i]),
    decreases links.len(),
{
    let front = links.drop_last();
    if front.len() == 0 {
        assert(links_text(front) =~= Seq::empty());
    } else {
        lemma_links_text(front, 0);
    }
    if i < front.len() {
        lemma_links_text(front, i);
    }
}

/// Roles come in alphabetical order, and none of them is left out.
pub proof fn law_roles_come_in_order(roles: Seq<RoleNodes>, sorted: Seq<RoleNodes>, i: int, j: int)
    requires
        is_stable_sort(roles, sorted),
        0 <= i < j < sorted.len(),
    ensures
        text_le(sorted[i].role@, sorted[j].role@),
        sorted.to_multiset() == roles.to_multiset(),
{
    assert(sorted[i].precedes(sorted[j]));
}

/// Up to ten errors are all shown. Of more, the first ten are shown, and the header says how many there
/// are.
pub proof fn law_ten_errors_are_shown(count: int)
    requires
        0 <= count,
    ensures
        count <= 10 ==> shown_errors(count) == count && errors_header(count)
            == "--- Internal errors ---"@,
        count > 10 ==> shown_errors(count) == 10 && errors_header(count)
            == "--- Internal errors (showing "@ + decimal(10) + " of "@ + decimal(count as nat)
            + ") ---"@,
{
}

} // verus!
