//! Events that change the status of links and nodes while the simulation runs.

use crate::network::spec::{NetworkLinkSpec, NetworkNodeSpec};
use crate::random::Ratio;
use crate::sorting::{is_stable_sort, stable_sort, SortOrder};
use crate::time::Nanos;
use vstd::prelude::*;

verus! {

/// The events of a simulation, and the statuses that links and nodes have before the first one.
pub struct NetworkEvents {
    pub sorted_events: Vec<NetworkEvent>,
    pub initial_link_events: Vec<LinkEventPayload>,
    pub initial_node_events: Vec<NodeEventPayload>,
}

pub struct NetworkEvent {
    /// When the event happens, counted from the start of the simulation
    pub relative_time: Nanos,
    pub kind: NetworkEventKind,
}

pub enum NetworkEventKind {
    Link(LinkEventPayload),
    Node(NodeEventPayload),
}

pub struct NodeEventPayload {
    pub node_id: String,
    pub status: Option<UpdateNodeStatus>,
    pub clear_buffer: bool,
}

pub struct LinkEventPayload {
    pub link_id: String,
    pub status: Option<UpdateLinkStatus>,
    pub bandwidth_bps: Option<u64>,
    pub delay: Option<Nanos>,
    pub extra_delay: Option<Nanos>,
    pub extra_delay_ratio: Option<Ratio>,
    pub packet_duplication_ratio: Option<Ratio>,
    pub packet_loss_ratio: Option<Ratio>,
    pub congestion_event_ratio: Option<Ratio>,
}

#[derive(Clone, Copy, PartialEq, Eq, Structural, Debug)]
pub enum UpdateNodeStatus {
    Up,
    Down,
}

#[derive(Clone, Copy, PartialEq, Eq, Structural, Debug)]
pub enum UpdateLinkStatus {
    Up,
    Down,
}

impl Clone for NodeEventPayload {
    fn clone(&self) -> (r: Self)
        ensures
            r == *self,
    {
        NodeEventPayload {
            node_id: self.node_id.clone(),
            status: self.status,
            clear_buffer: self.clear_buffer,
        }
    }
}

impl Clone for LinkEventPayload {
    fn clone(&self) -> (r: Self)
        ensures
            r == *self,
    {
        LinkEventPayload {
            link_id: self.link_id.clone(),
            status: self.status,
            bandwidth_bps: self.bandwidth_bps,
            delay: self.delay,
            extra_delay: self.extra_delay,
            extra_delay_ratio: self.extra_delay_ratio,
            packet_duplication_ratio: self.packet_duplication_ratio,
            packet_loss_ratio: self.packet_loss_ratio,
            congestion_event_ratio: self.congestion_event_ratio,
        }
    }
}

impl Clone for NetworkEventKind {
    fn clone(&self) -> (r: Self)
        ensures
            r == *self,
    {
        match self {
            NetworkEventKind::Link(payload) => NetworkEventKind::Link(payload.clone()),
            NetworkEventKind::Node(payload) => NetworkEventKind::Node(payload.clone()),
        }
    }
}

impl Clone for NetworkEvent {
    fn clone(&self) -> (r: Self)
        ensures
            r == *self,
    {
        NetworkEvent { relative_time: self.relative_time, kind: self.kind.clone() }
    }
}

/// Earlier events come first.
impl SortOrder for NetworkEvent {
    open spec fn precedes(self, other: Self) -> bool {
        self.relative_time <= other.relative_time
    }

    proof fn total(a: Self, b: Self) {
    }

    proof fn transitive(a: Self, b: Self, c: Self) {
    }

    fn comes_before(&self, other: &Self) -> (r: bool) {
        self.relative_time <= other.relative_time
    }
}

impl UpdateLinkStatus {
    pub open spec fn spec_opposite(self) -> UpdateLinkStatus {
        match self {
            UpdateLinkStatus::Up => UpdateLinkStatus::Down,
            UpdateLinkStatus::Down => UpdateLinkStatus::Up,
        }
    }

    fn opposite(self) -> (r: UpdateLinkStatus)
        ensures
            r == self.spec_opposite(),
    {
        match self {
            UpdateLinkStatus::Up => UpdateLinkStatus::Down,
            UpdateLinkStatus::Down => UpdateLinkStatus::Up,
        }
    }
}

impl UpdateNodeStatus {
    pub open spec fn spec_opposite(self) -> UpdateNodeStatus {
        match self {
            UpdateNodeStatus::Up => UpdateNodeStatus::Down,
            UpdateNodeStatus::Down => UpdateNodeStatus::Up,
        }
    }

    fn opposite(self) -> (r: UpdateNodeStatus)
        ensures
            r == self.spec_opposite(),
    {
        match self {
            UpdateNodeStatus::Up => UpdateNodeStatus::Down,
            UpdateNodeStatus::Down => UpdateNodeStatus::Up,
        }
    }
}

/// The event that gives a link a status and changes nothing else.
pub open spec fn link_status_event(link_id: String, status: UpdateLinkStatus) -> LinkEventPayload {
    LinkEventPayload {
        link_id,
        status: Some(status),
        bandwidth_bps: None,
        delay: None,
        extra_delay: None,
        extra_delay_ratio: None,
        packet_duplication_ratio: None,
        packet_loss_ratio: None,
        congestion_event_ratio: None,
    }
}

/// The event that gives a node a status and changes nothing else.
pub open spec fn node_status_event(node_id: String, status: UpdateNodeStatus) -> NodeEventPayload {
    NodeEventPayload { node_id, status: Some(status), clear_buffer: false }
}

/// One of the link events is about the link with the given id.
pub open spec fn mentions_link(events: Seq<LinkEventPayload>, id: Seq<char>) -> bool {
    exists|i: int| 0 <= i < events.len() && #[trigger] events[i].link_id@ == id
}

/// One of the node events is about the node with the given id.
pub open spec fn mentions_node(events: Seq<NodeEventPayload>, id: Seq<char>) -> bool {
    exists|i: int| 0 <= i < events.len() && #[trigger] events[i].node_id@ == id
}

/// The statuses of links before `events` happen: a link had the opposite of the status that its
/// first status event gives it.
pub open spec fn statuses_before_link_events(events: Seq<NetworkEvent>) -> Seq<LinkEventPayload>
    decreases events.len(),
{
    if events.len() == 0 {
        Seq::empty()
    } else {
        let before = statuses_before_link_events(events.drop_last());
        match events.last().kind {
            NetworkEventKind::Link(payload) => match payload.status {
                Some(status) if !mentions_link(before, payload.link_id@) => before.push(
                    link_status_event(payload.link_id, status.spec_opposite()),
                ),
                _ => before,
            },
            NetworkEventKind::Node(_) => before,
        }
    }
}

/// The statuses of nodes before `events` happen: a node had the opposite of the status that its
/// first status event gives it.
pub open spec fn statuses_before_node_events(events: Seq<NetworkEvent>) -> Seq<NodeEventPayload>
    decreases events.len(),
{
    if events.len() == 0 {
        Seq::empty()
    } else {
        let before = statuses_before_node_events(events.drop_last());
        match events.last().kind {
            NetworkEventKind::Node(payload) => match payload.status {
                Some(status) if !mentions_node(before, payload.node_id@) => before.push(
                    node_status_event(payload.node_id, status.spec_opposite()),
                ),
                _ => before,
            },
            NetworkEventKind::Link(_) => before,
        }
    }
}

/// The events that set the initial status of all links: those with status events first, in the
/// order of their first event, then the others, which are up.
pub open spec fn initial_link_events_spec(
    sorted_events: Seq<NetworkEvent>,
    links: Seq<NetworkLinkSpec>,
) -> Seq<LinkEventPayload> {
    let before = statuses_before_link_events(sorted_events);
    before + links.filter(|l: NetworkLinkSpec| !mentions_link(before, l.id@)).map_values(
        |l: NetworkLinkSpec| link_status_event(l.id, UpdateLinkStatus::Up),
    )
}

/// The events that set the initial status of all nodes: those with status events first, in the
/// order of their first event, then the others, which are up.
pub open spec fn initial_node_events_spec(
    sorted_events: Seq<NetworkEvent>,
    nodes: Seq<NetworkNodeSpec>,
) -> Seq<NodeEventPayload> {
    let before = statuses_before_node_events(sorted_events);
    before + nodes.filter(|n: NetworkNodeSpec| !mentions_node(before, n.id@)).map_values(
        |n: NetworkNodeSpec| node_status_event(n.id, UpdateNodeStatus::Up),
    )
}

impl NetworkEvents {
    /// Sorts the events by time (events at the same time stay in order) and derives the initial
    /// statuses of links and nodes from them.
    pub fn new(
        events: Vec<NetworkEvent>,
        nodes: &Vec<NetworkNodeSpec>,
        links: &Vec<NetworkLinkSpec>,
    ) -> (r: Self)
        ensures
            is_stable_sort(events@, r.sorted_events@),
            r.initial_link_events@ == initial_link_events_spec(r.sorted_events@, links@),
            r.initial_node_events@ == initial_node_events_spec(r.sorted_events@, nodes@),
    {
        let sorted_events: Vec<NetworkEvent> = stable_sort(events);
        let initial_link_events = get_initial_status_for_links_with_events(&sorted_events, links);
        let initial_node_events = get_initial_status_for_nodes_with_events(&sorted_events, nodes);
        NetworkEvents { sorted_events, initial_link_events, initial_node_events }
    }
}

fn has_link_event(events: &Vec<LinkEventPayload>, count: usize, id: &String) -> (r: bool)
    requires
        count <= events@.len(),
    ensures
        r == mentions_link(events@.take(count as int), id@),
{
    let mut i: usize = 0;
    while i < count
        invariant
            i <= count <= events@.len(),
            forall|j: int| 0 <= j < i ==> #[trigger] events@[j].link_id@ != id@,
        decreases count - i,
    {
        if events[i].link_id == *id {
            assert(events@.take(count as int)[i as int].link_id@ == id@);
            return true;
        }
        i = i + 1;
    }
    assert forall|j: int| 0 <= j < count implies #[trigger] events@.take(count as int)[j].link_id@
        != id@ by {
        assert(events@[j].link_id@ != id@);
    }
    false
}

fn has_node_event(events: &Vec<NodeEventPayload>, count: usize, id: &String) -> (r: bool)
    requires
        count <= events@.len(),
    ensures
        r == mentions_node(events@.take(count as int), id@),
{
    let mut i: usize = 0;
    while i < count
        invariant
            i <= count <= events@.len(),
            forall|j: int| 0 <= j < i ==> #[trigger] events@[j].node_id@ != id@,
        decreases count - i,
    {
        if events[i].node_id == *id {
            assert(events@.take(count as int)[i as int].node_id@ == id@);
            return true;
        }
        i = i + 1;
    }
    assert forall|j: int| 0 <= j < count implies #[trigger] events@.take(count as int)[j].node_id@
        != id@ by {
        assert(events@[j].node_id@ != id@);
    }
    false
}

/// The events that set the initial status of all links.
pub fn get_initial_status_for_links_with_events(
    sorted_events: &Vec<NetworkEvent>,
    links: &Vec<NetworkLinkSpec>,
) -> (initial_events: Vec<LinkEventPayload>)
    ensures
        initial_events@ == initial_link_events_spec(sorted_events@, links@),
{
    let mut initial_events: Vec<LinkEventPayload> = Vec::new();
    for i in 0..sorted_events.len()
        invariant
            initial_events@ == statuses_before_link_events(sorted_events@.take(i as int)),
    {
        if let NetworkEventKind::Link(payload) = &sorted_events[i].kind {
            if let Some(updated_status) = payload.status {
                // Only the first event of each link matters
                let count: usize = initial_events.len();
                assert(initial_events@.take(count as int) =~= initial_events@);
                if !has_link_event(&initial_events, count, &payload.link_id) {
                    initial_events.push(
                        LinkEventPayload {
                            link_id: payload.link_id.clone(),
                            status: Some(updated_status.opposite()),
                            bandwidth_bps: None,
                            delay: None,
                            extra_delay: None,
                            extra_delay_ratio: None,
                            packet_duplication_ratio: None,
                            packet_loss_ratio: None,
                            congestion_event_ratio: None,
                        },
                    );
                }
            }
        }
        assert(sorted_events@.take(i + 1).drop_last() =~= sorted_events@.take(i as int));
        assert(sorted_events@.take(i + 1).last() == sorted_events@[i as int]);
    }
    assert(sorted_events@.take(sorted_events@.len() as int) =~= sorted_events@);

    // Links that have no events at all are always up
    let count: usize = initial_events.len();
    let ghost before = initial_events@;
    let ghost silent = |l: NetworkLinkSpec| !mentions_link(before, l.id@);
    let ghost up = |l: NetworkLinkSpec| link_status_event(l.id, UpdateLinkStatus::Up);
    assert(links@.take(0).filter(silent).map_values(up) =~= Seq::empty());
    for i in 0..links.len()
        invariant
            count == before.len(),
            silent == (|l: NetworkLinkSpec| !mentions_link(before, l.id@)),
            up == (|l: NetworkLinkSpec| link_status_event(l.id, UpdateLinkStatus::Up)),
            initial_events@ == before + links@.take(i as int).filter(silent).map_values(up),
    {
        proof {
            assert(initial_events@.take(count as int) =~= before);
            assert(links@.take(i as int).push(links@[i as int]) =~= links@.take(i + 1));
            links@.take(i as int).lemma_filter_push(links@[i as int], silent);
            links@.take(i as int).filter(silent).lemma_push_map_commute(up, links@[i as int]);
        }
        if !has_link_event(&initial_events, count, &links[i].id) {
            initial_events.push(
                LinkEventPayload {
                    link_id: links[i].id.clone(),
                    status: Some(UpdateLinkStatus::Up),
                    bandwidth_bps: None,
                    delay: None,
                    extra_delay: None,
                    extra_delay_ratio: None,
                    packet_duplication_ratio: None,
                    packet_loss_ratio: None,
                    congestion_event_ratio: None,
                },
            );
        }
        assert(initial_events@ =~= before + links@.take(i + 1).filter(silent).map_values(up));
    }
    assert(links@.take(links@.len() as int) =~= links@);
    initial_events
}

/// The events that set the initial status of all nodes.
pub fn get_initial_status_for_nodes_with_events(
    sorted_events: &Vec<NetworkEvent>,
    nodes: &Vec<NetworkNodeSpec>,
) -> (initial_events: Vec<NodeEventPayload>)
    ensures
        initial_events@ == initial_node_events_spec(sorted_events@, nodes@),
{
    let mut initial_events: Vec<NodeEventPayload> = Vec::new();
    for i in 0..sorted_events.len()
        invariant
            initial_events@ == statuses_before_node_events(sorted_events@.take(i as int)),
    {
        if let NetworkEventKind::Node(payload) = &sorted_events[i].kind {
            if let Some(updated_status) = payload.status {
                // Only the first event of each node matters
                let count: usize = initial_events.len();
                assert(initial_events@.take(count as int) =~= initial_events@);
                if !has_node_event(&initial_events, count, &payload.node_id) {
                    initial_events.push(
                        NodeEventPayload {
                            node_id: payload.node_id.clone(),
                            status: Some(updated_status.opposite()),
                            clear_buffer: false,
                        },
                    );
                }
            }
        }
        assert(sorted_events@.take(i + 1).drop_last() =~= sorted_events@.take(i as int));
        assert(sorted_events@.take(i + 1).last() == sorted_events@[i as int]);
    }
    assert(sorted_events@.take(sorted_events@.len() as int) =~= sorted_events@);

    // Nodes that have no events at all are always up
    let count: usize = initial_events.len();
    let ghost before = initial_events@;
    let ghost silent = |n: NetworkNodeSpec| !mentions_node(before, n.id@);
    let ghost up = |n: NetworkNodeSpec| node_status_event(n.id, UpdateNodeStatus::Up);
    assert(nodes@.take(0).filter(silent).map_values(up) =~= Seq::empty());
    for i in 0..nodes.len()
        invariant
            count == before.len(),
            silent == (|n: NetworkNodeSpec| !mentions_node(before, n.id@)),
            up == (|n: NetworkNodeSpec| node_status_event(n.id, UpdateNodeStatus::Up)),
            initial_events@ == before + nodes@.take(i as int).filter(silent).map_values(up),
    {
        proof {
            assert(initial_events@.take(count as int) =~= before);
            assert(nodes@.take(i as int).push(nodes@[i as int]) =~= nodes@.take(i + 1));
            nodes@.take(i as int).lemma_filter_push(nodes@[i as int], silent);
            nodes@.take(i as int).filter(silent).lemma_push_map_commute(up, nodes@[i as int]);
        }
        if !has_node_event(&initial_events, count, &nodes[i].id) {
            initial_events.push(
                NodeEventPayload {
                    node_id: nodes[i].id.clone(),
                    status: Some(UpdateNodeStatus::Up),
                    clear_buffer: false,
                },
            );
        }
        assert(initial_events@ =~= before + nodes@.take(i + 1).filter(silent).map_values(up));
    }
    assert(nodes@.take(nodes@.len() as int) =~= nodes@);
    initial_events
}

/// `status` is what the first status event of the link with the given id sets.
pub open spec fn is_first_link_status(
    events: Seq<NetworkEvent>,
    index: int,
    id: Seq<char>,
    status: UpdateLinkStatus,
) -> bool {
    &&& 0 <= index < events.len()
    &&& sets_link_status(events[index], id, status)
    &&& forall|i: int, s: UpdateLinkStatus|
        0 <= i < index ==> !#[trigger] sets_link_status(events[i], id, s)
}

pub open spec fn sets_link_status(
    event: NetworkEvent,
    id: Seq<char>,
    status: UpdateLinkStatus,
) -> bool {
    event.kind matches NetworkEventKind::Link(payload) && payload.link_id@ == id && payload.status
        == Some(status)
}

/// The first status event of a link always changes its status: before it, the link has the opposite
/// status.
pub proof fn law_first_link_event_changes_the_status(
    events: Seq<NetworkEvent>,
    links: Seq<NetworkLinkSpec>,
    index: int,
    id: Seq<char>,
    status: UpdateLinkStatus,
)
    requires
        is_first_link_status(events, index, id, status),
    ensures
        exists|i: int|
            0 <= i < initial_link_events_spec(events, links).len()
                && #[trigger] initial_link_events_spec(events, links)[i].link_id@ == id
                && initial_link_events_spec(events, links)[i].status == Some(
                status.spec_opposite(),
            ),
        forall|i: int|
            0 <= i < initial_link_events_spec(events, links).len()
                && #[trigger] initial_link_events_spec(events, links)[i].link_id@ == id
                ==> initial_link_events_spec(events, links)[i].status == Some(
                status.spec_opposite(),
            ),
{
    let before = statuses_before_link_events(events);
    lemma_first_link_status(events, index, id, status);
    let k = choose|i: int| 0 <= i < before.len() && #[trigger] before[i].link_id@ == id;
    assert(initial_link_events_spec(events, links)[k] == before[k]);
    assert forall|i: int|
        0 <= i < initial_link_events_spec(events, links).len()
            && #[trigger] initial_link_events_spec(events, links)[i].link_id@
            == id implies initial_link_events_spec(events, links)[i].status == Some(
        status.spec_opposite(),
    ) by {
        if i < before.len() {
            assert(initial_link_events_spec(events, links)[i] == before[i]);
        } else {
            let silent = |l: NetworkLinkSpec| !mentions_link(before, l.id@);
            links.lemma_filter_pred(silent, i - before.len());
        }
    }
}

proof fn lemma_first_link_status(
    events: Seq<NetworkEvent>,
    index: int,
    id: Seq<char>,
    status: UpdateLinkStatus,
)
    requires
        is_first_link_status(events, index, id, status),
    ensures
        mentions_link(statuses_before_link_events(events), id),
        forall|i: int|
            0 <= i < statuses_before_link_events(events).len()
                && #[trigger] statuses_before_link_events(events)[i].link_id@ == id
                ==> statuses_before_link_events(events)[i].status == Some(status.spec_opposite()),
    decreases events.len(),
{
    let before = statuses_before_link_events(events.drop_last());
    let after = statuses_before_link_events(events);
    if index == events.len() - 1 {
        assert forall|i: int, s: UpdateLinkStatus| 0 <= i < events.drop_last().len() implies !(
        #[trigger] sets_link_status(events.drop_last()[i], id, s)) by {
            assert(!sets_link_status(events[i], id, s));
        }
        lemma_silent_link(events.drop_last(), id);
        assert(after.last().link_id@ == id);
    } else {
        assert forall|i: int, s: UpdateLinkStatus| 0 <= i < index implies !(
        #[trigger] sets_link_status(events.drop_last()[i], id, s)) by {
            assert(!sets_link_status(events[i], id, s));
        }
        lemma_first_link_status(events.drop_last(), index, id, status);
        let k = choose|i: int| 0 <= i < before.len() && #[trigger] before[i].link_id@ == id;
        assert(after[k] == before[k]);
        assert forall|i: int|
            0 <= i < after.len() && #[trigger] after[i].link_id@ == id implies after[i].status
            == Some(status.spec_opposite()) by {
            if i < before.len() {
                assert(after[i] == before[i]);
            }
        }
    }
}

proof fn lemma_silent_link(events: Seq<NetworkEvent>, id: Seq<char>)
    requires
        forall|i: int, s: UpdateLinkStatus|
            0 <= i < events.len() ==> !#[trigger] sets_link_status(events[i], id, s),
    ensures
        !mentions_link(statuses_before_link_events(events), id),
    decreases events.len(),
{
    if events.len() > 0 {
        assert forall|i: int, s: UpdateLinkStatus| 0 <= i < events.drop_last().len() implies !(
        #[trigger] sets_link_status(events.drop_last()[i], id, s)) by {
            assert(!sets_link_status(events[i], id, s));
        }
        lemma_silent_link(events.drop_last(), id);
        let last = events.len() - 1;
        assert(!sets_link_status(events[last], id, UpdateLinkStatus::Up));
        assert(!sets_link_status(events[last], id, UpdateLinkStatus::Down));
    }
}

/// A link without status events is up from the start.
pub proof fn law_link_without_events_is_up(
    events: Seq<NetworkEvent>,
    links: Seq<NetworkLinkSpec>,
    link: int,
)
    requires
        0 <= link < links.len(),
        forall|i: int, s: UpdateLinkStatus|
            0 <= i < events.len() ==> !#[trigger] sets_link_status(events[i], links[link].id@, s),
    ensures
        initial_link_events_spec(events, links).contains(
            link_status_event(links[link].id, UpdateLinkStatus::Up),
        ),
        forall|i: int|
            0 <= i < initial_link_events_spec(events, links).len()
                && #[trigger] initial_link_events_spec(events, links)[i].link_id@
                == links[link].id@ ==> initial_link_events_spec(events, links)[i].status == Some(
                UpdateLinkStatus::Up,
            ),
{
    let before = statuses_before_link_events(events);
    let silent = |l: NetworkLinkSpec| !mentions_link(before, l.id@);
    lemma_silent_link(events, links[link].id@);
    links.lemma_filter_contains(silent, link);
    let rest = links.filter(silent);
    let k = choose|k: int| 0 <= k < rest.len() && rest[k] == links[link];
    assert(initial_link_events_spec(events, links)[before.len() + k] == link_status_event(
        links[link].id,
        UpdateLinkStatus::Up,
    ));
    assert forall|i: int|
        0 <= i < initial_link_events_spec(events, links).len()
            && #[trigger] initial_link_events_spec(events, links)[i].link_id@
            == links[link].id@ implies initial_link_events_spec(events, links)[i].status == Some(
        UpdateLinkStatus::Up,
    ) by {
        if i < before.len() {
            assert(before[i].link_id@ == links[link].id@);
        }
    }
}

/// `status` is what the first status event of the node with the given id sets.
pub open spec fn is_first_node_status(
    events: Seq<NetworkEvent>,
    index: int,
    id: Seq<char>,
    status: UpdateNodeStatus,
) -> bool {
    &&& 0 <= index < events.len()
    &&& sets_node_status(events[index], id, status)
    &&& forall|i: int, s: UpdateNodeStatus|
        0 <= i < index ==> !#[trigger] sets_node_status(events[i], id, s)
}

pub open spec fn sets_node_status(
    event: NetworkEvent,
    id: Seq<char>,
    status: UpdateNodeStatus,
) -> bool {
    event.kind matches NetworkEventKind::Node(payload) && payload.node_id@ == id && payload.status
        == Some(status)
}

/// The first status event of a node always changes its status: before it, the node has the opposite
/// status.
pub proof fn law_first_node_event_changes_the_status(
    events: Seq<NetworkEvent>,
    nodes: Seq<NetworkNodeSpec>,
    index: int,
    id: Seq<char>,
    status: UpdateNodeStatus,
)
    requires
        is_first_node_status(events, index, id, status),
    ensures
        exists|i: int|
            0 <= i < initial_node_events_spec(events, nodes).len()
                && #[trigger] initial_node_events_spec(events, nodes)[i].node_id@ == id
                && initial_node_events_spec(events, nodes)[i].status == Some(
                status.spec_opposite(),
            ),
        forall|i: int|
            0 <= i < initial_node_events_spec(events, nodes).len()
                && #[trigger] initial_node_events_spec(events, nodes)[i].node_id@ == id
                ==> initial_node_events_spec(events, nodes)[i].status == Some(
                status.spec_opposite(),
            ),
{
    let before = statuses_before_node_events(events);
    lemma_first_node_status(events, index, id, status);
    let k = choose|i: int| 0 <= i < before.len() && #[trigger] before[i].node_id@ == id;
    assert(initial_node_events_spec(events, nodes)[k] == before[k]);
    assert forall|i: int|
        0 <= i < initial_node_events_spec(events, nodes).len()
            && #[trigger] initial_node_events_spec(events, nodes)[i].node_id@
            == id implies initial_node_events_spec(events, nodes)[i].status == Some(
        status.spec_opposite(),
    ) by {
        if i < before.len() {
            assert(initial_node_events_spec(events, nodes)[i] == before[i]);
        } else {
            let silent = |n: NetworkNodeSpec| !mentions_node(before, n.id@);
            nodes.lemma_filter_pred(silent, i - before.len());
        }
    }
}

proof fn lemma_first_node_status(
    events: Seq<NetworkEvent>,
    index: int,
    id: Seq<char>,
    status: UpdateNodeStatus,
)
    requires
        is_first_node_status(events, index, id, status),
    ensures
        mentions_node(statuses_before_node_events(events), id),
        forall|i: int|
            0 <= i < statuses_before_node_events(events).len()
                && #[trigger] statuses_before_node_events(events)[i].node_id@ == id
                ==> statuses_before_node_events(events)[i].status == Some(status.spec_opposite()),
    decreases events.len(),
{
    let before = statuses_before_node_events(events.drop_last());
    let after = statuses_before_node_events(events);
    if index == events.len() - 1 {
        assert forall|i: int, s: UpdateNodeStatus| 0 <= i < events.drop_last().len() implies !(
        #[trigger] sets_node_status(events.drop_last()[i], id, s)) by {
            assert(!sets_node_status(events[i], id, s));
        }
        lemma_silent_node(events.drop_last(), id);
        assert(after.last().node_id@ == id);
    } else {
        assert forall|i: int, s: UpdateNodeStatus| 0 <= i < index implies !(
        #[trigger] sets_node_status(events.drop_last()[i], id, s)) by {
            assert(!sets_node_status(events[i], id, s));
        }
        lemma_first_node_status(events.drop_last(), index, id, status);
        let k = choose|i: int| 0 <= i < before.len() && #[trigger] before[i].node_id@ == id;
        assert(after[k] == before[k]);
        assert forall|i: int|
            0 <= i < after.len() && #[trigger] after[i].node_id@ == id implies after[i].status
            == Some(status.spec_opposite()) by {
            if i < before.len() {
                assert(after[i] == before[i]);
            }
        }
    }
}

proof fn lemma_silent_node(events: Seq<NetworkEvent>, id: Seq<char>)
    requires
        forall|i: int, s: UpdateNodeStatus|
            0 <= i < events.len() ==> !#[trigger] sets_node_status(events[i], id, s),
    ensures
        !mentions_node(statuses_before_node_events(events), id),
    decreases events.len(),
{
    if events.len() > 0 {
        assert forall|i: int, s: UpdateNodeStatus| 0 <= i < events.drop_last().len() implies !(
        #[trigger] sets_node_status(events.drop_last()[i], id, s)) by {
            assert(!sets_node_status(events[i], id, s));
        }
        lemma_silent_node(events.drop_last(), id);
        let last = events.len() - 1;
        assert(!sets_node_status(events[last], id, UpdateNodeStatus::Up));
        assert(!sets_node_status(events[last], id, UpdateNodeStatus::Down));
    }
}

/// A node without status events is up from the start.
pub proof fn law_node_without_events_is_up(
    events: Seq<NetworkEvent>,
    nodes: Seq<NetworkNodeSpec>,
    node: int,
)
    requires
        0 <= node < nodes.len(),
        forall|i: int, s: UpdateNodeStatus|
            0 <= i < events.len() ==> !#[trigger] sets_node_status(events[i], nodes[node].id@, s),
    ensures
        initial_node_events_spec(events, nodes).contains(
            node_status_event(nodes[node].id, UpdateNodeStatus::Up),
        ),
        forall|i: int|
            0 <= i < initial_node_events_spec(events, nodes).len()
                && #[trigger] initial_node_events_spec(events, nodes)[i].node_id@
                == nodes[node].id@ ==> initial_node_events_spec(events, nodes)[i].status == Some(
                UpdateNodeStatus::Up,
            ),
{
    let before = statuses_before_node_events(events);
    let silent = |n: NetworkNodeSpec| !mentions_node(before, n.id@);
    lemma_silent_node(events, nodes[node].id@);
    nodes.lemma_filter_contains(silent, node);
    let rest = nodes.filter(silent);
    let k = choose|k: int| 0 <= k < rest.len() && rest[k] == nodes[node];
    assert(initial_node_events_spec(events, nodes)[before.len() + k] == node_status_event(
        nodes[node].id,
        UpdateNodeStatus::Up,
    ));
    assert forall|i: int|
        0 <= i < initial_node_events_spec(events, nodes).len()
            && #[trigger] initial_node_events_spec(events, nodes)[i].node_id@
            == nodes[node].id@ implies initial_node_events_spec(events, nodes)[i].status == Some(
        UpdateNodeStatus::Up,
    ) by {
        if i < before.len() {
            assert(before[i].node_id@ == nodes[node].id@);
        }
    }
}

} // verus!
