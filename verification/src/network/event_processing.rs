//! How network events take effect.

use crate::network::accounting::packet_accounted_for;
use crate::network::event::{LinkEventPayload, NetworkEventKind, NodeEventPayload};
use crate::network::forwarding::{lemma_links_keep_wf, lemma_same_packets_keep_wf};
use crate::network::node::NodeView;
use crate::network::{link_with_id, node_with_id, InMemoryNetwork, NetworkView};
use crate::search::lemma_first_index;
use crate::text::{push_text_if, text_if, texts};
use crate::time::Nanos;
use vstd::prelude::*;

verus! {

/// The warnings about changes that a link event asks for, but that cannot be made.
pub open spec fn unsupported_changes(event: LinkEventPayload) -> Seq<Seq<char>> {
    text_if(
        event.bandwidth_bps is Some,
        "WARN: changing the bandwidth in events is currently unsupported"@,
    ) + text_if(
        event.delay is Some,
        "WARN: changing the delay in events is currently unsupported"@,
    ) + text_if(
        event.extra_delay is Some,
        "WARN: changing the extra delay in events is currently unsupported"@,
    ) + text_if(
        event.extra_delay_ratio is Some,
        "WARN: changing the extra delay ratio in events is currently unsupported"@,
    ) + text_if(
        event.packet_duplication_ratio is Some,
        "WARN: changing the packet duplication ratio in events is currently unsupported"@,
    ) + text_if(
        event.packet_loss_ratio is Some,
        "WARN: changing the packet loss ratio in events is currently unsupported"@,
    ) + text_if(
        event.congestion_event_ratio is Some,
        "WARN: changing the congestion event ratio in events is currently unsupported"@,
    )
}

pub open spec fn unknown_node_text(id: Seq<char>) -> Seq<char> {
    "WARN: skipping received event for node that doesn't exist ("@ + id + ")"@
}

pub open spec fn unknown_link_text(id: Seq<char>) -> Seq<char> {
    "WARN: skipping received event for link that doesn't exist ("@ + id + ")"@
}

impl NetworkView {
    /// A node event takes effect at `now`. Events for unknown nodes are skipped.
    pub open spec fn node_event_processed(
        self,
        event: NodeEventPayload,
        now: Nanos,
    ) -> NetworkView {
        match node_with_id(self.nodes, event.node_id@) {
            None => NetworkView {
                messages: self.messages.push(unknown_node_text(event.node_id@)),
                ..self
            },
            Some(i) => {
                let updated = match event.status {
                    Some(status) => self.nodes[i].updated_status(status),
                    None => self.nodes[i],
                };
                let cleared = if event.clear_buffer {
                    NodeView { last_buffer_clear: Some(now), ..updated }
                } else {
                    updated
                };
                NetworkView {
                    nodes: self.nodes.update(i, cleared),
                    tracer: self.tracer.node_event(now, event),
                    ..self
                }
            },
        }
    }

    /// A link event takes effect at `now`. Events for unknown links are skipped; of the changes that
    /// an event asks for, only that of the status is made.
    pub open spec fn link_event_processed(
        self,
        event: LinkEventPayload,
        now: Nanos,
    ) -> NetworkView {
        let warned = NetworkView { messages: self.messages + unsupported_changes(event), ..self };
        match link_with_id(self.links, event.link_id@) {
            None => NetworkView {
                messages: warned.messages.push(unknown_link_text(event.link_id@)),
                ..warned
            },
            Some(i) => NetworkView {
                links: match event.status {
                    Some(status) => self.links.update(
                        i,
                        self.links[i].updated_status(status, now),
                    ),
                    None => self.links,
                },
                tracer: self.tracer.link_event(now, event),
                ..warned
            },
        }
    }

    pub open spec fn event_processed(self, event: NetworkEventKind, now: Nanos) -> NetworkView {
        match event {
            NetworkEventKind::Link(link) => self.link_event_processed(link, now),
            NetworkEventKind::Node(node) => self.node_event_processed(node, now),
        }
    }

    /// Link events take effect one after the other.
    pub open spec fn link_events_processed(
        self,
        events: Seq<LinkEventPayload>,
        now: Nanos,
    ) -> NetworkView
        decreases events.len(),
    {
        if events.len() == 0 {
            self
        } else {
            self.link_events_processed(events.drop_last(), now).link_event_processed(
                events.last(),
                now,
            )
        }
    }

    /// Node events take effect one after the other.
    pub open spec fn node_events_processed(
        self,
        events: Seq<NodeEventPayload>,
        now: Nanos,
    ) -> NetworkView
        decreases events.len(),
    {
        if events.len() == 0 {
            self
        } else {
            self.node_events_processed(events.drop_last(), now).node_event_processed(
                events.last(),
                now,
            )
        }
    }
}

/// The warnings about changes that a link event asks for, but that cannot be made.
pub fn unsupported_change_warnings(event: &LinkEventPayload) -> (r: Vec<String>)
    ensures
        texts(r@) == unsupported_changes(*event),
{
    let mut lines: Vec<String> = Vec::new();
    push_text_if(
        &mut lines,
        event.bandwidth_bps.is_some(),
        "WARN: changing the bandwidth in events is currently unsupported",
    );
    assert(texts(lines@) =~= text_if(
        event.bandwidth_bps is Some,
        "WARN: changing the bandwidth in events is currently unsupported"@,
    ));
    push_text_if(
        &mut lines,
        event.delay.is_some(),
        "WARN: changing the delay in events is currently unsupported",
    );
    push_text_if(
        &mut lines,
        event.extra_delay.is_some(),
        "WARN: changing the extra delay in events is currently unsupported",
    );
    push_text_if(
        &mut lines,
        event.extra_delay_ratio.is_some(),
        "WARN: changing the extra delay ratio in events is currently unsupported",
    );
    push_text_if(
        &mut lines,
        event.packet_duplication_ratio.is_some(),
        "WARN: changing the packet duplication ratio in events is currently unsupported",
    );
    push_text_if(
        &mut lines,
        event.packet_loss_ratio.is_some(),
        "WARN: changing the packet loss ratio in events is currently unsupported",
    );
    push_text_if(
        &mut lines,
        event.congestion_event_ratio.is_some(),
        "WARN: changing the congestion event ratio in events is currently unsupported",
    );
    lines
}

impl InMemoryNetwork {
    fn add_message(&mut self, message: String)
        ensures
            final(self)@ == (NetworkView {
                messages: old(self)@.messages.push(message@),
                ..old(self)@
            }),
            old(self).wf() ==> final(self).wf(),
    {
        self.messages.push(message);
        assert(self@.messages =~= old(self)@.messages.push(message@));
        assert(self@ =~= NetworkView {
            messages: old(self)@.messages.push(message@),
            ..old(self)@
        });
    }

    /// Hands out the messages that are still to be shown.
    pub fn take_messages(&mut self) -> (r: Vec<String>)
        ensures
            texts(r@) == old(self)@.messages,
            final(self)@ == (NetworkView { messages: Seq::empty(), ..old(self)@ }),
            old(self).wf() ==> final(self).wf(),
    {
        let mut messages: Vec<String> = Vec::new();
        std::mem::swap(&mut messages, &mut self.messages);
        assert(self@ =~= NetworkView { messages: Seq::empty(), ..old(self)@ });
        messages
    }

    /// Lets a node event take effect at `now`. The result says whether a node came up.
    pub fn process_node_event(&mut self, event: NodeEventPayload, now: Nanos) -> (came_up: bool)
        requires
            old(self).wf(),
        ensures
            final(self).wf(),
            final(self)@ == old(self)@.node_event_processed(event, now),
            came_up == (node_with_id(old(self)@.nodes, event.node_id@) matches Some(i)
                && old(self)@.nodes[i].status == crate::network::node::NodeStatus::Down
                && event.status == Some(crate::network::event::UpdateNodeStatus::Up)),
    {
        let ghost before = self@;
        let found = self.node_by_id(&event.node_id);
        proof {
            lemma_first_index(before.nodes, |n: NodeView| n.id@ == event.node_id@);
        }
        match found {
            None => {
                let mut text =
                    "WARN: skipping received event for node that doesn't exist (".to_owned();
                text.append(event.node_id.as_str());
                text.append(")");
                self.add_message(text);
                false
            },
            Some(i) => {
                assert(before.nodes[i as int] == self.nodes@[i as int]@);
                let mut came_up = false;
                if let Some(status) = event.status {
                    came_up = self.nodes[i].update_status(status);
                }
                if event.clear_buffer {
                    self.nodes[i].clear_buffer(now);
                }
                self.tracer.track_node_event(now, event);
                proof {
                    let after = before.node_event_processed(event, now);
                    assert(self@.nodes =~= after.nodes);
                    assert(self@ =~= after);
                    lemma_same_packets_keep_wf(before, after, i as int);
                }
                came_up
            },
        }
    }

    fn add_unsupported_change_messages(&mut self, event: &LinkEventPayload)
        ensures
            final(self)@ == (NetworkView {
                messages: old(self)@.messages + unsupported_changes(*event),
                ..old(self)@
            }),
            old(self).wf() ==> final(self).wf(),
    {
        let mut warnings = unsupported_change_warnings(event);
        self.messages.append(&mut warnings);
        assert(self@.messages =~= old(self)@.messages + unsupported_changes(*event));
        assert(self@ =~= NetworkView {
            messages: old(self)@.messages + unsupported_changes(*event),
            ..old(self)@
        });
    }

    /// Lets a link event take effect at `now`. The result says whether a link came up.
    pub fn process_link_event(&mut self, event: LinkEventPayload, now: Nanos) -> (came_up: bool)
        requires
            old(self).wf(),
        ensures
            final(self).wf(),
            final(self)@ == old(self)@.link_event_processed(event, now),
            came_up == (link_with_id(old(self)@.links, event.link_id@) matches Some(i)
                && old(self)@.links[i].status == crate::network::link::LinkStatus::Down
                && event.status == Some(crate::network::event::UpdateLinkStatus::Up)),
    {
        let ghost before = self@;
        self.add_unsupported_change_messages(&event);
        proof {
            lemma_first_index(
                before.links,
                |l: crate::network::link::LinkView| l.id@ == event.link_id@,
            );
        }
        let found = self.link_by_id(&event.link_id);
        match found {
            None => {
                let mut text =
                    "WARN: skipping received event for link that doesn't exist (".to_owned();
                text.append(event.link_id.as_str());
                text.append(")");
                self.add_message(text);
                false
            },
            Some(i) => {
                assert(before.links[i as int] == self.links@[i as int]@);
                let mut came_up = false;
                if let Some(status) = event.status {
                    came_up = self.links[i].update_status(status, now);
                }
                self.tracer.track_link_event(now, event);
                proof {
                    let after = before.link_event_processed(event, now);
                    assert(self@.links =~= after.links);
                    assert(self@ =~= after);
                    assert(after.links =~= before.links.update(i as int, after.links[i as int]));
                    assert forall|l: int, k: int|
                        0 <= l < after.links.len() && 0 <= k
                            < after.links[l].outgoing.len() implies packet_accounted_for(
                        after.tickets,
                        after.links[l].outgoing[k].src_node as int,
                        #[trigger] after.links[l].outgoing[k].data,
                        after.links[l].outgoing[k].ticket,
                    ) by {
                        assert(before.links[l].outgoing[k].data
                            == after.links[l].outgoing[k].data);
                    }
                    lemma_links_keep_wf(before, after, i as int);
                }
                came_up
            },
        }
    }

    /// Lets a network event take effect at `now`. The result says whether a node or a link came up.
    pub fn process_event(&mut self, event: NetworkEventKind, now: Nanos) -> (came_up: bool)
        requires
            old(self).wf(),
        ensures
            final(self).wf(),
            final(self)@ == old(self)@.event_processed(event, now),
            event matches NetworkEventKind::Link(link) ==> came_up == (link_with_id(
                old(self)@.links,
                link.link_id@,
            ) matches Some(i) && old(self)@.links[i].status
                == crate::network::link::LinkStatus::Down && link.status == Some(
                crate::network::event::UpdateLinkStatus::Up,
            )),
            event matches NetworkEventKind::Node(node) ==> came_up == (node_with_id(
                old(self)@.nodes,
                node.node_id@,
            ) matches Some(i) && old(self)@.nodes[i].status
                == crate::network::node::NodeStatus::Down && node.status == Some(
                crate::network::event::UpdateNodeStatus::Up,
            )),
    {
        match event {
            NetworkEventKind::Link(link) => self.process_link_event(link, now),
            NetworkEventKind::Node(node) => self.process_node_event(node, now),
        }
    }
}

} // verus!
