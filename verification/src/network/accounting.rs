//! Which packets take up space in the nodes' outbound buffers.

use crate::transmit::PacketView;
use vstd::prelude::*;

verus! {

/// How a reservation ended.
#[derive(Clone, Copy, PartialEq, Eq, Structural, Debug)]
pub enum TicketState {
    /// The packet is waiting
    Waiting,
    /// A link sent the packet; its space was given back
    Sent,
    /// The packet was dropped because the buffer was cleared; its space stays in use
    Cleared,
}

/// A reservation of space in a node's outbound buffer, made for one packet.
#[derive(Clone, Copy, PartialEq, Eq, Structural, Debug)]
pub struct Ticket {
    pub node: usize,
    pub size: usize,
    pub state: TicketState,
}

/// The space that a reservation takes up in the buffer of the given node.
pub open spec fn space(ticket: Ticket, node: int) -> nat {
    if ticket.node == node && ticket.state != TicketState::Sent {
        ticket.size as nat
    } else {
        0
    }
}

/// The space that all reservations take up in the buffer of the given node.
pub open spec fn reserved(tickets: Seq<Ticket>, node: int) -> nat
    decreases tickets.len(),
{
    if tickets.len() == 0 {
        0
    } else {
        reserved(tickets.drop_last(), node) + space(tickets.last(), node)
    }
}

/// The packet belongs to the reservation with the given number.
pub open spec fn packet_accounted_for(
    tickets: Seq<Ticket>,
    node: int,
    data: PacketView,
    ticket: usize,
) -> bool {
    &&& ticket < tickets.len()
    &&& tickets[ticket as int].node == node
    &&& tickets[ticket as int].size == data.size()
}

pub proof fn lemma_reserved_push(tickets: Seq<Ticket>, ticket: Ticket, node: int)
    ensures
        reserved(tickets.push(ticket), node) == reserved(tickets, node) + space(ticket, node),
{
    assert(tickets.push(ticket).drop_last() =~= tickets);
}

pub proof fn lemma_reserved_update(tickets: Seq<Ticket>, i: int, ticket: Ticket, node: int)
    requires
        0 <= i < tickets.len(),
    ensures
        reserved(tickets.update(i, ticket), node) == reserved(tickets, node) - space(
            tickets[i],
            node,
        ) + space(ticket, node),
        space(tickets[i], node) <= reserved(tickets, node),
    decreases tickets.len(),
{
    let front = tickets.drop_last();
    if i == tickets.len() - 1 {
        assert(tickets.update(i, ticket).drop_last() =~= front);
    } else {
        lemma_reserved_update(front, i, ticket, node);
        assert(tickets.update(i, ticket).drop_last() =~= front.update(i, ticket));
    }
}

} // verus!
