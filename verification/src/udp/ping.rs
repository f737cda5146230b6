//! A client sends pings, and a server echoes them.

use crate::time::{elapsed, elapsed_spec, Nanos};
use std::collections::HashMap;
use vstd::bytes::{
    lemma_auto_spec_u64_to_from_le_bytes, spec_u64_from_le_bytes, spec_u64_to_le_bytes,
    u64_from_le_bytes, u64_to_le_bytes,
};
use vstd::prelude::*;

verus! {

/// The pings of a client.
pub struct PingTracker {
    /// The pings that neither were replied to nor are lost, with the time at which they were sent
    pub in_flight: HashMap<u64, Nanos>,
    pub lost: Vec<u64>,
    /// The number of the next ping
    pub next: u64,
}

impl PingTracker {
    /// Pings are numbered in the order in which they are sent, and a ping that is lost is neither in
    /// flight nor lost a second time.
    pub open spec fn wf(self) -> bool {
        &&& forall|nr: u64| #[trigger] self.in_flight@.contains_key(nr) ==> nr < self.next
        &&& forall|i: int|
            0 <= i < self.lost@.len() ==> (#[trigger] self.lost@[i]) < self.next
                && !self.in_flight@.contains_key(self.lost@[i])
        &&& self.lost@.no_duplicates()
    }

    pub fn new() -> (r: Self)
        ensures
            r.wf(),
            r.in_flight@ == Map::<u64, Nanos>::empty(),
            r.lost@ == Seq::<u64>::empty(),
            r.next == 0,
    {
        PingTracker { in_flight: HashMap::new(), lost: Vec::new(), next: 0 }
    }

    /// The next ping, sent at `now`: its number and its payload.
    pub fn send(&mut self, now: Nanos) -> (r: (u64, Vec<u8>))
        requires
            old(self).wf(),
            old(self).next < u64::MAX,
        ensures
            final(self).wf(),
            r.0 == old(self).next,
            r.1@ == spec_u64_to_le_bytes(r.0),
            final(self).in_flight@ == old(self).in_flight@.insert(r.0, now),
            final(self).lost == old(self).lost,
            final(self).next == r.0 + 1,
    {
        broadcast use vstd::std_specs::hash::group_hash_axioms;

        let ping_nr: u64 = self.next;
        let payload = u64_to_le_bytes(ping_nr);
        self.in_flight.insert(ping_nr, now);
        self.next = ping_nr + 1;
        (ping_nr, payload)
    }

    /// The deadline of a ping passes: unless there was a reply, the ping is lost. The result says
    /// when a lost ping was sent.
    pub fn deadline_passed(&mut self, ping_nr: u64) -> (sent: Option<Nanos>)
        requires
            old(self).wf(),
        ensures
            final(self).wf(),
            final(self).next == old(self).next,
            final(self).in_flight@ == old(self).in_flight@.remove(ping_nr),
            match sent {
                Some(t) => old(self).in_flight@.contains_pair(ping_nr, t) && final(self).lost@
                    == old(self).lost@.push(ping_nr),
                None => !old(self).in_flight@.contains_key(ping_nr) && final(self).lost == old(
                    self,
                ).lost,
            },
    {
        broadcast use vstd::std_specs::hash::group_hash_axioms;

        let sent = self.in_flight.remove(&ping_nr);
        if sent.is_some() {
            self.lost.push(ping_nr);
        }
        sent
    }

    /// A reply arrives. The result gives the number of the ping and says when it was sent, unless
    /// the ping is lost already.
    pub fn reply_received(&mut self, payload: &[u8]) -> (r: (u64, Option<Nanos>))
        requires
            old(self).wf(),
            payload@.len() == 8,
        ensures
            final(self).wf(),
            final(self).lost == old(self).lost,
            final(self).next == old(self).next,
            r.0 == spec_u64_from_le_bytes(payload@),
            final(self).in_flight@ == old(self).in_flight@.remove(r.0),
            match r.1 {
                Some(t) => old(self).in_flight@.contains_pair(r.0, t),
                None => !old(self).in_flight@.contains_key(r.0),
            },
    {
        broadcast use vstd::std_specs::hash::group_hash_axioms;

        let ping_nr: u64 = u64_from_le_bytes(payload);
        let sent = self.in_flight.remove(&ping_nr);
        (ping_nr, sent)
    }
}

/// A ping ends at most once: once it was replied to or is lost, it is no longer in flight, and no
/// other ping that is sent puts it back.
pub proof fn law_ping_ends_once(tracker: PingTracker, ping_nr: u64, now: Nanos)
    requires
        tracker.wf(),
        ping_nr < tracker.next,
    ensures
        !tracker.in_flight@.remove(ping_nr).contains_key(ping_nr),
        !tracker.in_flight@.contains_key(ping_nr) ==> !tracker.in_flight@.insert(
            tracker.next,
            now,
        ).contains_key(ping_nr),
{
}

/// A server that echoes a ping's payload lets the client know which ping was replied to.
pub proof fn law_payload_identifies_ping(ping_nr: u64)
    ensures
        spec_u64_to_le_bytes(ping_nr).len() == 8,
        spec_u64_from_le_bytes(spec_u64_to_le_bytes(ping_nr)) == ping_nr,
{
    lemma_auto_spec_u64_to_from_le_bytes();
}

/// Whether pings are still to be sent at `now`, if they are sent for the given duration.
pub fn keeps_sending(start: Nanos, duration: Nanos, now: Nanos) -> (r: bool)
    ensures
        r == (elapsed_spec(start, now) < duration),
        start <= now ==> (r <==> now < start + duration),
{
    elapsed(start, now) < duration
}

} // verus!
