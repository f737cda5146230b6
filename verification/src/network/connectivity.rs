//! A check that packets get through from one node to another.

use crate::network::ip::SocketAddr;
use crate::network::InMemoryNetwork;
use crate::quinn_interop::outgoing_transmit;
use crate::search::first_of;
use crate::time::Nanos;
use crate::tracing::simulation_step::SimulationStep;
use crate::tracing::simulation_stepper::arrival_of;
use crate::transmit::{OwnedTransmit, PacketId, TransmitView, DEFAULT_TTL};
use vstd::prelude::*;

verus! {

/// How often a packet is sent each way; in case of packet loss one of them should still get through.
pub const CONNECTIVITY_ATTEMPTS: u32 = 100;

/// How long to wait after each attempt.
pub const CONNECTIVITY_ATTEMPT_INTERVAL: Nanos = 60_000_000_000;

/// How long to wait for the packets to arrive: 90 days.
pub const CONNECTIVITY_TIMEOUT: Nanos = 7_776_000_000_000_000;

/// The packet that is sent to check the connectivity.
pub fn connectivity_transmit(source: SocketAddr, destination: SocketAddr) -> (r: OwnedTransmit)
    ensures
        r@ == (TransmitView {
            source,
            destination,
            ecn: None,
            contents: seq![42u8],
            segment_size: None,
            ttl: DEFAULT_TTL,
        }),
{
    let mut contents: Vec<u8> = Vec::new();
    contents.push(42);
    assert(contents@ =~= seq![42u8]);
    outgoing_transmit(source, destination, None, contents.as_slice(), None)
}

/// What a connectivity check between two nodes, A and B, does next.
#[derive(Clone, Copy, PartialEq, Eq, Structural, Debug)]
pub enum CheckAction {
    /// Send a packet from A to B, and one from B to A
    SendBothWays,
    Sleep { duration: Nanos },
    /// Wait for a packet at B, but not forever
    ReceiveAtB { timeout: Nanos },
    /// Wait for a packet at A, but not forever
    ReceiveAtA { timeout: Nanos },
    /// Report the result
    Report,
}

#[derive(Clone, Copy, PartialEq, Eq, Structural, Debug)]
pub enum CheckStage {
    /// The next attempt is due, if one is left
    Ready,
    /// An attempt was just made
    Sent,
    ReceivingAtB,
    ReceivingAtA,
    Over,
}

/// A connectivity check between two nodes, A and B.
#[derive(Clone, Copy, PartialEq, Eq, Structural, Debug)]
pub struct ConnectivityCheck {
    pub stage: CheckStage,
    /// The number of attempts that were made
    pub attempts: u32,
    /// The packet that arrived at B, if one did
    pub a_to_b: Option<PacketId>,
    /// The packet that arrived at A, if one did
    pub b_to_a: Option<PacketId>,
}

/// How a check goes on, and what it does next. `received` is the packet that arrived, if the check
/// waited for one.
pub open spec fn check_step(check: ConnectivityCheck, received: Option<PacketId>) -> (
    ConnectivityCheck,
    CheckAction,
) {
    match check.stage {
        CheckStage::Ready => if check.attempts < CONNECTIVITY_ATTEMPTS {
            (
                ConnectivityCheck {
                    stage: CheckStage::Sent,
                    attempts: (check.attempts + 1) as u32,
                    ..check
                },
                CheckAction::SendBothWays,
            )
        } else {
            (
                ConnectivityCheck { stage: CheckStage::ReceivingAtB, ..check },
                CheckAction::ReceiveAtB { timeout: CONNECTIVITY_TIMEOUT },
            )
        },
        CheckStage::Sent => (
            ConnectivityCheck { stage: CheckStage::Ready, ..check },
            CheckAction::Sleep { duration: CONNECTIVITY_ATTEMPT_INTERVAL },
        ),
        CheckStage::ReceivingAtB => (
            ConnectivityCheck { stage: CheckStage::ReceivingAtA, a_to_b: received, ..check },
            CheckAction::ReceiveAtA { timeout: CONNECTIVITY_TIMEOUT },
        ),
        CheckStage::ReceivingAtA => (
            ConnectivityCheck { stage: CheckStage::Over, b_to_a: received, ..check },
            CheckAction::Report,
        ),
        CheckStage::Over => (check, CheckAction::Report),
    }
}

impl ConnectivityCheck {
    pub open spec fn started() -> Self {
        ConnectivityCheck { stage: CheckStage::Ready, attempts: 0, a_to_b: None, b_to_a: None }
    }

    /// Nothing is received before all attempts were made.
    pub open spec fn wf(self) -> bool {
        &&& self.attempts <= CONNECTIVITY_ATTEMPTS
        &&& match self.stage {
            CheckStage::Ready => true,
            CheckStage::Sent => self.attempts > 0,
            _ => self.attempts == CONNECTIVITY_ATTEMPTS,
        }
    }

    /// The number of steps until the check is over.
    pub open spec fn steps_left(self) -> int {
        let attempts_left = CONNECTIVITY_ATTEMPTS - self.attempts;
        match self.stage {
            CheckStage::Ready => 2 * attempts_left + 3,
            CheckStage::Sent => 2 * attempts_left + 4,
            CheckStage::ReceivingAtB => 2,
            CheckStage::ReceivingAtA => 1,
            CheckStage::Over => 0,
        }
    }

    pub fn new() -> (r: Self)
        ensures
            r == Self::started(),
            r.wf(),
    {
        ConnectivityCheck { stage: CheckStage::Ready, attempts: 0, a_to_b: None, b_to_a: None }
    }

    /// Says what the check does next. `received` is the packet that arrived, if the check waited for
    /// one.
    pub fn next(&mut self, received: Option<PacketId>) -> (action: CheckAction)
        requires
            old(self).wf(),
        ensures
            final(self).wf(),
            (*final(self), action) == check_step(*old(self), received),
    {
        match self.stage {
            CheckStage::Ready => if self.attempts < CONNECTIVITY_ATTEMPTS {
                self.attempts = self.attempts + 1;
                self.stage = CheckStage::Sent;
                CheckAction::SendBothWays
            } else {
                self.stage = CheckStage::ReceivingAtB;
                CheckAction::ReceiveAtB { timeout: CONNECTIVITY_TIMEOUT }
            },
            CheckStage::Sent => {
                self.stage = CheckStage::Ready;
                CheckAction::Sleep { duration: CONNECTIVITY_ATTEMPT_INTERVAL }
            },
            CheckStage::ReceivingAtB => {
                self.a_to_b = received;
                self.stage = CheckStage::ReceivingAtA;
                CheckAction::ReceiveAtA { timeout: CONNECTIVITY_TIMEOUT }
            },
            CheckStage::ReceivingAtA => {
                self.b_to_a = received;
                self.stage = CheckStage::Over;
                CheckAction::Report
            },
            CheckStage::Over => CheckAction::Report,
        }
    }
}

/// A check comes to an end, and only after a packet was sent each way as often as planned.
pub proof fn law_check_ends(check: ConnectivityCheck, received: Option<PacketId>)
    requires
        check.wf(),
    ensures
        ({
            let (next, action) = check_step(check, received);
            &&& next.wf()
            &&& check.stage != CheckStage::Over ==> next.steps_left() == check.steps_left() - 1
            &&& next.attempts == check.attempts + if action == CheckAction::SendBothWays {
                1int
            } else {
                0
            }
            &&& action == CheckAction::Report ==> next.stage == CheckStage::Over && next.attempts
                == CONNECTIVITY_ATTEMPTS
        }),
        check.steps_left() >= 0,
        check.steps_left() == 0 ==> check.stage == CheckStage::Over,
{
}

pub open spec fn outcome_text(succeeded: bool) -> Seq<char> {
    if succeeded {
        "succeeded"@
    } else {
        "failed"@
    }
}

pub open spec fn connectivity_failure_text(a_to_b: bool, b_to_a: bool) -> Seq<char> {
    "failed to deliver packets between the nodes after 90 days (A to B "@ + outcome_text(a_to_b)
        + ", B to A "@ + outcome_text(b_to_a) + ")"@
}

fn outcome(succeeded: bool) -> (r: &'static str)
    ensures
        r@ == outcome_text(succeeded),
{
    if succeeded {
        "succeeded"
    } else {
        "failed"
    }
}

/// When the packet first reached the node.
pub open spec fn arrival(steps: Seq<SimulationStep>, id: PacketId, node_id: Seq<char>) -> Option<
    Nanos,
> {
    first_of(steps.filter_map(|s: SimulationStep| arrival_of(s, id, node_id)))
}

impl InMemoryNetwork {
    /// The result of a connectivity check, given the first packet that arrived each way: when those
    /// packets arrived.
    pub fn connectivity_result(
        &self,
        a_to_b: Option<PacketId>,
        b_to_a: Option<PacketId>,
        node_a: &String,
        node_b: &String,
    ) -> (r: Result<(Nanos, Nanos), String>)
        requires
            a_to_b matches Some(id) ==> arrival(self@.tracer.steps, id, node_b@) is Some,
            b_to_a matches Some(id) ==> arrival(self@.tracer.steps, id, node_a@) is Some,
        ensures
            match r {
                Ok((at_b, at_a)) => a_to_b matches Some(ab) && b_to_a matches Some(ba) && Some(at_b)
                    == arrival(self@.tracer.steps, ab, node_b@) && Some(at_a) == arrival(
                    self@.tracer.steps,
                    ba,
                    node_a@,
                ),
                Err(text) => (a_to_b is None || b_to_a is None) && text@
                    == connectivity_failure_text(a_to_b is Some, b_to_a is Some),
            },
    {
        let stepper = self.tracer.stepper();
        match (a_to_b, b_to_a) {
            (Some(ab), Some(ba)) => {
                let at_b = stepper.get_packet_arrived_at(ab, node_b);
                let at_a = stepper.get_packet_arrived_at(ba, node_a);
                Ok((at_b.unwrap(), at_a.unwrap()))
            },
            _ => {
                let mut text =
                    "failed to deliver packets between the nodes after 90 days (A to B ".to_owned();
                text.append(outcome(a_to_b.is_some()));
                text.append(", B to A ");
                text.append(outcome(b_to_a.is_some()));
                text.append(")");
                Err(text)
            },
        }
    }
}

/// A check from its start: where it is, and what it did so far. The k-th entry of `received` is the
/// packet that had arrived when the check was asked for the k-th time.
pub open spec fn check_history(received: Seq<Option<PacketId>>) -> (
    ConnectivityCheck,
    Seq<CheckAction>,
)
    decreases received.len(),
{
    if received.len() == 0 {
        (ConnectivityCheck::started(), Seq::empty())
    } else {
        let (check, actions) = check_history(received.drop_last());
        let (next, action) = check_step(check, received.last());
        (next, actions.push(action))
    }
}

/// A check sends packets both ways a hundred times, sleeps for a minute after each time, then waits
/// up to 90 days at B and up to 90 days at A, and then reports which packets arrived.
pub proof fn law_checks_try_a_hundred_times(received: Seq<Option<PacketId>>)
    ensures
        ({
            let (check, actions) = check_history(received);
            let n = received.len() as int;
            &&& actions.len() == n
            &&& forall|k: int|
                0 <= k < n ==> #[trigger] actions[k] == if k < 200 && k % 2 == 0 {
                    CheckAction::SendBothWays
                } else if k < 200 {
                    CheckAction::Sleep { duration: 60_000_000_000 }
                } else if k == 200 {
                    CheckAction::ReceiveAtB { timeout: 7_776_000_000_000_000 }
                } else if k == 201 {
                    CheckAction::ReceiveAtA { timeout: 7_776_000_000_000_000 }
                } else {
                    CheckAction::Report
                }
            &&& check.a_to_b == if n > 201 {
                received[201]
            } else {
                None
            }
            &&& check.b_to_a == if n > 202 {
                received[202]
            } else {
                None
            }
        }),
{
    lemma_check_history(received);
}

proof fn lemma_check_history(received: Seq<Option<PacketId>>)
    ensures
        ({
            let (check, actions) = check_history(received);
            let n = received.len() as int;
            &&& actions.len() == n
            &&& n <= 200 ==> check.attempts == (n + 1) / 2 && check.stage == if n % 2 == 0 {
                CheckStage::Ready
            } else {
                CheckStage::Sent
            }
            &&& n == 201 ==> check.stage == CheckStage::ReceivingAtB
            &&& n == 202 ==> check.stage == CheckStage::ReceivingAtA
            &&& n > 202 ==> check.stage == CheckStage::Over
            &&& check.a_to_b == if n > 201 {
                received[201]
            } else {
                None
            }
            &&& check.b_to_a == if n > 202 {
                received[202]
            } else {
                None
            }
            &&& forall|k: int|
                0 <= k < n ==> #[trigger] actions[k] == if k < 200 && k % 2 == 0 {
                    CheckAction::SendBothWays
                } else if k < 200 {
                    CheckAction::Sleep { duration: 60_000_000_000 }
                } else if k == 200 {
                    CheckAction::ReceiveAtB { timeout: 7_776_000_000_000_000 }
                } else if k == 201 {
                    CheckAction::ReceiveAtA { timeout: 7_776_000_000_000_000 }
                } else {
                    CheckAction::Report
                }
        }),
    decreases received.len(),
{
    if received.len() > 0 {
        lemma_check_history(received.drop_last());
    }
}

/// What is reported when packets did not get through names the directions that failed.
pub proof fn law_failed_directions_are_named(a_to_b: bool, b_to_a: bool)
    ensures
        connectivity_failure_text(a_to_b, b_to_a)
            == "failed to deliver packets between the nodes after 90 days (A to B "@ + (if a_to_b {
            "succeeded"@
        } else {
            "failed"@
        }) + ", B to A "@ + (if b_to_a {
            "succeeded"@
        } else {
            "failed"@
        }) + ")"@,
{
}


} // verus!
