//! The course of a simulation.

use crate::config::traffic::TrafficKind;
use vstd::prelude::*;

verus! {

/// What has to be done in a simulation. Traffic patterns are told apart by their index.
#[derive(Clone, Copy, PartialEq, Eq, Structural, Debug)]
pub enum Action {
    /// Start the server of a traffic pattern in the background
    StartServer(usize),
    /// Announce the traffic
    Announce,
    /// Start the client of a traffic pattern; the flag says whether its log is shown
    StartClient(usize, bool),
    /// Wait until the client of a traffic pattern is done
    AwaitClient(usize),
    /// Wait until a QUIC server is done with a connection
    AwaitConnection,
}

/// What came of an action.
#[derive(Clone, Copy, PartialEq, Eq, Structural, Debug)]
pub enum Outcome {
    /// The action was performed, and nothing else is known of it
    Performed,
    /// The client is done and used the given number of QUIC connections
    ClientDone(u32),
    /// A QUIC server is done with a connection
    ConnectionHandled,
    /// No QUIC server is left that could handle a connection
    NoServerLeft,
}

/// Clients are awaited in waves.
#[derive(Clone, Copy, PartialEq, Eq, Structural, Debug)]
pub enum Wave {
    Ping,
    UdpOneDirection,
    Quic,
}

pub open spec fn spec_wave_of(kind: TrafficKind) -> Wave {
    match kind {
        TrafficKind::UdpPing(_) => Wave::Ping,
        TrafficKind::UdpOneDirection(_) => Wave::UdpOneDirection,
        TrafficKind::QuicRequestResponse(_) => Wave::Quic,
    }
}

/// The wave to which the client of a traffic pattern belongs.
fn wave_of(kind: &TrafficKind) -> (wave: Wave)
    ensures
        wave == spec_wave_of(*kind),
{
    match kind {
        TrafficKind::UdpPing(_) => Wave::Ping,
        TrafficKind::UdpOneDirection(_) => Wave::UdpOneDirection,
        TrafficKind::QuicRequestResponse(_) => Wave::Quic,
    }
}

/// No background server is used with UDP traffic in one direction.
pub open spec fn has_server(kind: TrafficKind) -> bool {
    !(kind is UdpOneDirection)
}

/// The actions that are picked for the first `count` traffic patterns, in order.
pub open spec fn picked(count: nat, pick: spec_fn(int) -> Option<Action>) -> Seq<Action>
    decreases count,
{
    if count == 0 {
        Seq::empty()
    } else {
        let before = picked((count - 1) as nat, pick);
        match pick(count - 1) {
            Some(action) => before.push(action),
            None => before,
        }
    }
}

pub open spec fn server_start(patterns: Seq<TrafficKind>) -> spec_fn(int) -> Option<Action> {
    |i: int|
        if has_server(patterns[i]) {
            Some(Action::StartServer(i as usize))
        } else {
            None
        }
}

/// Only the log of the first traffic pattern is shown.
pub open spec fn client_start() -> spec_fn(int) -> Option<Action> {
    |i: int| Some(Action::StartClient(i as usize, i == 0))
}

pub open spec fn client_wait(patterns: Seq<TrafficKind>, wave: Wave) -> spec_fn(int) -> Option<
    Action,
> {
    |i: int|
        if spec_wave_of(patterns[i]) == wave {
            Some(Action::AwaitClient(i as usize))
        } else {
            None
        }
}

/// What is done before and while the clients run.
pub open spec fn starts(patterns: Seq<TrafficKind>) -> Seq<Action> {
    picked(patterns.len(), server_start(patterns)).push(Action::Announce) + picked(
        patterns.len(),
        client_start(),
    )
}

/// The clients that are waited for: pings first, then UDP traffic in one direction, then QUIC
/// traffic.
pub open spec fn waits(patterns: Seq<TrafficKind>) -> Seq<Action> {
    picked(patterns.len(), client_wait(patterns, Wave::Ping)) + picked(
        patterns.len(),
        client_wait(patterns, Wave::UdpOneDirection),
    ) + picked(patterns.len(), client_wait(patterns, Wave::Quic))
}

/// What is done in a simulation, up to the point at which all clients are done.
pub open spec fn course(patterns: Seq<TrafficKind>) -> Seq<Action> {
    starts(patterns) + waits(patterns)
}

fn push_waits(actions: &mut Vec<Action>, patterns: &Vec<TrafficKind>, wave: Wave)
    ensures
        final(actions)@ == old(actions)@ + picked(patterns@.len(), client_wait(patterns@, wave)),
{
    let ghost pick = client_wait(patterns@, wave);
    for i in 0..patterns.len()
        invariant
            pick == client_wait(patterns@, wave),
            actions@ == old(actions)@ + picked(i as nat, pick),
    {
        if wave_of(&patterns[i]) == wave {
            actions.push(Action::AwaitClient(i));
        }
        assert(actions@ =~= old(actions)@ + picked((i + 1) as nat, pick));
    }
}

/// What is done in a simulation, up to the point at which all clients are done.
pub fn plan_course(patterns: &Vec<TrafficKind>) -> (actions: Vec<Action>)
    ensures
        actions@ == course(patterns@),
{
    let mut actions: Vec<Action> = Vec::new();

    // Set up necessary background servers
    let ghost pick = server_start(patterns@);
    for i in 0..patterns.len()
        invariant
            pick == server_start(patterns@),
            actions@ == picked(i as nat, pick),
    {
        match &patterns[i] {
            TrafficKind::UdpOneDirection(_) => {},
            _ => actions.push(Action::StartServer(i)),
        }
        assert(actions@ =~= picked((i + 1) as nat, pick));
    }
    actions.push(Action::Announce);

    // Start the clients
    let ghost before = actions@;
    for i in 0..patterns.len()
        invariant
            actions@ == before + picked(i as nat, client_start()),
    {
        actions.push(Action::StartClient(i, i == 0));
        assert(actions@ =~= before + picked((i + 1) as nat, client_start()));
    }

    push_waits(&mut actions, patterns, Wave::Ping);
    push_waits(&mut actions, patterns, Wave::UdpOneDirection);
    push_waits(&mut actions, patterns, Wave::Quic);
    assert(actions@ =~= course(patterns@));
    actions
}

/// A simulation on its way through its course.
pub struct Simulation {
    /// The course, up to the point at which all clients are done
    pub actions: Vec<Action>,
    /// The place of the next action in the course
    pub next_action: usize,
    /// The number of QUIC connections that the clients used
    pub connections: u64,
    /// The number of QUIC connections with which the servers are done
    pub handled_connections: u64,
}

impl Simulation {
    pub open spec fn wf(self) -> bool {
        self.next_action <= self.actions@.len()
    }

    /// The number of QUIC connections that the clients used, once the outcome is known.
    pub open spec fn connections_after(self, outcome: Outcome) -> nat {
        match outcome {
            Outcome::ClientDone(connections) => (self.connections + connections) as nat,
            _ => self.connections as nat,
        }
    }

    /// The number of QUIC connections with which the servers are done, once the outcome is known.
    pub open spec fn handled_after(self, outcome: Outcome) -> nat {
        match outcome {
            Outcome::ConnectionHandled => self.handled_connections as nat + 1,
            _ => self.handled_connections as nat,
        }
    }

    /// The next action, once the outcome of the previous one is known: when the course is through,
    /// the servers have to be done with all QUIC connections.
    pub open spec fn action_after(self, outcome: Outcome) -> Option<Action> {
        if self.next_action < self.actions@.len() {
            Some(self.actions@[self.next_action as int])
        } else if self.handled_after(outcome) < self.connections_after(outcome) && outcome
            != Outcome::NoServerLeft {
            Some(Action::AwaitConnection)
        } else {
            None
        }
    }

    pub fn new(patterns: &Vec<TrafficKind>) -> (r: Self)
        ensures
            r.wf(),
            r.actions@ == course(patterns@),
            r.next_action == 0,
            r.connections == 0,
            r.handled_connections == 0,
    {
        Simulation {
            actions: plan_course(patterns),
            next_action: 0,
            connections: 0,
            handled_connections: 0,
        }
    }

    /// The next action, given what came of the previous one, or nothing if the simulation is over.
    pub fn next(&mut self, outcome: Outcome) -> (action: Option<Action>)
        requires
            old(self).wf(),
            old(self).connections_after(outcome) <= u64::MAX,
            old(self).handled_after(outcome) <= u64::MAX,
        ensures
            final(self).wf(),
            action == old(self).action_after(outcome),
            final(self).actions == old(self).actions,
            final(self).next_action == if old(self).next_action < old(self).actions@.len() {
                (old(self).next_action + 1) as usize
            } else {
                old(self).next_action
            },
            final(self).connections == old(self).connections_after(outcome),
            final(self).handled_connections == old(self).handled_after(outcome),
    {
        match outcome {
            Outcome::ClientDone(connections) => {
                self.connections = self.connections + connections as u64;
            },
            Outcome::ConnectionHandled => {
                self.handled_connections = self.handled_connections + 1;
            },
            _ => {},
        }
        if self.next_action < self.actions.len() {
            let action = self.actions[self.next_action];
            self.next_action = self.next_action + 1;
            return Some(action);
        }
        match outcome {
            Outcome::NoServerLeft => None,
            _ => if self.handled_connections < self.connections {
                Some(Action::AwaitConnection)
            } else {
                None
            },
        }
    }
}

/// The action was picked for one of the first `count` traffic patterns.
pub open spec fn is_picked(
    count: nat,
    pick: spec_fn(int) -> Option<Action>,
    action: Action,
) -> bool {
    exists|i: int| 0 <= i < count && #[trigger] pick(i) == Some(action)
}

proof fn lemma_picked_contains(count: nat, pick: spec_fn(int) -> Option<Action>, action: Action)
    ensures
        picked(count, pick).contains(action) <==> is_picked(count, pick, action),
    decreases count,
{
    if count > 0 {
        let last = count - 1;
        let before = picked(last as nat, pick);
        let after = picked(count, pick);
        lemma_picked_contains(last as nat, pick, action);
        if is_picked(count, pick, action) {
            let i = choose|i: int| 0 <= i < count && #[trigger] pick(i) == Some(action);
            if i < last {
                assert(is_picked(last as nat, pick, action));
                let k = choose|k: int| 0 <= k < before.len() && before[k] == action;
                assert(after[k] == action);
            } else {
                assert(after.last() == action);
            }
        }
        if after.contains(action) {
            let k = choose|k: int| 0 <= k < after.len() && after[k] == action;
            if k < before.len() {
                assert(before[k] == action);
                let i = choose|i: int| 0 <= i < last && #[trigger] pick(i) == Some(action);
                assert(pick(i) == Some(action));
            } else {
                assert(pick(last) == Some(action));
            }
        }
    }
}

proof fn lemma_picked_once(count: nat, pick: spec_fn(int) -> Option<Action>)
    requires
        forall|i: int, j: int|
            0 <= i < j < count && #[trigger] pick(i) is Some ==> pick(i) != #[trigger] pick(j),
    ensures
        picked(count, pick).no_duplicates(),
    decreases count,
{
    if count > 0 {
        let last = count - 1;
        let before = picked(last as nat, pick);
        lemma_picked_once(last as nat, pick);
        if let Some(action) = pick(last) {
            lemma_picked_contains(last as nat, pick, action);
            if before.contains(action) {
                let i = choose|i: int| 0 <= i < last && #[trigger] pick(i) == Some(action);
                assert(pick(i) != pick(last));
            }
        }
    }
}

/// In each part of the course, an action stands at most once and is what the part is about.
proof fn lemma_parts(patterns: Seq<TrafficKind>)
    requires
        patterns.len() <= usize::MAX,
    ensures
        picked(patterns.len(), server_start(patterns)).no_duplicates(),
        picked(patterns.len(), client_start()).no_duplicates(),
        forall|wave: Wave|
            (#[trigger] picked(patterns.len(), client_wait(patterns, wave))).no_duplicates(),
        forall|a: Action| #[trigger]
            picked(patterns.len(), server_start(patterns)).contains(a) <==> (
            a matches Action::StartServer(i) && i < patterns.len() && has_server(
                patterns[i as int],
            )),
        forall|a: Action| #[trigger]
            picked(patterns.len(), client_start()).contains(a) <==> (
            a matches Action::StartClient(i, shown) && i < patterns.len() && shown == (i == 0)),
        forall|wave: Wave, a: Action| #[trigger]
            picked(patterns.len(), client_wait(patterns, wave)).contains(a) <==> (
            a matches Action::AwaitClient(i) && i < patterns.len() && spec_wave_of(
                patterns[i as int],
            ) == wave),
{
    let n = patterns.len();
    let servers = server_start(patterns);
    let clients = client_start();
    lemma_picked_once(n, servers);
    lemma_picked_once(n, clients);
    assert forall|a: Action| #[trigger] picked(n, servers).contains(a) <==> (
    a matches Action::StartServer(i) && i < n && has_server(patterns[i as int])) by {
        lemma_picked_contains(n, servers, a);
        if let Action::StartServer(i) = a {
            if i < n && has_server(patterns[i as int]) {
                assert(servers(i as int) == Some(a));
            }
        }
    }
    assert forall|a: Action| #[trigger] picked(n, clients).contains(a) <==> (
    a matches Action::StartClient(i, shown) && i < n && shown == (i == 0)) by {
        lemma_picked_contains(n, clients, a);
        if let Action::StartClient(i, shown) = a {
            if i < n && shown == (i == 0) {
                assert(clients(i as int) == Some(a));
            }
        }
    }
    assert forall|wave: Wave|
        (#[trigger] picked(n, client_wait(patterns, wave))).no_duplicates() by {
        lemma_picked_once(n, client_wait(patterns, wave));
    }
    assert forall|wave: Wave, a: Action| #[trigger]
        picked(n, client_wait(patterns, wave)).contains(a) <==> (a matches Action::AwaitClient(i)
            && i < n && spec_wave_of(patterns[i as int]) == wave) by {
        let pick = client_wait(patterns, wave);
        lemma_picked_contains(n, pick, a);
        if let Action::AwaitClient(i) = a {
            if i < n && spec_wave_of(patterns[i as int]) == wave {
                assert(pick(i as int) == Some(a));
            }
        }
    }
}

/// Sequences that have nothing in common can be put together without a repetition.
proof fn lemma_disjoint_parts(a: Seq<Action>, b: Seq<Action>)
    requires
        a.no_duplicates(),
        b.no_duplicates(),
        forall|x: Action| #[trigger] a.contains(x) ==> !b.contains(x),
    ensures
        (a + b).no_duplicates(),
        forall|x: Action| #[trigger] (a + b).contains(x) <==> a.contains(x) || b.contains(x),
{
    let all = a + b;
    assert forall|i: int, j: int| 0 <= i < all.len() && 0 <= j < all.len() && i != j implies all[i]
        != all[j] by {
        if i < a.len() && j >= a.len() {
            assert(a.contains(a[i]));
            assert(b.contains(b[j - a.len()]));
        } else if i >= a.len() && j < a.len() {
            assert(a.contains(a[j]));
            assert(b.contains(b[i - a.len()]));
        }
    }
    assert forall|x: Action| #[trigger] all.contains(x) <==> a.contains(x) || b.contains(x) by {
        if a.contains(x) {
            let k = choose|k: int| 0 <= k < a.len() && a[k] == x;
            assert(all[k] == x);
        }
        if b.contains(x) {
            let k = choose|k: int| 0 <= k < b.len() && b[k] == x;
            assert(all[a.len() + k] == x);
        }
        if all.contains(x) {
            let k = choose|k: int| 0 <= k < all.len() && all[k] == x;
            if k < a.len() {
                assert(a[k] == x);
            } else {
                assert(b[k - a.len()] == x);
            }
        }
    }
}

/// The actions of a course: every server that is needed is started, every client is started and
/// awaited, the log is only shown for the first traffic pattern, and nothing is done twice.
pub proof fn law_course_is_complete(patterns: Seq<TrafficKind>)
    requires
        patterns.len() <= usize::MAX,
    ensures
        course(patterns).no_duplicates(),
        forall|a: Action| #[trigger]
            course(patterns).contains(a) <==> match a {
                Action::StartServer(i) => i < patterns.len() && has_server(patterns[i as int]),
                Action::Announce => true,
                Action::StartClient(i, shown) => i < patterns.len() && shown == (i == 0),
                Action::AwaitClient(i) => i < patterns.len(),
                Action::AwaitConnection => false,
            },
{
    let n = patterns.len();
    let servers = picked(n, server_start(patterns));
    let clients = picked(n, client_start());
    let pings = picked(n, client_wait(patterns, Wave::Ping));
    let udp = picked(n, client_wait(patterns, Wave::UdpOneDirection));
    let quic = picked(n, client_wait(patterns, Wave::Quic));
    let announce = seq![Action::Announce];
    lemma_parts(patterns);
    assert forall|x: Action| #[trigger] announce.contains(x) <==> x == Action::Announce by {
        if x == Action::Announce {
            assert(announce[0] == x);
        }
    }
    assert(servers.push(Action::Announce) =~= servers + announce);
    lemma_disjoint_parts(servers, announce);
    lemma_disjoint_parts(servers + announce, clients);
    lemma_disjoint_parts(pings, udp);
    lemma_disjoint_parts(pings + udp, quic);
    lemma_disjoint_parts(starts(patterns), waits(patterns));
}

/// Servers are started before clients, and clients are started before any of them is awaited.
pub proof fn law_course_is_ordered(patterns: Seq<TrafficKind>, p: int, q: int)
    requires
        patterns.len() <= usize::MAX,
        0 <= p < course(patterns).len(),
        0 <= q < course(patterns).len(),
    ensures
        course(patterns)[p] is StartServer && course(patterns)[q] is StartClient ==> p < q,
        course(patterns)[p] is StartClient && course(patterns)[q] is AwaitClient ==> p < q,
{
    let n = patterns.len();
    let all = course(patterns);
    let servers = picked(n, server_start(patterns));
    let clients = picked(n, client_start());
    lemma_parts(patterns);
    assert forall|k: int| 0 <= k < all.len() && (#[trigger] all[k]) is StartServer implies k
        < servers.len() by {
        if k > servers.len() {
            lemma_is_not_a_server_start(patterns, k);
        }
    }
    assert forall|k: int| 0 <= k < all.len() && (#[trigger] all[k]) is StartClient implies
        servers.len() < k < starts(patterns).len() by {
        if k < servers.len() {
            assert(servers.contains(servers[k]));
        } else if k >= starts(patterns).len() {
            lemma_is_a_wait(patterns, k - starts(patterns).len());
        }
    }
    assert forall|k: int| 0 <= k < all.len() && (#[trigger] all[k]) is AwaitClient implies
        starts(patterns).len() <= k by {
        if k < servers.len() {
            assert(servers.contains(servers[k]));
        } else if servers.len() < k < starts(patterns).len() {
            let c = k - servers.len() - 1;
            assert(all[k] == clients[c]);
            assert(clients.contains(clients[c]));
        }
    }
}

proof fn lemma_is_a_wait(patterns: Seq<TrafficKind>, k: int)
    requires
        patterns.len() <= usize::MAX,
        0 <= k < waits(patterns).len(),
    ensures
        waits(patterns)[k] is AwaitClient,
{
    let n = patterns.len();
    let pings = picked(n, client_wait(patterns, Wave::Ping));
    let udp = picked(n, client_wait(patterns, Wave::UdpOneDirection));
    let quic = picked(n, client_wait(patterns, Wave::Quic));
    lemma_parts(patterns);
    if k < pings.len() {
        assert(pings.contains(pings[k]));
    } else if k < pings.len() + udp.len() {
        assert(udp.contains(udp[k - pings.len()]));
    } else {
        assert(quic.contains(quic[k - pings.len() - udp.len()]));
    }
}

proof fn lemma_is_not_a_server_start(patterns: Seq<TrafficKind>, k: int)
    requires
        patterns.len() <= usize::MAX,
        picked(patterns.len(), server_start(patterns)).len() < k < course(patterns).len(),
    ensures
        !(course(patterns)[k] is StartServer),
{
    let servers = picked(patterns.len(), server_start(patterns));
    let clients = picked(patterns.len(), client_start());
    lemma_parts(patterns);
    if k < starts(patterns).len() {
        let c = k - servers.len() - 1;
        assert(course(patterns)[k] == clients[c]);
        assert(clients.contains(clients[c]));
    } else {
        lemma_is_a_wait(patterns, k - starts(patterns).len());
    }
}

/// A simulation in which servers are left only ends when all QUIC connections were handled.
pub proof fn law_simulation_waits_for_connections(simulation: Simulation, outcome: Outcome)
    requires
        simulation.wf(),
        outcome != Outcome::NoServerLeft,
        simulation.action_after(outcome) is None,
    ensures
        simulation.next_action == simulation.actions@.len(),
        simulation.handled_after(outcome) >= simulation.connections_after(outcome),
{
}

proof fn lemma_picked_in_order(
    count: nat,
    pick: spec_fn(int) -> Option<Action>,
    p: int,
    q: int,
    i: int,
    j: int,
)
    requires
        0 <= p < picked(count, pick).len(),
        0 <= q < picked(count, pick).len(),
        0 <= i < j < count,
        pick(i) == Some(picked(count, pick)[p]),
        pick(j) == Some(picked(count, pick)[q]),
        picked(count, pick).no_duplicates(),
        forall|a: int, b: int|
            0 <= a < b < count && #[trigger] pick(a) is Some ==> pick(a) != #[trigger] pick(b),
    ensures
        p < q,
    decreases count,
{
    let last = count - 1;
    let before = picked(last as nat, pick);
    let all = picked(count, pick);
    lemma_picked_once(last as nat, pick);
    if j == last {
        assert(all[q] == all.last());
        assert(q == all.len() - 1);
        assert(all[p] != all[q]);
    } else {
        if pick(last) is Some {
            assert(pick(j) != pick(last));
            assert(pick(i) != pick(last));
        }
        assert(p < before.len() && q < before.len());
        assert(before[p] == all[p] && before[q] == all[q]);
        lemma_picked_in_order(last as nat, pick, p, q, i, j);
    }
}

/// Pings are awaited before UDP traffic in one direction, and that is awaited before QUIC traffic.
/// Of each kind, and of the servers and clients that are started, the one that is listed first comes
/// first.
pub proof fn law_course_follows_the_patterns(
    patterns: Seq<TrafficKind>,
    p: int,
    q: int,
    i: usize,
    j: usize,
)
    requires
        patterns.len() <= usize::MAX,
        0 <= p < course(patterns).len(),
        0 <= q < course(patterns).len(),
        i < patterns.len(),
        j < patterns.len(),
    ensures
        course(patterns)[p] == Action::StartServer(i) && course(patterns)[q] == Action::StartServer(j)
            && i < j ==> p < q,
        course(patterns)[p] == Action::StartClient(i, i == 0) && course(patterns)[q]
            == Action::StartClient(j, j == 0) && i < j ==> p < q,
        course(patterns)[p] == Action::AwaitClient(i) && course(patterns)[q] == Action::AwaitClient(j)
            ==> {
            let a = patterns[i as int];
            let b = patterns[j as int];
            &&& a is UdpPing && !(b is UdpPing) ==> p < q
            &&& a is UdpOneDirection && b is QuicRequestResponse ==> p < q
            &&& i < j && (a is UdpPing && b is UdpPing || a is UdpOneDirection && b is UdpOneDirection
                || a is QuicRequestResponse && b is QuicRequestResponse) ==> p < q
        },
        course(patterns)[p] is Announce && course(patterns)[q] is StartServer ==> q < p,
        course(patterns)[p] is Announce && course(patterns)[q] is StartClient ==> p < q,
{
    let n = patterns.len();
    let all = course(patterns);
    let servers = picked(n, server_start(patterns));
    let clients = picked(n, client_start());
    let pings = picked(n, client_wait(patterns, Wave::Ping));
    let udp = picked(n, client_wait(patterns, Wave::UdpOneDirection));
    let quic = picked(n, client_wait(patterns, Wave::Quic));
    lemma_parts(patterns);
    lemma_place(patterns, p);
    lemma_place(patterns, q);
    let s = servers.len() as int;
    let c = s + 1 + clients.len();
    if all[p] == Action::StartServer(i) && all[q] == Action::StartServer(j) && i < j {
        assert(servers.contains(servers[p]) && servers.contains(servers[q]));
        lemma_picked_in_order(n, server_start(patterns), p, q, i as int, j as int);
    }
    if all[p] == Action::StartClient(i, i == 0) && all[q] == Action::StartClient(j, j == 0) && i
        < j {
        lemma_picked_in_order(n, client_start(), p - s - 1, q - s - 1, i as int, j as int);
    }
    if all[p] == Action::AwaitClient(i) && all[q] == Action::AwaitClient(j) && i < j
        && spec_wave_of(patterns[i as int]) == spec_wave_of(patterns[j as int]) {
        let wave = spec_wave_of(patterns[i as int]);
        let before = match wave {
            Wave::Ping => 0int,
            Wave::UdpOneDirection => pings.len() as int,
            Wave::Quic => (pings.len() + udp.len()) as int,
        };
        let from = c + before;
        lemma_picked_in_order(
            n,
            client_wait(patterns, wave),
            p - from,
            q - from,
            i as int,
            j as int,
        );
    }
}

/// The place of an action in a course says what kind of action it is.
proof fn lemma_place(patterns: Seq<TrafficKind>, p: int)
    requires
        patterns.len() <= usize::MAX,
        0 <= p < course(patterns).len(),
    ensures
        ({
            let n = patterns.len();
            let all = course(patterns);
            let servers = picked(n, server_start(patterns));
            let clients = picked(n, client_start());
            let pings = picked(n, client_wait(patterns, Wave::Ping));
            let udp = picked(n, client_wait(patterns, Wave::UdpOneDirection));
            let quic = picked(n, client_wait(patterns, Wave::Quic));
            let s = servers.len() as int;
            let c = s + 1 + clients.len();
            &&& p < s <==> all[p] is StartServer
            &&& p < s ==> all[p] == servers[p]
            &&& p == s <==> all[p] is Announce
            &&& s < p < c <==> all[p] is StartClient
            &&& s < p < c ==> all[p] == clients[p - s - 1]
            &&& c <= p <==> all[p] is AwaitClient
            &&& c <= p ==> (all[p] matches Action::AwaitClient(i) && i < n && {
                let wave = spec_wave_of(patterns[i as int]);
                &&& wave == Wave::Ping <==> p < c + pings.len()
                &&& wave == Wave::Quic <==> c + pings.len() + udp.len() <= p
                &&& wave == Wave::Ping ==> all[p] == pings[p - c]
                &&& wave == Wave::UdpOneDirection ==> all[p] == udp[p - c - pings.len()] && p - c
                    - pings.len() < udp.len()
                &&& wave == Wave::Quic ==> all[p] == quic[p - c - pings.len() - udp.len()]
            })
            &&& all.len() == c + pings.len() + udp.len() + quic.len()
        }),
{
    let n = patterns.len();
    let all = course(patterns);
    let servers = picked(n, server_start(patterns));
    let clients = picked(n, client_start());
    let pings = picked(n, client_wait(patterns, Wave::Ping));
    let udp = picked(n, client_wait(patterns, Wave::UdpOneDirection));
    let quic = picked(n, client_wait(patterns, Wave::Quic));
    let s = servers.len() as int;
    let c = s + 1 + clients.len();
    lemma_parts(patterns);
    assert(starts(patterns).len() == c);
    if p < s {
        assert(all[p] == servers[p]);
        assert(servers.contains(servers[p]));
    } else if p == s {
        assert(all[p] == Action::Announce);
    } else if p < c {
        assert(all[p] == clients[p - s - 1]);
        assert(clients.contains(clients[p - s - 1]));
    } else if p < c + pings.len() {
        assert(all[p] == pings[p - c]);
        assert(pings.contains(pings[p - c]));
    } else if p < c + pings.len() + udp.len() {
        assert(all[p] == udp[p - c - pings.len()]);
        assert(udp.contains(udp[p - c - pings.len()]));
    } else {
        assert(all[p] == quic[p - c - pings.len() - udp.len()]);
        assert(quic.contains(quic[p - c - pings.len() - udp.len()]));
    }
}

/// Traffic needs a server in the background unless it is UDP traffic in one direction.
pub proof fn law_echoes_and_answers_need_servers(kind: TrafficKind)
    ensures
        has_server(kind) <==> kind is UdpPing || kind is QuicRequestResponse,
{
}

/// A simulation goes through its course action by action, whatever comes of them, and then waits for
/// one connection after the other until as many were handled as the clients used, or no server is
/// left.
pub proof fn law_simulations_go_through_their_course(simulation: Simulation, outcome: Outcome)
    requires
        simulation.wf(),
    ensures
        ({
            let used = simulation.connections + match outcome {
                Outcome::ClientDone(connections) => connections as int,
                _ => 0,
            };
            let handled = simulation.handled_connections + if outcome is ConnectionHandled {
                1int
            } else {
                0
            };
            let through = simulation.next_action == simulation.actions@.len();
            &&& simulation.connections_after(outcome) == used
            &&& simulation.handled_after(outcome) == handled
            &&& !through ==> simulation.action_after(outcome) == Some(
                simulation.actions@[simulation.next_action as int],
            )
            &&& through ==> (simulation.action_after(outcome) is None <==> outcome is NoServerLeft
                || used <= handled)
            &&& through && simulation.action_after(outcome) is Some ==> simulation.action_after(
                outcome,
            ) == Some(Action::AwaitConnection)
        }),
{
}


} // verus!
