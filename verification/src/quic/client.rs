//! The requests that clients make.

use crate::text::{decimal, push_decimal};
use crate::time::Nanos;
use vstd::prelude::*;

verus! {

/// The number of connections that can be told apart by a letter.
pub const MAX_CONNECTIONS: u32 = 25;

pub open spec fn too_many_connections_text(connections: u32) -> Seq<char> {
    "The maximum number of concurrent connections is "@ + decimal(MAX_CONNECTIONS as nat)
        + ", but "@ + decimal(connections as nat) + " were configured"@
}

/// Whether the number of connections is allowed.
pub fn check_concurrent_connections(connections: u32) -> (r: Result<(), String>)
    ensures
        match r {
            Ok(_) => connections <= MAX_CONNECTIONS,
            Err(e) => connections > MAX_CONNECTIONS && e@ == too_many_connections_text(connections),
        },
{
    if connections > MAX_CONNECTIONS {
        let mut message = "The maximum number of concurrent connections is ".to_owned();
        push_decimal(&mut message, MAX_CONNECTIONS as u128);
        message.append(", but ");
        push_decimal(&mut message, connections as u128);
        message.append(" were configured");
        Err(message)
    } else {
        Ok(())
    }
}

/// The name of a connection: a letter.
pub fn connection_name(i: u32) -> (name: String)
    requires
        i < MAX_CONNECTIONS,
    ensures
        name@ == seq![(65 + i) as char],
{
    let letters = "ABCDEFGHIJKLMNOPQRSTUVWXYZ";
    proof {
        reveal_strlit("ABCDEFGHIJKLMNOPQRSTUVWXYZ");
    }
    let letter = letters.substring_ascii(i as usize, i as usize + 1);
    assert(letter@ =~= seq![(65 + i) as char]);
    letter.to_owned()
}

/// The time between the starts of two connections, in milliseconds.
pub const CONNECTION_START_INTERVAL_MS: u64 = 1;

/// The names of the connections that are used for the requests, in the order in which they are
/// started.
pub fn plan_connections(connections: u32) -> (r: Result<Vec<String>, String>)
    ensures
        match r {
            Ok(names) => {
                &&& connections <= MAX_CONNECTIONS
                &&& names@.len() == connections
                &&& forall|i: int|
                    0 <= i < names@.len() ==> (#[trigger] names@[i])@ == seq![(65 + i) as char]
            },
            Err(e) => connections > MAX_CONNECTIONS && e@ == too_many_connections_text(connections),
        },
{
    match check_concurrent_connections(connections) {
        Ok(_) => {},
        Err(e) => return Err(e),
    }
    let mut names: Vec<String> = Vec::new();
    for i in 0..connections
        invariant
            connections <= MAX_CONNECTIONS,
            names@.len() == i,
            forall|k: int|
                0 <= k < names@.len() ==> (#[trigger] names@[k])@ == seq![(65 + k) as char],
    {
        names.push(connection_name(i));
    }
    Ok(names)
}

/// Takes one of the requests that are left, unless there is none.
pub fn take_request(requests_left: &mut u32) -> (taken: bool)
    ensures
        taken == (*old(requests_left) > 0),
        *final(requests_left) == if taken {
            (*old(requests_left) - 1) as u32
        } else {
            0
        },
{
    if *requests_left == 0 {
        return false;
    }
    *requests_left = *requests_left - 1;
    true
}

/// Whether to pause before a request: not before the first one, and only if an interval was asked
/// for.
pub fn pauses_before_request(requests_made: u32, request_interval: Nanos) -> (r: bool)
    ensures
        r == (requests_made > 0 && request_interval != 0),
{
    requests_made > 0 && request_interval != 0
}

/// How far a connection is with its next request.
#[derive(Clone, Copy, PartialEq, Eq, Structural, Debug)]
pub enum ConnectionStage {
    /// The connection has nothing to do
    Idle,
    /// The connection took a request and has a stream for it
    Claimed,
    /// The connection paused before the request that it took
    Rested,
    /// No request is left
    Done,
}

/// What a connection does next.
#[derive(Clone, Copy, PartialEq, Eq, Structural, Debug)]
pub enum ConnectionAction {
    /// Wait until one of the connection's streams is free
    AcquireStream,
    /// Sleep for the request interval
    Sleep,
    /// Make the request with the given number, on the stream that was acquired
    Request(u32),
    /// Wait for all responses and close the connection
    Close,
}

/// A connection on its way through the requests.
#[derive(Clone, Copy, PartialEq, Eq, Structural, Debug)]
pub struct ConnectionRun {
    pub stage: ConnectionStage,
    pub requests_made: u32,
    pub request_interval: Nanos,
}

/// What comes of a connection that continues while the given number of requests is left: the
/// connection, the requests that are left then, and what has to be done.
pub open spec fn connection_step(run: ConnectionRun, left: u32) -> (
    ConnectionRun,
    u32,
    ConnectionAction,
) {
    let request_nr = (run.requests_made + 1) as u32;
    let requesting = ConnectionRun {
        stage: ConnectionStage::Idle,
        requests_made: request_nr,
        ..run
    };
    match run.stage {
        ConnectionStage::Idle => if left > 0 {
            (
                ConnectionRun { stage: ConnectionStage::Claimed, ..run },
                (left - 1) as u32,
                ConnectionAction::AcquireStream,
            )
        } else {
            (ConnectionRun { stage: ConnectionStage::Done, ..run }, left, ConnectionAction::Close)
        },
        ConnectionStage::Claimed => if run.requests_made > 0 && run.request_interval != 0 {
            (ConnectionRun { stage: ConnectionStage::Rested, ..run }, left, ConnectionAction::Sleep)
        } else {
            (requesting, left, ConnectionAction::Request(request_nr))
        },
        ConnectionStage::Rested => (requesting, left, ConnectionAction::Request(request_nr)),
        ConnectionStage::Done => (run, left, ConnectionAction::Close),
    }
}

impl ConnectionRun {
    /// A connection that was just established.
    pub fn new(request_interval: Nanos) -> (r: Self)
        ensures
            r == (ConnectionRun {
                stage: ConnectionStage::Idle,
                requests_made: 0,
                request_interval,
            }),
    {
        ConnectionRun { stage: ConnectionStage::Idle, requests_made: 0, request_interval }
    }

    /// The requests that the connection took.
    pub open spec fn taken(self) -> nat {
        match self.stage {
            ConnectionStage::Claimed | ConnectionStage::Rested => self.requests_made as nat + 1,
            _ => self.requests_made as nat,
        }
    }

    /// Says what the connection does next. It is asked again once that is done; connections share
    /// the requests that are left.
    pub fn next(&mut self, requests_left: &mut u32) -> (action: ConnectionAction)
        requires
            old(self).requests_made < u32::MAX,
        ensures
            (*final(self), *final(requests_left), action) == connection_step(
                *old(self),
                *old(requests_left),
            ),
    {
        match self.stage {
            ConnectionStage::Idle => {
                // Stop once there are no more requests left to make
                if take_request(requests_left) {
                    self.stage = ConnectionStage::Claimed;
                    ConnectionAction::AcquireStream
                } else {
                    self.stage = ConnectionStage::Done;
                    ConnectionAction::Close
                }
            },
            ConnectionStage::Claimed => if pauses_before_request(
                self.requests_made,
                self.request_interval,
            ) {
                self.stage = ConnectionStage::Rested;
                ConnectionAction::Sleep
            } else {
                self.request()
            },
            ConnectionStage::Rested => self.request(),
            ConnectionStage::Done => ConnectionAction::Close,
        }
    }

    fn request(&mut self) -> (action: ConnectionAction)
        requires
            old(self).requests_made < u32::MAX,
        ensures
            *final(self) == (ConnectionRun {
                stage: ConnectionStage::Idle,
                requests_made: (old(self).requests_made + 1) as u32,
                ..*old(self)
            }),
            action == ConnectionAction::Request((old(self).requests_made + 1) as u32),
    {
        self.requests_made = self.requests_made + 1;
        self.stage = ConnectionStage::Idle;
        ConnectionAction::Request(self.requests_made)
    }
}

/// The requests that all connections took together.
pub open spec fn all_taken(runs: Seq<ConnectionRun>) -> nat
    decreases runs.len(),
{
    if runs.len() == 0 {
        0
    } else {
        all_taken(runs.drop_last()) + runs.last().taken()
    }
}

/// The requests that all connections made together.
pub open spec fn all_made(runs: Seq<ConnectionRun>) -> nat
    decreases runs.len(),
{
    if runs.len() == 0 {
        0
    } else {
        all_made(runs.drop_last()) + runs.last().requests_made as nat
    }
}

/// The connections share the given number of requests: each request was taken by one of them or is
/// left, and connections only close once none is left.
pub open spec fn share_requests(runs: Seq<ConnectionRun>, left: u32, requests: nat) -> bool {
    &&& all_taken(runs) + left == requests
    &&& forall|i: int|
        0 <= i < runs.len() && (#[trigger] runs[i]).stage == ConnectionStage::Done ==> left == 0
}

proof fn lemma_one_run_changes(runs: Seq<ConnectionRun>, i: int, run: ConnectionRun)
    requires
        0 <= i < runs.len(),
    ensures
        all_taken(runs.update(i, run)) == all_taken(runs) - runs[i].taken() + run.taken(),
    decreases runs.len(),
{
    let after = runs.update(i, run);
    if i == runs.len() - 1 {
        assert(after.drop_last() =~= runs.drop_last());
    } else {
        assert(after.drop_last() =~= runs.drop_last().update(i, run));
        lemma_one_run_changes(runs.drop_last(), i, run);
    }
}

/// Connections that were just established share the requests that were configured.
pub proof fn law_new_connections_share_requests(runs: Seq<ConnectionRun>, requests: u32)
    requires
        forall|i: int|
            0 <= i < runs.len() ==> (#[trigger] runs[i]).stage == ConnectionStage::Idle
                && runs[i].requests_made == 0,
    ensures
        share_requests(runs, requests, requests as nat),
    decreases runs.len(),
{
    if runs.len() > 0 {
        let front = runs.drop_last();
        assert forall|i: int| 0 <= i < front.len() implies (#[trigger] front[i]).stage
            == ConnectionStage::Idle && front[i].requests_made == 0 by {
            assert(front[i] == runs[i]);
        }
        law_new_connections_share_requests(front, requests);
        assert(runs.last() == runs[runs.len() - 1]);
    }
}

/// Connections keep sharing the requests, whichever of them continues.
pub proof fn law_connections_keep_sharing_requests(
    runs: Seq<ConnectionRun>,
    left: u32,
    requests: nat,
    i: int,
)
    requires
        share_requests(runs, left, requests),
        0 <= i < runs.len(),
        runs[i].requests_made < u32::MAX,
    ensures
        ({
            let (run, left_then, _action) = connection_step(runs[i], left);
            share_requests(runs.update(i, run), left_then, requests)
        }),
{
    let (run, left_then, _action) = connection_step(runs[i], left);
    lemma_one_run_changes(runs, i, run);
    let after = runs.update(i, run);
    assert forall|j: int|
        0 <= j < after.len() && (#[trigger] after[j]).stage
            == ConnectionStage::Done implies left_then == 0 by {
        if j != i {
            assert(after[j] == runs[j]);
        }
    }
}

proof fn lemma_closed_connections_made_what_they_took(runs: Seq<ConnectionRun>)
    requires
        forall|i: int|
            0 <= i < runs.len() ==> (#[trigger] runs[i]).stage == ConnectionStage::Done,
    ensures
        all_made(runs) == all_taken(runs),
    decreases runs.len(),
{
    if runs.len() > 0 {
        let front = runs.drop_last();
        assert forall|i: int| 0 <= i < front.len() implies (#[trigger] front[i]).stage
            == ConnectionStage::Done by {
            assert(front[i] == runs[i]);
        }
        lemma_closed_connections_made_what_they_took(front);
        assert(runs.last() == runs[runs.len() - 1]);
    }
}

/// Once all connections are closed, exactly as many requests were made as were configured.
pub proof fn law_all_requests_are_made(runs: Seq<ConnectionRun>, left: u32, requests: nat)
    requires
        share_requests(runs, left, requests),
        runs.len() > 0,
        forall|i: int|
            0 <= i < runs.len() ==> (#[trigger] runs[i]).stage == ConnectionStage::Done,
    ensures
        all_made(runs) == requests,
{
    assert(runs[0].stage == ConnectionStage::Done);
    lemma_closed_connections_made_what_they_took(runs);
}

/// A connection numbers its requests without gaps, and pauses before each of them but the first if
/// an interval was asked for.
pub proof fn law_requests_are_spaced_out(run: ConnectionRun, left: u32, request_nr: u32)
    requires
        run.requests_made < u32::MAX,
        connection_step(run, left).2 == ConnectionAction::Request(request_nr),
    ensures
        request_nr == run.requests_made + 1,
        connection_step(run, left).0.requests_made == request_nr,
        run.stage == ConnectionStage::Rested || request_nr == 1 || run.request_interval == 0,
{
}

/// A connection that was asked again and again what to do next, while `lefts` says how many requests
/// were left each time: how it is then, and what it has done.
pub open spec fn connection_history(interval: Nanos, lefts: Seq<u32>) -> (
    ConnectionRun,
    Seq<ConnectionAction>,
)
    decreases lefts.len(),
{
    if lefts.len() == 0 {
        (
            ConnectionRun {
                stage: ConnectionStage::Idle,
                requests_made: 0,
                request_interval: interval,
            },
            Seq::empty(),
        )
    } else {
        let (run, actions) = connection_history(interval, lefts.drop_last());
        let (next, _left, action) = connection_step(run, lefts.last());
        (next, actions.push(action))
    }
}

/// How often a connection has waited for a stream.
pub open spec fn streams_acquired(actions: Seq<ConnectionAction>) -> nat
    decreases actions.len(),
{
    if actions.len() == 0 {
        0
    } else {
        streams_acquired(actions.drop_last()) + if actions.last() == ConnectionAction::AcquireStream {
            1nat
        } else {
            0nat
        }
    }
}

/// How many requests a connection has made.
pub open spec fn requests_among(actions: Seq<ConnectionAction>) -> nat
    decreases actions.len(),
{
    if actions.len() == 0 {
        0
    } else {
        requests_among(actions.drop_last()) + if actions.last() is Request {
            1nat
        } else {
            0nat
        }
    }
}

proof fn lemma_history(interval: Nanos, lefts: Seq<u32>)
    requires
        lefts.len() < u32::MAX,
    ensures
        ({
            let (run, actions) = connection_history(interval, lefts);
            &&& actions.len() == lefts.len()
            &&& run.request_interval == interval
            &&& run.requests_made == requests_among(actions)
            &&& run.requests_made <= lefts.len()
            &&& match run.stage {
                ConnectionStage::Idle => streams_acquired(actions) == requests_among(actions)
                    && !actions.contains(ConnectionAction::Close) && (actions.len() > 0
                    ==> actions.last() is Request),
                ConnectionStage::Claimed => streams_acquired(actions) == requests_among(actions)
                    + 1 && !actions.contains(ConnectionAction::Close) && actions.len() > 0
                    && actions.last() == ConnectionAction::AcquireStream,
                ConnectionStage::Rested => streams_acquired(actions) == requests_among(actions) + 1
                    && !actions.contains(ConnectionAction::Close) && actions.len() > 0
                    && actions.last() == ConnectionAction::Sleep,
                ConnectionStage::Done => streams_acquired(actions) == requests_among(actions)
                    && actions.contains(ConnectionAction::Close),
            }
        }),
    decreases lefts.len(),
{
    if lefts.len() > 0 {
        lemma_history(interval, lefts.drop_last());
        let (run, actions) = connection_history(interval, lefts.drop_last());
        let (next, _left, action) = connection_step(run, lefts.last());
        let after = actions.push(action);
        assert(after.drop_last() =~= actions);
        assert(after.contains(ConnectionAction::Close) <==> actions.contains(
            ConnectionAction::Close,
        ) || action == ConnectionAction::Close) by {
            if actions.contains(ConnectionAction::Close) {
                let k = choose|k: int|
                    0 <= k < actions.len() && actions[k] == ConnectionAction::Close;
                assert(after[k] == ConnectionAction::Close);
            }
            if action == ConnectionAction::Close {
                assert(after[actions.len() as int] == ConnectionAction::Close);
            }
        }
    }
}

/// Each request waits for a stream of its own: at any time, a connection has acquired as many streams
/// as it has made requests, or one more, the one for its next request. So there is exactly one wait
/// for a stream before the first request, and between two requests.
pub proof fn law_each_request_has_its_own_stream(interval: Nanos, lefts: Seq<u32>)
    requires
        lefts.len() < u32::MAX,
    ensures
        ({
            let actions = connection_history(interval, lefts).1;
            &&& actions.len() == lefts.len()
            &&& requests_among(actions) <= streams_acquired(actions) <= requests_among(actions) + 1
        }),
{
    lemma_history(interval, lefts);
}

/// What a connection does follows from what it has done. A closed connection stays closed. One that
/// has a stream for its next request makes that request, with the next number, after a single pause if
/// an interval was asked for and it is not the first one. Any other one takes a request, if one is
/// left, and waits for a stream; only if none is left, it closes.
pub proof fn law_connections_make_requests_as_configured(interval: Nanos, lefts: Seq<u32>, left: u32)
    requires
        lefts.len() < u32::MAX - 1,
    ensures
        ({
            let actions = connection_history(interval, lefts).1;
            let (_next, left_then, action) = connection_step(
                connection_history(interval, lefts).0,
                left,
            );
            &&& connection_history(interval, lefts.push(left)).1 == actions.push(action)
            &&& if actions.contains(ConnectionAction::Close) {
                action == ConnectionAction::Close && left_then == left
            } else if streams_acquired(actions) > requests_among(actions) {
                &&& left_then == left
                &&& if interval != 0 && requests_among(actions) > 0 && actions.last()
                    != ConnectionAction::Sleep {
                    action == ConnectionAction::Sleep
                } else {
                    action matches ConnectionAction::Request(nr) && nr == requests_among(actions)
                        + 1
                }
            } else if left > 0 {
                action == ConnectionAction::AcquireStream && left_then == left - 1
            } else {
                action == ConnectionAction::Close && left_then == left
            }
        }),
{
    lemma_history(interval, lefts);
    lemma_history(interval, lefts.push(left));
    assert(lefts.push(left).drop_last() =~= lefts);
}

/// The log line for a connection that is being established.
pub fn connect_line(connection_name: &str) -> (r: String)
    ensures
        r@ == "CONNECT (conn = "@ + connection_name@ + ")"@,
{
    let mut line = "CONNECT (conn = ".to_owned();
    line.append(connection_name);
    line.append(")");
    line
}

/// The log line for an established connection.
pub fn connected_line(connection_name: &str, extended_key_update_negotiated: bool) -> (r: String)
    ensures
        r@ == "CONNECTED (conn = "@ + connection_name@ + ")"@ + if extended_key_update_negotiated {
            " [extended key update negotiated]"@
        } else {
            Seq::empty()
        },
{
    let mut line = "CONNECTED (conn = ".to_owned();
    line.append(connection_name);
    line.append(")");
    if extended_key_update_negotiated {
        line.append(" [extended key update negotiated]");
    }
    line
}

/// The log line for a pause.
pub fn sleep_line(interval_ms: u64, connection_name: &str) -> (r: String)
    ensures
        r@ == "SLEEP for "@ + decimal(interval_ms as nat) + " ms (connection = "@ + connection_name@
            + ")"@,
{
    let mut line = "SLEEP for ".to_owned();
    push_decimal(&mut line, interval_ms as u128);
    line.append(" ms (connection = ");
    line.append(connection_name);
    line.append(")");
    line
}

/// The log line for a request.
pub fn request_line(connection_name: &str, request_nr: u32) -> (r: String)
    ensures
        r@ == "GET /index.html (stream = "@ + connection_name@ + decimal(request_nr as nat) + ")"@,
{
    let mut line = "GET /index.html (stream = ".to_owned();
    line.append(connection_name);
    push_decimal(&mut line, request_nr as u128);
    line.append(")");
    line
}

/// The log line for a connection that is about to be closed.
pub fn done_line(connection_name: &str, requests_made: u32) -> (r: String)
    ensures
        r@ == "DONE (conn = "@ + connection_name@ + ", request/response amount = "@ + decimal(
            requests_made as nat,
        ) + ")"@,
{
    let mut line = "DONE (conn = ".to_owned();
    line.append(connection_name);
    line.append(", request/response amount = ");
    push_decimal(&mut line, requests_made as u128);
    line.append(")");
    line
}

/// There are at most 25 connections, which start a millisecond after each other; who asks for more is
/// told so.
pub proof fn law_connections_are_limited(connections: u32)
    ensures
        MAX_CONNECTIONS == 25,
        CONNECTION_START_INTERVAL_MS == 1,
        too_many_connections_text(connections)
            == "The maximum number of concurrent connections is "@ + decimal(25) + ", but "@ + decimal(
            connections as nat,
        ) + " were configured"@,
{
}


} // verus!
