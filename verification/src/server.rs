//! One run of the listener: which clients are relayed, and what is reported.

use crate::proxy::{EventView, Level, Stats, StatsView, MAX_CONNECTIONS};
use crate::relay::{texts_of, Destination};
use crate::text::{append_number, decimal, joined, joined3};
use vstd::prelude::*;

verus! {

/// How long the listener rests after a client could not be accepted.
pub const ACCEPT_PAUSE_MILLIS: u64 = 100;

/// The ways in which an input or output operation can fail that the proxy tells
/// apart.
#[derive(Clone, Copy, Debug, PartialEq, Eq, Structural)]
pub enum ErrorKind {
    ConnectionReset,
    ConnectionAborted,
    BrokenPipe,
    UnexpectedEof,
    Other,
}

/// Whether an error only says that a peer went away.
pub open spec fn disconnects(kind: ErrorKind) -> bool {
    kind != ErrorKind::Other
}

/// Whether an error only says that a peer went away.
pub fn is_disconnect(kind: ErrorKind) -> (found: bool)
    ensures
        found == disconnects(kind),
{
    match kind {
        ErrorKind::ConnectionReset
        | ErrorKind::ConnectionAborted
        | ErrorKind::BrokenPipe
        | ErrorKind::UnexpectedEof => true,
        ErrorKind::Other => false,
    }
}

/// How a relay ended.
#[derive(Debug)]
pub enum RelayEnd {
    /// Both sides closed.
    Completed,
    /// An operation failed.
    Failed { kind: ErrorKind, error: String },
    /// The task itself was lost.
    Crashed(String),
}

/// What happens to a listener.
#[derive(Debug)]
pub enum ServeEvent {
    ShutdownRequested,
    Accepted,
    AcceptFailed(String),
    RelayEnded(RelayEnd),
}

/// What the caller of a `Server` does next.
#[derive(Clone, Copy, Debug, PartialEq, Eq, Structural)]
pub enum ServeAction {
    /// Wait for the next event.
    Continue,
    /// Relay the client that was accepted.
    Relay,
    /// Close the client that was accepted.
    Refuse,
    /// Wait for the next event after this many milliseconds.
    Pause(u64),
    /// Close the listener and every connection.
    Stop,
}

/// A listener that accepts clients.
#[derive(Debug)]
pub struct Server {
    pub target: Destination,
    pub active: usize,
}

/// The error for a target that does not lead anywhere else.
pub open spec fn bad_target_text(target: Seq<char>) -> Seq<char> {
    target + " resolves to no address or to the proxy itself"@
}

/// The status line of a listener at `local`.
pub open spec fn listening_text(local: Seq<char>) -> Seq<char> {
    "Listening on "@ + local
}

/// The error that `event` is recorded as, with `active` relays running.
pub open spec fn reported(event: ServeEvent, active: usize) -> Option<Seq<char>> {
    match event {
        ServeEvent::ShutdownRequested => None,
        ServeEvent::Accepted => if active >= MAX_CONNECTIONS {
            Some(
                "Connection limit reached ("@ + decimal(MAX_CONNECTIONS as nat)
                    + "). New client disconnected."@,
            )
        } else {
            None
        },
        ServeEvent::AcceptFailed(error) => Some("Could not accept a client: "@ + error@),
        ServeEvent::RelayEnded(end) => match end {
            RelayEnd::Completed => None,
            RelayEnd::Failed { kind, error } => if disconnects(kind) {
                None
            } else {
                Some("Connection error: "@ + error@)
            },
            RelayEnd::Crashed(error) => Some("Relay task failed: "@ + error@),
        },
    }
}

/// What follows `event`, with `active` relays running.
pub open spec fn answered(event: ServeEvent, active: usize) -> ServeAction {
    match event {
        ServeEvent::ShutdownRequested => ServeAction::Stop,
        ServeEvent::Accepted => if active >= MAX_CONNECTIONS {
            ServeAction::Refuse
        } else {
            ServeAction::Relay
        },
        ServeEvent::AcceptFailed(_) => ServeAction::Pause(ACCEPT_PAUSE_MILLIS),
        ServeEvent::RelayEnded(_) => ServeAction::Continue,
    }
}

/// How many relays run after `event`.
pub open spec fn active_after(event: ServeEvent, active: int) -> int {
    match event {
        ServeEvent::Accepted => if active >= MAX_CONNECTIONS {
            active
        } else {
            active + 1
        },
        ServeEvent::RelayEnded(_) => active - 1,
        _ => active,
    }
}

/// What `stats` show after `event`.
pub open spec fn stats_after(
    stats: StatsView,
    at: u64,
    event: ServeEvent,
    active: usize,
) -> StatsView {
    match reported(event, active) {
        Some(text) => stats.logged(EventView { at, level: Level::Error, text }),
        None => if event is ShutdownRequested {
            StatsView { listening: false, ..stats }
        } else {
            stats
        },
    }
}

/// The error for a target whose lookup failed.
pub fn unresolved(target: &str, error: &str) -> (text: String)
    ensures
        text@ == "Could not resolve "@ + target@ + ": "@ + error@,
{
    let mut text = joined3("Could not resolve ", target, ": ");
    text.append(error);
    text
}

/// The run ended while its target was looked up.
pub fn lookup_cancelled(stats: &mut Stats, at: u64)
    ensures
        final(stats)@ == old(stats)@.with_status(
            EventView { at, level: Level::Info, text: "Proxy stopped."@ },
        ),
{
    stats.set_status(at, Level::Info, "Proxy stopped.".to_owned());
}

impl Server {
    /// Opens a listener at `local` for a target that resolved to `addresses`,
    /// unless there are none or the listener itself is one of them.
    pub fn open(
        target: String,
        addresses: Vec<String>,
        local: &str,
        stats: &mut Stats,
        at: u64,
    ) -> (res: Result<Server, String>)
        ensures
            res is Err <==> addresses@.len() == 0 || texts_of(addresses@).contains(local@),
            res is Err ==> res->Err_0@ == bad_target_text(target@) && final(stats)@ == old(stats)@,
            res is Ok ==> res->Ok_0.target == (Destination { name: target, addresses })
                && res->Ok_0.active == 0 && final(stats)@ == (StatsView {
                listening: true,
                ..old(stats)@.with_status(
                    EventView { at, level: Level::Info, text: listening_text(local@) },
                )
            }),
    {
        let mut usable: bool = addresses.len() > 0;
        let ghost texts = texts_of(addresses@);
        let own = local.to_owned();
        let mut i: usize = 0;
        while i < addresses.len()
            invariant
                i <= addresses.len(),
                texts == texts_of(addresses@),
                own@ == local@,
                usable == (addresses@.len() > 0 && !texts.take(i as int).contains(local@)),
            decreases addresses.len() - i,
        {
            proof {
                let next = texts.take(i + 1);
                assert(next =~= texts.take(i as int).push(addresses[i as int]@));
                assert(next[i as int] == addresses[i as int]@);
                assert forall|t: Seq<char>| #[trigger] texts.take(i as int).contains(t) implies next.contains(
                t) by {
                    let k = choose|k: int|
                        0 <= k < texts.take(i as int).len() && texts.take(i as int)[k] == t;
                    assert(next[k] == t);
                }
            }
            if addresses[i] == own {
                usable = false;
            }
            i += 1;
        }
        assert(texts.take(i as int) =~= texts);
        if !usable {
            return Err(joined(target.as_str(), " resolves to no address or to the proxy itself"));
        }
        stats.set_status(at, Level::Info, joined("Listening on ", local));
        stats.set_listening(true);
        Ok(Server { target: Destination { name: target, addresses }, active: 0 })
    }

    /// Decides what follows `event` and records it where it went wrong.
    pub fn step(&mut self, stats: &mut Stats, at: u64, event: ServeEvent) -> (action: ServeAction)
        requires
            event is RelayEnded ==> old(self).active > 0,
        ensures
            final(self).target == old(self).target,
            final(self).active == active_after(event, old(self).active as int),
            action == answered(event, old(self).active),
            final(stats)@ == stats_after(old(stats)@, at, event, old(self).active),
    {
        match event {
            ServeEvent::ShutdownRequested => {
                stats.set_listening(false);
                ServeAction::Stop
            },
            ServeEvent::Accepted => if self.active >= MAX_CONNECTIONS {
                let mut text = "Connection limit reached (".to_owned();
                append_number(&mut text, MAX_CONNECTIONS as u128);
                text.append("). New client disconnected.");
                let _ = stats.event(at, Level::Error, text);
                ServeAction::Refuse
            } else {
                self.active += 1;
                ServeAction::Relay
            },
            ServeEvent::AcceptFailed(error) => {
                let _ = stats.event(
                    at,
                    Level::Error,
                    joined("Could not accept a client: ", error.as_str()),
                );
                ServeAction::Pause(ACCEPT_PAUSE_MILLIS)
            },
            ServeEvent::RelayEnded(end) => {
                self.active -= 1;
                match end {
                    RelayEnd::Completed => {},
                    RelayEnd::Failed { kind, error } => if !is_disconnect(kind) {
                        let _ = stats.event(
                            at,
                            Level::Error,
                            joined("Connection error: ", error.as_str()),
                        );
                    },
                    RelayEnd::Crashed(error) => {
                        let _ = stats.event(
                            at,
                            Level::Error,
                            joined("Relay task failed: ", error.as_str()),
                        );
                    },
                }
                ServeAction::Continue
            },
        }
    }

    /// The listener and all its connections are closed.
    pub fn stopped(self, stats: &mut Stats, at: u64)
        ensures
            final(stats)@ == old(stats)@.with_status(
                EventView {
                    at,
                    level: Level::Info,
                    text: "Proxy stopped. Existing connections were closed."@,
                },
            ),
    {
        stats.set_status(
            at,
            Level::Info,
            "Proxy stopped. Existing connections were closed.".to_owned(),
        );
    }
}

/// How many relays run after all of `events`, starting with none.
pub open spec fn active_after_all(events: Seq<ServeEvent>) -> int
    decreases events.len(),
{
    if events.len() == 0 {
        0
    } else {
        active_after(events.last(), active_after_all(events.drop_last()))
    }
}

/// Whatever happens, no more than `MAX_CONNECTIONS` relays run at once.
pub proof fn lemma_connections_are_bounded(events: Seq<ServeEvent>)
    ensures
        active_after_all(events) <= MAX_CONNECTIONS,
    decreases events.len(),
{
    if events.len() > 0 {
        lemma_connections_are_bounded(events.drop_last());
    }
}

/// A client is relayed exactly while fewer than 256 relays run, and is closed otherwise. A
/// client that is relayed is counted, and one that is closed is not.
pub proof fn lemma_clients_are_relayed_up_to_the_limit(active: usize)
    ensures
        answered(ServeEvent::Accepted, active) == ServeAction::Relay <==> active < 256,
        answered(ServeEvent::Accepted, active) == ServeAction::Refuse <==> active >= 256,
        active < 256 ==> active_after(ServeEvent::Accepted, active as int) == active + 1,
        active >= 256 ==> active_after(ServeEvent::Accepted, active as int) == active,
        reported(ServeEvent::Accepted, active) is Some <==> active >= 256,
{
}

/// Each kind of event has its own answer: only a request stops the listener, only a failed
/// accept makes it rest, for a tenth of a second, and the end of a relay only frees its place.
pub proof fn lemma_answers_fit_their_events(event: ServeEvent, active: usize)
    ensures
        answered(event, active) == ServeAction::Stop <==> event is ShutdownRequested,
        answered(event, active) is Pause <==> event is AcceptFailed,
        event is AcceptFailed ==> answered(event, active) == ServeAction::Pause(100),
        answered(event, active) == ServeAction::Continue <==> event is RelayEnded,
        event is RelayEnded ==> active_after(event, active as int) == active - 1,
        event is ShutdownRequested || event is AcceptFailed ==> active_after(event, active as int)
            == active,
        active_after(event, active as int) == active + 1 <==> answered(event, active)
            == ServeAction::Relay,
{
}

/// How many of `events` start a relay.
pub open spec fn relays_started(events: Seq<ServeEvent>) -> int
    decreases events.len(),
{
    if events.len() == 0 {
        0
    } else {
        let before = events.drop_last();
        relays_started(before) + if events.last() is Accepted && active_after_all(before) < 256 {
            1int
        } else {
            0
        }
    }
}

/// How many of `events` end a relay.
pub open spec fn relays_ended(events: Seq<ServeEvent>) -> int
    decreases events.len(),
{
    if events.len() == 0 {
        0
    } else {
        relays_ended(events.drop_last()) + if events.last() is RelayEnded {
            1int
        } else {
            0
        }
    }
}

/// The relays that run are those that were started and have not ended.
pub proof fn lemma_relays_add_up(events: Seq<ServeEvent>)
    ensures
        active_after_all(events) == relays_started(events) - relays_ended(events),
    decreases events.len(),
{
    if events.len() > 0 {
        lemma_relays_add_up(events.drop_last());
    }
}

/// Only what goes wrong is reported: a client that is turned away, one that cannot be
/// accepted, a relay that fails other than by a peer that goes away, and a relay that is
/// lost. The last three name the error as it was given.
pub proof fn lemma_only_failures_are_reported(event: ServeEvent, active: usize)
    ensures
        ({
            let text = reported(event, active);
            &&& event is ShutdownRequested ==> text is None
            &&& event matches ServeEvent::AcceptFailed(error) ==> text is Some && text->0
                == "Could not accept a client: "@ + error@
            &&& event matches ServeEvent::RelayEnded(end) ==> match end {
                RelayEnd::Completed => text is None,
                RelayEnd::Crashed(error) => text is Some && text->0 == "Relay task failed: "@
                    + error@,
                RelayEnd::Failed { kind, error } => if kind is Other {
                    text is Some && text->0 == "Connection error: "@ + error@
                } else {
                    text is None
                },
            }
        }),
{
}

/// A peer that goes away is told from an error in these four ways, and in no other.
pub proof fn lemma_four_ways_to_go(kind: ErrorKind)
    ensures
        disconnects(kind) <==> kind is ConnectionReset || kind is ConnectionAborted || kind is BrokenPipe
            || kind is UnexpectedEof,
{
}

/// An event records at most one error, at its own time, and changes no counter. Only a
/// request to stop changes whether clients are accepted: they are no longer.
pub proof fn lemma_events_leave_the_counters(
    stats: StatsView,
    at: u64,
    event: ServeEvent,
    active: usize,
)
    requires
        stats.bounded(),
    ensures
        ({
            let after = stats_after(stats, at, event, active);
            &&& after.transferred == stats.transferred
            &&& after.connections == stats.connections
            &&& after.status == stats.status
            &&& after.listening == (stats.listening && !(event is ShutdownRequested))
            &&& match reported(event, active) {
                Some(text) => after.events.len() > 0 && after.events.last() == (EventView {
                    at,
                    level: Level::Error,
                    text,
                }),
                None => after.events == stats.events,
            }
        }),
{
    match reported(event, active) {
        Some(text) => {
            crate::proxy::lemma_event_is_recorded(
                stats,
                EventView { at, level: Level::Error, text },
            );
        },
        None => {},
    }
}

/// What is said of a target names it: one that leads nowhere, and the place where the
/// listener is.
pub proof fn lemma_targets_are_named(target: Seq<char>, local: Seq<char>)
    ensures
        bad_target_text(target) == target + " resolves to no address or to the proxy itself"@,
        bad_target_text(target).take(target.len() as int) == target,
        listening_text(local) == "Listening on "@ + local,
{
    assert(bad_target_text(target).take(target.len() as int) =~= target);
}

} // verus!
