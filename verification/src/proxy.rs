//! What the proxy forwards, how fast, and what it reports while it does.

use std::collections::VecDeque;
use vstd::prelude::*;

verus! {

/// How many relays run at once.
pub const MAX_CONNECTIONS: usize = 256;

/// How many events the history keeps.
pub const MAX_EVENTS: usize = 100;

/// How long a lookup or a connection attempt may take.
pub const NETWORK_TIMEOUT_SECONDS: u64 = 10;

/// The most bytes that one read takes.
pub const MAX_CHUNK: usize = 4096;

/// The fewest bytes that a slow link offers to one read.
pub const MIN_CHUNK: usize = 64;

/// Which way bytes flow, as the client sees it.
#[derive(Clone, Copy, Debug, PartialEq, Eq, Structural)]
pub enum Direction {
    Download,
    Upload,
}

impl Direction {
    /// Both directions, in the order in which they are shown.
    pub const ALL: [Direction; 2] = [Direction::Download, Direction::Upload];

    /// The name that is shown for this direction.
    pub open spec fn label_text(self) -> Seq<char> {
        match self {
            Direction::Download => "Download"@,
            Direction::Upload => "Upload"@,
        }
    }

    /// The name of this direction.
    pub fn label(self) -> (text: &'static str)
        ensures
            text@ == self.label_text(),
    {
        match self {
            Direction::Download => "Download",
            Direction::Upload => "Upload",
        }
    }
}

/// One value for each direction.
#[derive(Clone, Copy, Debug, Default, PartialEq, Eq, Structural)]
pub struct PerDirection<T> {
    pub download: T,
    pub upload: T,
}

impl<T> PerDirection<T> {
    /// The value for `direction`.
    pub open spec fn at(self, direction: Direction) -> T {
        match direction {
            Direction::Download => self.download,
            Direction::Upload => self.upload,
        }
    }

    /// The value for `direction`.
    pub fn get(&self, direction: Direction) -> (value: &T)
        ensures
            *value == self.at(direction),
    {
        match direction {
            Direction::Download => &self.download,
            Direction::Upload => &self.upload,
        }
    }
}

/// The caps on traffic.
#[derive(Clone, Copy, Debug, PartialEq, Eq, Structural)]
pub struct Limits {
    pub enabled: bool,
    pub bytes_per_second: PerDirection<u64>,
}

impl Limits {
    /// The cap on `direction` in bytes per second, at least one, or `None` while
    /// limits are off.
    pub open spec fn rate_of(self, direction: Direction) -> Option<u64> {
        if self.enabled {
            let rate = self.bytes_per_second.at(direction);
            Some(
                if rate < 1 {
                    1
                } else {
                    rate
                },
            )
        } else {
            None
        }
    }

    /// The cap on `direction` in bytes per second.
    pub fn rate(&self, direction: Direction) -> (rate: Option<u64>)
        ensures
            rate == self.rate_of(direction),
    {
        if self.enabled {
            let rate: u64 = *self.bytes_per_second.get(direction);
            if rate < 1 {
                Some(1)
            } else {
                Some(rate)
            }
        } else {
            None
        }
    }
}

/// How serious an event is.
#[derive(Clone, Copy, Debug, PartialEq, Eq, Structural)]
pub enum Level {
    Info,
    Error,
}

/// Something that happened during a run, at a time in nanoseconds.
#[derive(Debug)]
pub struct Event {
    pub at: u64,
    pub level: Level,
    pub text: String,
}

/// The contents of an `Event`.
pub struct EventView {
    pub at: u64,
    pub level: Level,
    pub text: Seq<char>,
}

impl View for Event {
    type V = EventView;

    open spec fn view(&self) -> EventView {
        EventView { at: self.at, level: self.level, text: self.text@ }
    }
}

impl Clone for Event {
    fn clone(&self) -> (copy: Self)
        ensures
            copy == *self,
    {
        Event { at: self.at, level: self.level, text: self.text.clone() }
    }
}

/// What a run has done so far.
pub struct Stats {
    pub transferred: PerDirection<u64>,
    pub connections: usize,
    pub listening: bool,
    status: Option<Event>,
    events: VecDeque<Event>,
}

/// The contents of `Stats`.
#[verifier::ext_equal]
pub struct StatsView {
    pub transferred: PerDirection<u64>,
    pub connections: usize,
    pub listening: bool,
    pub status: Option<EventView>,
    pub events: Seq<EventView>,
}

impl StatsView {
    /// Nothing has happened.
    pub open spec fn empty() -> StatsView {
        StatsView {
            transferred: PerDirection { download: 0, upload: 0 },
            connections: 0,
            listening: false,
            status: None,
            events: Seq::empty(),
        }
    }

    /// The history holds no more than it may.
    pub open spec fn bounded(self) -> bool {
        self.events.len() <= MAX_EVENTS
    }

    /// After `event` has been recorded: a full history loses its oldest event.
    pub open spec fn logged(self, event: EventView) -> StatsView {
        StatsView {
            events: if self.events.len() == MAX_EVENTS {
                self.events.drop_first().push(event)
            } else {
                self.events.push(event)
            },
            ..self
        }
    }

    /// After `event` has been recorded and has become the status line.
    pub open spec fn with_status(self, event: EventView) -> StatsView {
        StatsView { status: Some(event), ..self.logged(event) }
    }

    /// After one more connection has opened.
    pub open spec fn connected(self) -> StatsView {
        StatsView {
            connections: if self.connections == usize::MAX {
                0
            } else {
                (self.connections + 1) as usize
            },
            ..self
        }
    }

    /// After one connection has closed.
    pub open spec fn disconnected(self) -> StatsView {
        StatsView {
            connections: if self.connections == 0 {
                usize::MAX
            } else {
                (self.connections - 1) as usize
            },
            ..self
        }
    }

    /// After `count` bytes have been forwarded.
    pub open spec fn forwarded(self, direction: Direction, count: u64) -> StatsView {
        StatsView {
            transferred: match direction {
                Direction::Download => PerDirection {
                    download: wrapped(self.transferred.download + count),
                    ..self.transferred
                },
                Direction::Upload => PerDirection {
                    upload: wrapped(self.transferred.upload + count),
                    ..self.transferred
                },
            },
            ..self
        }
    }
}

/// `n` as a 64-bit counter shows it.
pub open spec fn wrapped(n: int) -> u64 {
    (n % 0x1_0000_0000_0000_0000) as u64
}

impl View for Stats {
    type V = StatsView;

    closed spec fn view(&self) -> StatsView {
        StatsView {
            transferred: self.transferred,
            connections: self.connections,
            listening: self.listening,
            status: match self.status {
                Some(event) => Some(event@),
                None => None,
            },
            events: self.events@.map_values(|event: Event| event@),
        }
    }
}

impl Default for Stats {
    fn default() -> (stats: Self)
        ensures
            stats@ == StatsView::empty(),
    {
        let stats = Stats {
            transferred: PerDirection { download: 0, upload: 0 },
            connections: 0,
            listening: false,
            status: None,
            events: VecDeque::new(),
        };
        assert(stats@.events =~= Seq::empty());
        stats
    }
}

impl Stats {
    /// Replaces the status line and also records it as an event.
    pub fn set_status(&mut self, at: u64, level: Level, text: String)
        ensures
            final(self)@ == old(self)@.with_status(EventView { at, level, text: text@ }),
    {
        let event = self.event(at, level, text);
        self.status = Some(event);
    }

    /// The status line.
    pub fn status(&self) -> (status: Option<Event>)
        ensures
            status is Some == self@.status is Some,
            status is Some ==> Some(status->0@) == self@.status,
    {
        match &self.status {
            Some(event) => Some(event.clone()),
            None => None,
        }
    }

    /// The bytes transferred in each direction.
    pub fn transferred(&self) -> (transferred: PerDirection<u64>)
        ensures
            transferred == self@.transferred,
    {
        self.transferred
    }

    /// How many connections there are.
    pub fn connections(&self) -> (connections: usize)
        ensures
            connections == self@.connections,
    {
        self.connections
    }

    /// Whether clients are accepted.
    pub fn listening(&self) -> (listening: bool)
        ensures
            listening == self@.listening,
    {
        self.listening
    }

    /// Copies the event history, oldest first.
    pub fn events(&self) -> (events: Vec<Event>)
        ensures
            events@.map_values(|event: Event| event@) == self@.events,
    {
        let mut copy: Vec<Event> = Vec::new();
        let mut i: usize = 0;
        while i < self.events.len()
            invariant
                i <= self.events.len(),
                copy@ == self.events@.take(i as int),
            decreases self.events.len() - i,
        {
            copy.push(self.events[i].clone());
            i += 1;
        }
        assert(copy@ =~= self.events@);
        copy
    }

    /// Records an event. A full history loses its oldest one.
    pub fn event(&mut self, at: u64, level: Level, text: String) -> (event: Event)
        ensures
            event@ == (EventView { at, level, text: text@ }),
            final(self)@ == old(self)@.logged(event@),
    {
        let event = Event { at, level, text };
        if self.events.len() == MAX_EVENTS {
            let _ = self.events.pop_front();
        }
        self.events.push_back(event.clone());
        assert(final(self)@.events =~= old(self)@.logged(event@).events);
        event
    }

    /// Says whether the proxy accepts clients.
    pub fn set_listening(&mut self, listening: bool)
        ensures
            final(self)@ == (StatsView { listening, ..old(self)@ }),
    {
        self.listening = listening;
    }

    /// Counts a connection that opens.
    pub fn connection_opened(&mut self)
        ensures
            final(self)@ == old(self)@.connected(),
    {
        self.connections = self.connections.wrapping_add(1);
    }

    /// Counts a connection that closes.
    pub fn connection_closed(&mut self)
        ensures
            final(self)@ == old(self)@.disconnected(),
    {
        self.connections = self.connections.wrapping_sub(1);
    }

    /// Counts `count` forwarded bytes.
    pub fn forward(&mut self, direction: Direction, count: u64)
        ensures
            final(self)@ == old(self)@.forwarded(direction, count),
    {
        match direction {
            Direction::Download => {
                self.transferred.download = self.transferred.download.wrapping_add(count);
            },
            Direction::Upload => {
                self.transferred.upload = self.transferred.upload.wrapping_add(count);
            },
        }
    }
}

/// The least of `high` and the greatest of `low` and `n`.
pub open spec fn clamped(n: int, low: int, high: int) -> int {
    if n < low {
        low
    } else if n > high {
        high
    } else {
        n
    }
}

/// How many bytes one read may take: about a tenth of a second of traffic, so
/// that slow links trickle instead of bursting and one connection's chunk cannot
/// hold the shared gate for long.
pub fn chunk_size(rate: Option<u64>) -> (size: usize)
    ensures
        size == match rate {
            Some(rate) => clamped(rate as int / 10, MIN_CHUNK as int, MAX_CHUNK as int),
            None => MAX_CHUNK as int,
        },
{
    match rate {
        Some(rate) => {
            let tenth: u64 = rate / 10;
            if tenth < MIN_CHUNK as u64 {
                MIN_CHUNK
            } else if tenth > MAX_CHUNK as u64 {
                MAX_CHUNK
            } else {
                tenth as usize
            }
        },
        None => MAX_CHUNK,
    }
}

/// A connection that opens and closes leaves the count as it was.
pub proof fn lemma_connections_balance(stats: StatsView)
    ensures
        stats.connected().disconnected() == stats,
{
}

/// The last `n` items of `s`, or all of them where there are fewer.
pub open spec fn latest<A>(s: Seq<A>, n: nat) -> Seq<A> {
    if s.len() <= n {
        s
    } else {
        s.skip(s.len() - n)
    }
}

/// After every event in `events` has been recorded, in order.
pub open spec fn logged_all(stats: StatsView, events: Seq<EventView>) -> StatsView
    decreases events.len(),
{
    if events.len() == 0 {
        stats
    } else {
        logged_all(stats, events.drop_last()).logged(events.last())
    }
}

/// The history is bounded: it always holds the latest `MAX_EVENTS` events, in the
/// order in which they happened.
pub proof fn lemma_history_keeps_the_latest(stats: StatsView, events: Seq<EventView>)
    requires
        stats.bounded(),
    ensures
        logged_all(stats, events).bounded(),
        logged_all(stats, events).events == latest(stats.events + events, MAX_EVENTS as nat),
    decreases events.len(),
{
    if events.len() == 0 {
        assert(stats.events + events =~= stats.events);
    } else {
        let before = events.drop_last();
        lemma_history_keeps_the_latest(stats, before);
        assert(stats.events + events =~= (stats.events + before).push(events.last()));
        assert(logged_all(stats, events).events =~= latest(
            stats.events + events,
            MAX_EVENTS as nat,
        ));
    }
}

/// The value for a direction is that direction's own, and both directions are listed.
pub proof fn lemma_directions_are_apart<T>(download: T, upload: T)
    ensures
        (PerDirection { download, upload }).at(Direction::Download) == download,
        (PerDirection { download, upload }).at(Direction::Upload) == upload,
{
}

/// Limits cap a direction exactly while they are on, at that direction's own rate, which
/// counts as one byte per second where it is zero. The other direction does not matter.
pub proof fn lemma_caps_are_their_own(limits: Limits, direction: Direction, other: Limits)
    ensures
        limits.rate_of(direction) is Some <==> limits.enabled,
        limits.rate_of(direction) matches Some(rate) ==> rate > 0 && (rate
            == limits.bytes_per_second.at(direction) || (rate == 1
            && limits.bytes_per_second.at(direction) == 0)),
        limits.enabled == other.enabled && limits.bytes_per_second.at(direction)
            == other.bytes_per_second.at(direction) ==> limits.rate_of(direction)
            == other.rate_of(direction),
{
}

/// The history holds the latest events and no others: each event of the past that is not
/// among the last `MAX_EVENTS` is gone, and the rest stand in the order in which they
/// happened. Recording one changes nothing else.
pub proof fn lemma_events_stay_in_order(stats: StatsView, events: Seq<EventView>)
    requires
        stats.bounded(),
    ensures
        ({
            let all = stats.events + events;
            let after = logged_all(stats, events);
            let n = after.events.len();
            &&& n == if all.len() < 100 {
                all.len() as int
            } else {
                100
            }
            &&& forall|i: int| 0 <= i < n ==> #[trigger] after.events[i] == all[all.len() - n + i]
            &&& after.transferred == stats.transferred
            &&& after.connections == stats.connections
            &&& after.listening == stats.listening
            &&& after.status == stats.status
        }),
    decreases events.len(),
{
    lemma_history_keeps_the_latest(stats, events);
    if events.len() > 0 {
        lemma_events_stay_in_order(stats, events.drop_last());
    }
}

/// An event that is recorded is the last one of the history, and those before it are the
/// ones that were there, but for the oldest where the history was full.
pub proof fn lemma_event_is_recorded(stats: StatsView, event: EventView)
    requires
        stats.bounded(),
    ensures
        ({
            let after = stats.logged(event);
            &&& after.bounded()
            &&& after.events.len() > 0
            &&& after.events.last() == event
            &&& stats.events.len() < MAX_EVENTS ==> after.events.drop_last() == stats.events
            &&& stats.events.len() == MAX_EVENTS ==> after.events.drop_last()
                == stats.events.drop_first()
            &&& after == (StatsView { events: after.events, ..stats })
        }),
{
    let after = stats.logged(event);
    if stats.events.len() < MAX_EVENTS {
        assert(after.events.drop_last() =~= stats.events);
    } else {
        assert(after.events.drop_last() =~= stats.events.drop_first());
    }
}

/// The status line is the event that was set last, which is also recorded.
pub proof fn lemma_status_is_the_last_set(stats: StatsView, event: EventView, later: EventView)
    requires
        stats.bounded(),
    ensures
        stats.with_status(event).status == Some(event),
        stats.with_status(event).events == stats.logged(event).events,
        stats.with_status(event).events.last() == event,
        stats.with_status(event).transferred == stats.transferred,
        stats.with_status(event).connections == stats.connections,
        stats.with_status(event).listening == stats.listening,
        stats.with_status(event).logged(later).status == Some(event),
        stats.with_status(event).with_status(later).status == Some(later),
{
    lemma_event_is_recorded(stats, event);
}

/// Each connection that opens counts one more, and each that closes one less. Nothing
/// else changes.
pub proof fn lemma_connections_count_by_one(stats: StatsView)
    ensures
        stats.connections < usize::MAX ==> stats.connected().connections == stats.connections + 1,
        stats.connections > 0 ==> stats.disconnected().connections == stats.connections - 1,
        stats.connected() == (StatsView { connections: stats.connected().connections, ..stats }),
        stats.disconnected() == (StatsView {
            connections: stats.disconnected().connections,
            ..stats
        }),
        stats.disconnected().connected() == stats,
{
}

/// Forwarded bytes are added to the counter of their own direction, which starts over after
/// 64 bits. Nothing else changes.
pub proof fn lemma_forwarded_bytes_add_up(stats: StatsView, direction: Direction, count: u64)
    ensures
        ({
            let after = stats.forwarded(direction, count);
            let (old_count, new_count) = (
                stats.transferred.at(direction),
                after.transferred.at(direction),
            );
            &&& old_count + count <= u64::MAX ==> new_count == old_count + count
            &&& old_count + count > u64::MAX ==> new_count == old_count + count - u64::MAX - 1
            &&& forall|other: Direction|
                other != direction ==> after.transferred.at(other) == #[trigger] stats.transferred.at(
                    other,
                )
            &&& after == (StatsView { transferred: after.transferred, ..stats })
        }),
{
}

/// A run starts with nothing counted and nothing recorded.
pub proof fn lemma_nothing_at_first()
    ensures
        StatsView::empty().events.len() == 0,
        StatsView::empty().status is None,
        StatsView::empty().connections == 0,
        !StatsView::empty().listening,
        StatsView::empty().transferred.download == 0,
        StatsView::empty().transferred.upload == 0,
        StatsView::empty().bounded(),
{
}

/// A clamped number lies between the bounds, and only one outside of them is moved, to the
/// nearer bound.
pub proof fn lemma_clamped_is_within(n: int, low: int, high: int)
    requires
        low <= high,
    ensures
        low <= clamped(n, low, high) <= high,
        low <= n <= high ==> clamped(n, low, high) == n,
        n <= low ==> clamped(n, low, high) == low,
        n >= high ==> clamped(n, low, high) == high,
{
}

/// The latest items of a list are its end, as many as asked for, or all that there are.
pub proof fn lemma_latest_is_the_end<A>(s: Seq<A>, n: nat)
    ensures
        latest(s, n).len() <= n,
        latest(s, n).len() <= s.len(),
        latest(s, n).len() == n || latest(s, n).len() == s.len(),
        s == s.take(s.len() - latest(s, n).len()) + latest(s, n),
{
    assert(s =~= s.take(s.len() - latest(s, n).len()) + latest(s, n));
}

/// A counter shows a sum as it is while it fits, and starts again from zero beyond that.
pub proof fn lemma_counter_wraps(n: int)
    requires
        n >= 0,
    ensures
        n <= u64::MAX ==> wrapped(n) == n,
        wrapped(n + 0x1_0000_0000_0000_0000) == wrapped(n),
{
}

} // verus!
