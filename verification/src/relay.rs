//! One connection: where it leads and how its bytes move.

use crate::proxy::{chunk_size, clamped, Direction, Limits, Stats, StatsView, MAX_CHUNK, MIN_CHUNK, NETWORK_TIMEOUT_SECONDS};
use crate::text::{append_number, decimal, joined3};
use crate::double::TOP;
use crate::gate::{transfer_time, SECOND};
use vstd::prelude::*;

verus! {

/// The destination as the user typed it, plus every address it resolved to, each
/// as text.
#[derive(Debug)]
pub struct Destination {
    pub name: String,
    pub addresses: Vec<String>,
}

/// The texts in `parts` with a comma and a space between them.
pub open spec fn listed(parts: Seq<Seq<char>>) -> Seq<char>
    decreases parts.len(),
{
    if parts.len() == 0 {
        Seq::empty()
    } else if parts.len() == 1 {
        parts[0]
    } else {
        listed(parts.drop_last()) + ", "@ + parts.last()
    }
}

/// The contents of `texts`.
pub open spec fn texts_of(texts: Seq<String>) -> Seq<Seq<char>> {
    texts.map_values(|text: String| text@)
}

impl Destination {
    /// The name, and the addresses in parentheses.
    pub open spec fn description(self) -> Seq<char> {
        self.name@ + " ("@ + listed(texts_of(self.addresses@)) + ")"@
    }

    /// The name, and the addresses in parentheses.
    pub fn describe(&self) -> (text: String)
        ensures
            text@ == self.description(),
    {
        let ghost parts = texts_of(self.addresses@);
        let mut out = String::new();
        let mut i: usize = 0;
        assert(parts.take(0) =~= Seq::empty());
        while i < self.addresses.len()
            invariant
                parts == texts_of(self.addresses@),
                i <= self.addresses.len(),
                out@ == listed(parts.take(i as int)),
            decreases self.addresses.len() - i,
        {
            proof {
                let next = parts.take(i + 1);
                assert(next.drop_last() =~= parts.take(i as int));
                assert(next.last() == self.addresses[i as int]@);
            }
            if i > 0 {
                out.append(", ");
            } else {
                assert(Seq::<char>::empty() + parts[0] =~= parts[0]);
            }
            out.append(self.addresses[i].as_str());
            i += 1;
        }
        assert(parts.take(i as int) =~= parts);
        let mut text = joined3(self.name.as_str(), " (", out.as_str());
        text.append(")");
        text
    }

    /// Why a client could not be connected.
    pub fn unreachable(&self, error: &str) -> (text: String)
        ensures
            text@ == "Could not reach "@ + self.description() + ": "@ + error@,
    {
        let description = self.describe();
        let mut text = joined3("Could not reach ", description.as_str(), ": ");
        text.append(error);
        text
    }
}

/// Why a lookup or a connection attempt ended without a result.
pub fn timeout_text() -> (text: String)
    ensures
        text@ == "timed out after "@ + decimal(NETWORK_TIMEOUT_SECONDS as nat) + " s"@,
{
    let mut text = "timed out after ".to_owned();
    append_number(&mut text, NETWORK_TIMEOUT_SECONDS as u128);
    text.append(" s");
    text
}

/// What the caller of a `Pump` does next.
#[derive(Clone, Copy, Debug, PartialEq, Eq, Structural)]
pub enum PumpAction {
    /// Read at most this many bytes.
    Read(usize),
    /// Pass the bytes just read, this many, through its gate.
    Pass(usize),
    /// Write the bytes that passed, this many.
    Write(usize),
    /// Close the writing side: the reading side has ended.
    Shutdown,
}

/// Where a pump stands.
#[derive(Clone, Copy, Debug, PartialEq, Eq, Structural)]
pub enum PumpPhase {
    Reading { size: usize },
    Passing { count: usize },
    Writing { count: usize },
    Ended,
}

/// What happens to a pump.
pub enum PumpEvent {
    /// A read gave this many bytes.
    Received { count: usize },
    /// The chunk passed its gate.
    Passed,
    /// The chunk was written, and the next read may take this many bytes.
    Written { size: usize },
}

impl PumpPhase {
    /// Where a pump stands after `event`. An event that does not fit changes nothing.
    pub open spec fn after(self, event: PumpEvent) -> PumpPhase {
        match (self, event) {
            (PumpPhase::Reading { .. }, PumpEvent::Received { count }) => if count == 0 {
                PumpPhase::Ended
            } else {
                PumpPhase::Passing { count }
            },
            (PumpPhase::Passing { count }, PumpEvent::Passed) => PumpPhase::Writing { count },
            (PumpPhase::Writing { .. }, PumpEvent::Written { size }) => PumpPhase::Reading { size },
            _ => self,
        }
    }

    /// What a pump that stands here does next.
    pub open spec fn action(self) -> PumpAction {
        match self {
            PumpPhase::Reading { size } => PumpAction::Read(size),
            PumpPhase::Passing { count } => PumpAction::Pass(count),
            PumpPhase::Writing { count } => PumpAction::Write(count),
            PumpPhase::Ended => PumpAction::Shutdown,
        }
    }

    /// How many bytes have been read and not yet written.
    pub open spec fn in_flight(self) -> int {
        match self {
            PumpPhase::Passing { count } => count as int,
            PumpPhase::Writing { count } => count as int,
            _ => 0,
        }
    }
}

/// One direction of one connection: reads a chunk, passes it through its gate and
/// writes it, until the reading side ends.
#[derive(Debug)]
pub struct Pump {
    pub direction: Direction,
    pub phase: PumpPhase,
}

/// How many bytes a pump reads at once under `limits`.
pub open spec fn read_size(limits: Limits, direction: Direction) -> int {
    match limits.rate_of(direction) {
        Some(rate) => clamped(rate as int / 10, MIN_CHUNK as int, MAX_CHUNK as int),
        None => MAX_CHUNK as int,
    }
}

impl Pump {
    /// Starts with a read whose size fits `limits`.
    pub fn begin(direction: Direction, limits: Limits) -> (res: (Pump, PumpAction))
        ensures
            res.0.direction == direction,
            res.0.phase == (PumpPhase::Reading { size: read_size(limits, direction) as usize }),
            res.1 == res.0.phase.action(),
    {
        let size: usize = chunk_size(limits.rate(direction));
        (Pump { direction, phase: PumpPhase::Reading { size } }, PumpAction::Read(size))
    }

    /// A read gave `count` bytes. None at all means that the reading side has ended.
    pub fn received(&mut self, count: usize) -> (action: PumpAction)
        requires
            old(self).phase is Reading,
            count <= old(self).phase->size,
        ensures
            final(self).direction == old(self).direction,
            final(self).phase == old(self).phase.after(PumpEvent::Received { count }),
            action == final(self).phase.action(),
    {
        if count == 0 {
            self.phase = PumpPhase::Ended;
            PumpAction::Shutdown
        } else {
            self.phase = PumpPhase::Passing { count };
            PumpAction::Pass(count)
        }
    }

    /// The chunk has passed its gate.
    pub fn passed(&mut self) -> (action: PumpAction)
        requires
            old(self).phase is Passing,
        ensures
            final(self).direction == old(self).direction,
            final(self).phase == old(self).phase.after(PumpEvent::Passed),
            action == final(self).phase.action(),
    {
        match self.phase {
            PumpPhase::Passing { count } => {
                self.phase = PumpPhase::Writing { count };
                PumpAction::Write(count)
            },
            _ => PumpAction::Shutdown,
        }
    }

    /// The chunk has been written: it counts as transferred, and the next read
    /// follows.
    pub fn written(&mut self, stats: &mut Stats, limits: Limits) -> (action: PumpAction)
        requires
            old(self).phase is Writing,
        ensures
            final(self).direction == old(self).direction,
            final(self).phase == old(self).phase.after(
                PumpEvent::Written { size: read_size(limits, old(self).direction) as usize },
            ),
            action == final(self).phase.action(),
            final(stats)@ == old(stats)@.forwarded(
                old(self).direction,
                old(self).phase.in_flight() as u64,
            ),
    {
        match self.phase {
            PumpPhase::Writing { count } => {
                stats.forward(self.direction, count as u64);
            },
            _ => {},
        }
        let size: usize = chunk_size(limits.rate(self.direction));
        self.phase = PumpPhase::Reading { size };
        PumpAction::Read(size)
    }
}

/// Where a pump stands after all of `events`.
pub open spec fn phase_after(start: PumpPhase, events: Seq<PumpEvent>) -> PumpPhase
    decreases events.len(),
{
    if events.len() == 0 {
        start
    } else {
        phase_after(start, events.drop_last()).after(events.last())
    }
}

/// How many bytes a pump has read in the course of `events`.
pub open spec fn bytes_read(start: PumpPhase, events: Seq<PumpEvent>) -> int
    decreases events.len(),
{
    if events.len() == 0 {
        0
    } else {
        bytes_read(start, events.drop_last()) + match (
            phase_after(start, events.drop_last()),
            events.last(),
        ) {
            (PumpPhase::Reading { .. }, PumpEvent::Received { count }) => count as int,
            _ => 0,
        }
    }
}

/// How many bytes a pump has written in the course of `events`.
pub open spec fn bytes_written(start: PumpPhase, events: Seq<PumpEvent>) -> int
    decreases events.len(),
{
    if events.len() == 0 {
        0
    } else {
        bytes_written(start, events.drop_last()) + match (
            phase_after(start, events.drop_last()),
            events.last(),
        ) {
            (PumpPhase::Writing { count }, PumpEvent::Written { .. }) => count as int,
            _ => 0,
        }
    }
}

/// A pump writes every byte that it reads: at any time, all but the chunk in flight
/// have been written, and when it closes the writing side, all of them.
pub proof fn lemma_every_byte_is_forwarded(size: usize, events: Seq<PumpEvent>)
    ensures
        ({
            let start = PumpPhase::Reading { size };
            let phase = phase_after(start, events);
            &&& bytes_read(start, events) == bytes_written(start, events) + phase.in_flight()
            &&& phase is Ended ==> bytes_read(start, events) == bytes_written(start, events)
        }),
    decreases events.len(),
{
    if events.len() > 0 {
        lemma_every_byte_is_forwarded(size, events.drop_last());
    }
}

/// A pump that has closed the writing side stays as it is.
pub proof fn lemma_ended_stays_ended(events: Seq<PumpEvent>)
    ensures
        phase_after(PumpPhase::Ended, events) == PumpPhase::Ended,
        bytes_written(PumpPhase::Ended, events) == 0,
    decreases events.len(),
{
    if events.len() > 0 {
        lemma_ended_stays_ended(events.drop_last());
    }
}

/// What `stats` show after chunks of the sizes in `counts` have been written.
pub open spec fn forwarded_all(
    stats: StatsView,
    direction: Direction,
    counts: Seq<u64>,
) -> StatsView
    decreases counts.len(),
{
    if counts.len() == 0 {
        stats
    } else {
        forwarded_all(stats, direction, counts.drop_last()).forwarded(direction, counts.last())
    }
}

/// The sum of `counts`.
pub open spec fn sum(counts: Seq<u64>) -> int
    decreases counts.len(),
{
    if counts.len() == 0 {
        0
    } else {
        sum(counts.drop_last()) + counts.last()
    }
}

/// The transfer counter shows the bytes of all chunks together, as a 64-bit
/// counter does, and nothing else changes.
pub proof fn lemma_every_chunk_counts(stats: StatsView, direction: Direction, counts: Seq<u64>)
    ensures
        forwarded_all(stats, direction, counts).transferred.at(direction) == (
        stats.transferred.at(direction) + sum(counts)) % 0x1_0000_0000_0000_0000,
        forall|other: Direction|
            other != direction ==> forwarded_all(stats, direction, counts).transferred.at(other)
                == stats.transferred.at(other),
        forwarded_all(stats, direction, counts).events == stats.events,
        forwarded_all(stats, direction, counts).status == stats.status,
        forwarded_all(stats, direction, counts).connections == stats.connections,
        forwarded_all(stats, direction, counts).listening == stats.listening,
    decreases counts.len(),
{
    if counts.len() > 0 {
        let before = counts.drop_last();
        lemma_every_chunk_counts(stats, direction, before);
        let base = stats.transferred.at(direction);
        vstd::arithmetic::div_mod::lemma_add_mod_noop_right(
            counts.last() as int,
            base + sum(before),
            0x1_0000_0000_0000_0000,
        );
        assert(base + sum(counts) == counts.last() + (base + sum(before)));
    }
}

/// From 640 bytes per second on, a chunk holds no more than a tenth of a second of
/// traffic, so slow links trickle and no chunk holds its gate for long.
pub proof fn lemma_chunk_is_a_tenth_of_a_second(limits: Limits, direction: Direction)
    requires
        limits.rate_of(direction) is Some,
        limits.rate_of(direction)->0 >= 10 * MIN_CHUNK,
    ensures
        MIN_CHUNK <= read_size(limits, direction) <= MAX_CHUNK,
        transfer_time(
            read_size(limits, direction) as nat,
            limits.rate_of(direction)->0 as nat,
        ) <= SECOND / 10,
{
    let rate = limits.rate_of(direction)->0 as nat;
    let size = read_size(limits, direction) as nat;
    let t = transfer_time(size, rate);
    crate::gate::lemma_transfer_time_is_near(size, rate);
    let (top, most) = (TOP as int, 100_000_000int);
    // The bytes take at most a tenth of a second, and what is lost is far less than half
    // a nanosecond.
    assert(2 * size * SECOND <= rate * (2 * most)) by (nonlinear_arith)
        requires
            10 * size <= rate,
            SECOND == 10 * most,
            most > 0,
    ;
    if t > most {
        assert(top * rate * (2 * t) >= top * rate * (2 * most + 2)) by (nonlinear_arith)
            requires
                t > most,
                top > 0,
        ;
        assert(2 * size * SECOND * (top + 4) <= rate * (2 * most) * (top + 4)) by (nonlinear_arith)
            requires
                2 * size * SECOND <= rate * (2 * most),
                top > 0,
        ;
        assert(false) by (nonlinear_arith)
            requires
                top * rate * (2 * most + 2) <= top * rate + rate * (2 * most) * (top + 4),
                rate > 0,
                top == 0x20_0000_0000_0000,
                most == 100_000_000,
        ;
    }
}

/// A pump closes the writing side only after a read that gave no bytes: there is such an
/// event, it came while the pump was reading, and the pump had not ended before it.
pub proof fn lemma_only_an_empty_read_ends(size: usize, events: Seq<PumpEvent>)
    requires
        phase_after(PumpPhase::Reading { size }, events) is Ended,
    ensures
        exists|i: int|
            0 <= i < events.len() && #[trigger] events[i] == (PumpEvent::Received { count: 0 })
                && phase_after(PumpPhase::Reading { size }, events.take(i)) is Reading,
    decreases events.len(),
{
    let start = PumpPhase::Reading { size };
    let before = events.drop_last();
    if phase_after(start, before) is Ended {
        lemma_only_an_empty_read_ends(size, before);
        let i = choose|i: int|
            0 <= i < before.len() && #[trigger] before[i] == (PumpEvent::Received { count: 0 })
                && phase_after(start, before.take(i)) is Reading;
        assert(events[i] == before[i]);
        assert(events.take(i) =~= before.take(i));
    } else {
        let i = events.len() - 1;
        assert(events.take(i) =~= before);
        assert(events[i] == (PumpEvent::Received { count: 0 }));
    }
}

/// A chunk of any size goes through: it is passed, it is written, and then the pump reads
/// on, with the size that it was given. At each point it does what comes next, with all of
/// the bytes that were read.
pub proof fn lemma_chunk_goes_through(size: usize, count: usize, next: usize)
    requires
        count > 0,
    ensures
        ({
            let reading = PumpPhase::Reading { size };
            let passing = reading.after(PumpEvent::Received { count });
            let writing = passing.after(PumpEvent::Passed);
            let again = writing.after(PumpEvent::Written { size: next });
            &&& reading.action() == PumpAction::Read(size)
            &&& passing.action() == PumpAction::Pass(count)
            &&& writing.action() == PumpAction::Write(count)
            &&& again.action() == PumpAction::Read(next)
            &&& again == (PumpPhase::Reading { size: next })
            &&& reading.in_flight() == 0
            &&& passing.in_flight() == count
            &&& writing.in_flight() == count
            &&& again.in_flight() == 0
        }),
{
}

/// An empty read, and nothing else, makes a pump that reads close the writing side.
pub proof fn lemma_end_of_reading(size: usize, event: PumpEvent)
    ensures
        ({
            let after = (PumpPhase::Reading { size }).after(event);
            &&& after.action() == PumpAction::Shutdown <==> event == (PumpEvent::Received {
                count: 0,
            })
            &&& after.action() == PumpAction::Shutdown <==> after is Ended
            &&& !(event is Received) ==> after == (PumpPhase::Reading { size })
        }),
{
}

/// A pump goes from reading to passing to writing and back, and no other way: an event that
/// does not fit leaves it where it is.
pub proof fn lemma_pump_goes_round(phase: PumpPhase, event: PumpEvent)
    ensures
        ({
            let after = phase.after(event);
            &&& phase is Passing && event is Passed ==> after == (PumpPhase::Writing {
                count: phase->Passing_count,
            })
            &&& phase is Passing && !(event is Passed) ==> after == phase
            &&& phase is Writing && event is Written ==> after == (PumpPhase::Reading {
                size: event->size,
            })
            &&& phase is Writing && !(event is Written) ==> after == phase
            &&& phase is Ended ==> after == phase
        }),
{
}

/// The events of chunks with the sizes in `counts`, each of which is read, passed and
/// written, with reads of `size` bytes.
pub open spec fn chunk_events(counts: Seq<usize>, size: usize) -> Seq<PumpEvent>
    decreases counts.len(),
{
    if counts.len() == 0 {
        Seq::empty()
    } else {
        chunk_events(counts.drop_last(), size).push(
            PumpEvent::Received { count: counts.last() },
        ).push(PumpEvent::Passed).push(PumpEvent::Written { size })
    }
}

/// However many chunks of whatever sizes go through, a pump reads on after them, and has
/// written as many bytes as they hold together.
pub proof fn lemma_traffic_goes_on(counts: Seq<usize>, size: usize)
    requires
        forall|i: int| 0 <= i < counts.len() ==> #[trigger] counts[i] > 0,
    ensures
        ({
            let start = PumpPhase::Reading { size };
            let events = chunk_events(counts, size);
            &&& phase_after(start, events) == start
            &&& bytes_written(start, events) == bytes_read(start, events)
            &&& bytes_written(start, events) == counts.fold_left(0int, |n: int, c: usize| n + c)
        }),
    decreases counts.len(),
{
    let start = PumpPhase::Reading { size };
    if counts.len() > 0 {
        let before = counts.drop_last();
        assert forall|i: int| 0 <= i < before.len() implies #[trigger] before[i] > 0 by {
            assert(before[i] == counts[i]);
        }
        lemma_traffic_goes_on(before, size);
        let earlier = chunk_events(before, size);
        let a = earlier.push(PumpEvent::Received { count: counts.last() });
        let b = a.push(PumpEvent::Passed);
        let c = b.push(PumpEvent::Written { size });
        assert(counts.last() > 0);
        assert(a.drop_last() =~= earlier);
        assert(b.drop_last() =~= a);
        assert(c.drop_last() =~= b);
        assert(phase_after(start, a) == (PumpPhase::Passing { count: counts.last() }));
        assert(phase_after(start, b) == (PumpPhase::Writing { count: counts.last() }));
        reveal_with_fuel(bytes_written, 4);
        reveal_with_fuel(bytes_read, 4);
    }
}

/// A read takes a tenth of a second of traffic, in whole bytes, but not fewer than 64 bytes
/// and not more than 4096, which it also takes while limits are off.
pub proof fn lemma_read_is_about_a_tenth(limits: Limits, direction: Direction)
    ensures
        ({
            let size = read_size(limits, direction);
            let rate = limits.bytes_per_second.at(direction);
            &&& 64 <= size <= 4096
            &&& !limits.enabled ==> size == 4096
            &&& limits.enabled && size < 4096 ==> rate < 10 * (size + 1)
            &&& limits.enabled && size > 64 ==> 10 * size <= rate
        }),
{
}

/// A list of texts holds each of them, with a comma and a space between any two.
pub proof fn lemma_list_grows_at_its_end(parts: Seq<Seq<char>>, part: Seq<char>)
    ensures
        listed(Seq::empty()) == Seq::<char>::empty(),
        listed(seq![part]) == part,
        parts.len() > 0 ==> listed(parts.push(part)) == listed(parts) + seq![',', ' '] + part,
{
    reveal_strlit(", ");
    assert(", "@ =~= seq![',', ' ']);
    assert(parts.push(part).drop_last() =~= parts);
}

/// A destination is described by its name and, in parentheses, all its addresses.
pub proof fn lemma_description_names_all(destination: Destination)
    ensures
        destination.description() == destination.name@ + seq![' ', '('] + listed(
            texts_of(destination.addresses@),
        ) + seq![')'],
{
    reveal_strlit(" (");
    reveal_strlit(")");
    assert(" ("@ =~= seq![' ', '(']);
    assert(")"@ =~= seq![')']);
}

} // verus!
