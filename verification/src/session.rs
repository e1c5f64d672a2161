//! One run of the proxy, as the user follows it.

use crate::graph::{in_order, measured, push_sample, pushed, Rate, Sample, MAX_SAMPLES, SAMPLE_NANOS};
use crate::proxy::{EventView, Level, Limits, PerDirection, Stats, StatsView};
use crate::text::joined;
use std::collections::VecDeque;
use vstd::prelude::*;

verus! {

/// What a run is doing.
#[derive(Clone, Copy, Debug, PartialEq, Eq, Structural)]
pub enum Status {
    Offline,
    Starting,
    Listening,
    Stopping,
}

impl Status {
    /// The name that is shown for this status.
    pub open spec fn label_text(self) -> Seq<char> {
        match self {
            Status::Offline => "Offline"@,
            Status::Starting => "Starting"@,
            Status::Listening => "Listening"@,
            Status::Stopping => "Stopping"@,
        }
    }

    /// The name of this status.
    pub fn label(self) -> (text: &'static str)
        ensures
            text@ == self.label_text(),
    {
        match self {
            Status::Offline => "Offline",
            Status::Starting => "Starting",
            Status::Listening => "Listening",
            Status::Stopping => "Stopping",
        }
    }
}

/// Why a run ended by itself.
#[derive(Debug)]
pub enum RunError {
    /// The worker could not start.
    Runtime(String),
    /// The proxy failed.
    Proxy(String),
}

/// What has become of the worker of a run.
#[derive(Clone, Copy, Debug, PartialEq, Eq, Structural)]
pub enum Worker {
    Running,
    Finished,
    Panicked,
}

/// One run of the proxy. It keeps its traffic history after the worker ends, so the
/// last run can still be shown. Times are nanoseconds on one clock.
#[derive(Debug)]
pub struct Session {
    limits: Limits,
    running: bool,
    stopping: bool,
    pub samples: VecDeque<Sample>,
    pub totals: PerDirection<u64>,
    sampled_at: u64,
    pub started: u64,
}

/// The contents of a `Session`.
#[verifier::ext_equal]
pub struct SessionView {
    pub limits: Limits,
    pub running: bool,
    pub stopping: bool,
    pub samples: Seq<Sample>,
    pub totals: PerDirection<u64>,
    pub sampled_at: u64,
    pub started: u64,
}

impl View for Session {
    type V = SessionView;

    closed spec fn view(&self) -> SessionView {
        SessionView {
            limits: self.limits,
            running: self.running,
            stopping: self.stopping,
            samples: self.samples@,
            totals: self.totals,
            sampled_at: self.sampled_at,
            started: self.started,
        }
    }
}

/// `a - b`, or zero where that is negative.
pub open spec fn minus(a: u64, b: u64) -> u64 {
    if a > b {
        (a - b) as u64
    } else {
        0
    }
}

fn subtract(a: u64, b: u64) -> (rest: u64)
    ensures
        rest == minus(a, b),
{
    if a > b {
        a - b
    } else {
        0
    }
}

impl SessionView {
    /// A run that starts at `now`.
    pub open spec fn starting(now: u64, limits: Limits) -> SessionView {
        SessionView {
            limits,
            running: true,
            stopping: false,
            samples: Seq::empty(),
            totals: PerDirection { download: 0, upload: 0 },
            sampled_at: now,
            started: now,
        }
    }

    /// The history is bounded, in order, and up to the last time it was sampled.
    pub open spec fn consistent(self) -> bool {
        &&& self.started <= self.sampled_at
        &&& self.samples.len() <= MAX_SAMPLES
        &&& in_order(self.samples)
        &&& measured(self.samples)
        &&& forall|i: int|
            0 <= i < self.samples.len() ==> (#[trigger] self.samples[i]).at <= self.sampled_at
                - self.started
    }

    /// What the run is doing.
    pub open spec fn status(self, listening: bool) -> Status {
        if !self.running {
            Status::Offline
        } else if self.stopping {
            Status::Stopping
        } else if listening {
            Status::Listening
        } else {
            Status::Starting
        }
    }

    /// The latest rates, or none before the first sample.
    pub open spec fn latest(self) -> PerDirection<Rate> {
        if self.samples.len() > 0 {
            self.samples.last().kib_per_second
        } else {
            PerDirection { download: Rate::none(), upload: Rate::none() }
        }
    }

    /// A sample is due at `now`.
    pub open spec fn sample_due(self, now: u64) -> bool {
        self.running && minus(now, self.sampled_at) >= SAMPLE_NANOS
    }

    /// The sample at `now`, with `transferred` bytes so far.
    pub open spec fn next_sample(self, now: u64, transferred: PerDirection<u64>) -> Sample {
        let nanos = minus(now, self.sampled_at);
        Sample {
            at: minus(now, self.started),
            kib_per_second: PerDirection {
                download: Rate {
                    bytes: minus(transferred.download, self.totals.download),
                    nanos,
                },
                upload: Rate { bytes: minus(transferred.upload, self.totals.upload), nanos },
            },
        }
    }

    /// After a look at the counters at `now`: a sample is recorded if one is due.
    pub open spec fn sampled(self, now: u64, transferred: PerDirection<u64>) -> SessionView {
        if self.sample_due(now) {
            SessionView {
                samples: pushed(self.samples, self.next_sample(now, transferred)),
                totals: transferred,
                sampled_at: now,
                ..self
            }
        } else {
            self
        }
    }
}

/// The status line of a run that starts at `now`.
pub open spec fn starting_event(now: u64) -> EventView {
    EventView {
        at: now,
        level: Level::Info,
        text: "Starting listener and resolving destination..."@,
    }
}

/// The status line of a run whose worker was lost.
pub open spec fn lost_event(now: u64) -> EventView {
    EventView { at: now, level: Level::Error, text: "Proxy worker stopped unexpectedly."@ }
}

/// The status line of a run that failed.
pub open spec fn failed_event(now: u64, error: RunError) -> EventView {
    EventView {
        at: now,
        level: Level::Error,
        text: match error {
            RunError::Runtime(error) => "Runtime error: "@ + error@,
            RunError::Proxy(error) => "Proxy error: "@ + error@,
        },
    }
}

/// Records how a run ended. It accepts no more clients either way.
pub fn finish_run(stats: &mut Stats, now: u64, result: Result<(), RunError>)
    ensures
        final(stats)@ == (StatsView {
            listening: false,
            ..match result {
                Ok(_) => old(stats)@,
                Err(error) => old(stats)@.with_status(failed_event(now, error)),
            }
        }),
{
    match result {
        Ok(_) => {},
        Err(RunError::Runtime(error)) => {
            stats.set_status(now, Level::Error, joined("Runtime error: ", error.as_str()));
        },
        Err(RunError::Proxy(error)) => {
            stats.set_status(now, Level::Error, joined("Proxy error: ", error.as_str()));
        },
    }
    stats.set_listening(false);
}

impl Session {
    /// Starts a run, whose counters are all zero.
    pub fn start(now: u64, limits: Limits) -> (res: (Self, Stats))
        ensures
            res.0@ == SessionView::starting(now, limits),
            res.0@.consistent(),
            res.1@ == StatsView::empty().with_status(starting_event(now)),
    {
        let mut stats = Stats::default();
        stats.set_status(
            now,
            Level::Info,
            "Starting listener and resolving destination...".to_owned(),
        );
        let session = Session {
            limits,
            running: true,
            stopping: false,
            samples: VecDeque::new(),
            totals: PerDirection { download: 0, upload: 0 },
            sampled_at: now,
            started: now,
        };
        assert(session@.samples =~= Seq::empty());
        (session, stats)
    }

    /// Whether the worker is still there.
    pub fn running(&self) -> (running: bool)
        ensures
            running == self@.running,
    {
        self.running
    }

    /// What the run is doing, given whether it accepts clients.
    pub fn status(&self, listening: bool) -> (status: Status)
        ensures
            status == self@.status(listening),
    {
        if !self.running {
            Status::Offline
        } else if self.stopping {
            Status::Stopping
        } else if listening {
            Status::Listening
        } else {
            Status::Starting
        }
    }

    /// Notes that the worker has been told to stop.
    pub fn stop(&mut self)
        ensures
            final(self)@ == (SessionView { stopping: true, ..old(self)@ }),
    {
        self.stopping = true;
    }

    /// Makes `limits` current, and says whether they differ from those before.
    pub fn set_limits(&mut self, limits: Limits) -> (changed: bool)
        ensures
            changed == (old(self)@.limits != limits),
            final(self)@ == (SessionView { limits, ..old(self)@ }),
    {
        let changed = self.limits != limits;
        self.limits = limits;
        changed
    }

    /// Notes that the worker has ended, on its own or after `stop`.
    pub fn reap(&mut self, worker: Worker, stats: &mut Stats, now: u64)
        ensures
            final(self)@ == (SessionView {
                running: old(self)@.running && worker == Worker::Running,
                ..old(self)@
            }),
            final(stats)@ == if old(self)@.running && worker == Worker::Panicked {
                StatsView { listening: false, ..old(stats)@.with_status(lost_event(now)) }
            } else {
                old(stats)@
            },
    {
        if !self.running {
            return;
        }
        match worker {
            Worker::Running => {},
            Worker::Finished => {
                self.running = false;
            },
            Worker::Panicked => {
                self.running = false;
                stats.set_listening(false);
                stats.set_status(
                    now,
                    Level::Error,
                    "Proxy worker stopped unexpectedly.".to_owned(),
                );
            },
        }
    }

    /// The traffic history.
    pub fn samples(&self) -> (samples: &VecDeque<Sample>)
        ensures
            samples@ == self@.samples,
    {
        &self.samples
    }

    /// The bytes transferred up to the last sample.
    pub fn totals(&self) -> (totals: PerDirection<u64>)
        ensures
            totals == self@.totals,
    {
        self.totals
    }

    /// When the run started.
    pub fn started(&self) -> (started: u64)
        ensures
            started == self@.started,
    {
        self.started
    }

    /// The latest rates, or none before the first sample.
    pub fn latest(&self) -> (rates: PerDirection<Rate>)
        ensures
            rates == self@.latest(),
    {
        if self.samples.len() > 0 {
            self.samples[self.samples.len() - 1].kib_per_second
        } else {
            PerDirection { download: Rate::idle(), upload: Rate::idle() }
        }
    }

    /// Records the transfer rates since the last sample, at most every `SAMPLE_NANOS`.
    pub fn sample(&mut self, now: u64, transferred: PerDirection<u64>)
        ensures
            final(self)@ == old(self)@.sampled(now, transferred),
            old(self)@.consistent() ==> final(self)@.consistent(),
    {
        let nanos: u64 = subtract(now, self.sampled_at);
        if !self.running || nanos < SAMPLE_NANOS {
            return;
        }
        let sample = Sample {
            at: subtract(now, self.started),
            kib_per_second: PerDirection {
                download: Rate {
                    bytes: subtract(transferred.download, self.totals.download),
                    nanos,
                },
                upload: Rate { bytes: subtract(transferred.upload, self.totals.upload), nanos },
            },
        };
        push_sample(&mut self.samples, sample);
        self.totals = transferred;
        self.sampled_at = now;
    }
}

/// The bytes that the samples in `samples` count in each direction.
pub open spec fn sampled_bytes(samples: Seq<Sample>) -> (int, int)
    decreases samples.len(),
{
    if samples.len() == 0 {
        (0, 0)
    } else {
        let before = sampled_bytes(samples.drop_last());
        let last = samples.last().kib_per_second;
        (before.0 + last.download.bytes, before.1 + last.upload.bytes)
    }
}

/// While the history is not full and the counters do not run backwards, the samples
/// together count every byte that was transferred up to the last one.
pub proof fn lemma_samples_count_every_byte(
    session: SessionView,
    now: u64,
    transferred: PerDirection<u64>,
)
    requires
        session.samples.len() < MAX_SAMPLES,
        sampled_bytes(session.samples) == (
            session.totals.download as int,
            session.totals.upload as int,
        ),
        transferred.download >= session.totals.download,
        transferred.upload >= session.totals.upload,
    ensures
        ({
            let after = session.sampled(now, transferred);
            sampled_bytes(after.samples) == (
                after.totals.download as int,
                after.totals.upload as int,
            )
        }),
{
    if session.sample_due(now) {
        let sample = session.next_sample(now, transferred);
        assert(session.samples.push(sample).drop_last() =~= session.samples);
    }
}

/// The rates shown are those of the sample that was taken last, whatever was sampled
/// before, and there are none before the first.
pub proof fn lemma_latest_follows_the_traffic(
    session: SessionView,
    now: u64,
    transferred: PerDirection<u64>,
)
    ensures
        session.sample_due(now) ==> session.sampled(now, transferred).latest()
            == session.next_sample(now, transferred).kib_per_second,
        !session.sample_due(now) ==> session.sampled(now, transferred).latest()
            == session.latest(),
        session.samples.len() == 0 ==> session.latest().download.bytes == 0
            && session.latest().upload.bytes == 0 && session.latest().download.nanos > 0
            && session.latest().upload.nanos > 0,
{
}

/// A sample is due once half a second has passed since the last one, while the run is on.
/// Taking it late is as good: it then covers all of the time since.
pub proof fn lemma_samples_are_due_every_half_second(session: SessionView, now: u64)
    ensures
        session.sample_due(now) <==> session.running && now >= session.sampled_at && 2 * (now
            - session.sampled_at) >= 1_000_000_000,
{
}

/// A sample tells when it was taken, counted from the start of the run, and for each
/// direction the bytes since the last one and the time that they took.
pub proof fn lemma_sample_measures_what_passed(
    session: SessionView,
    now: u64,
    transferred: PerDirection<u64>,
    direction: crate::proxy::Direction,
)
    requires
        session.started <= session.sampled_at <= now,
        session.totals.at(direction) <= transferred.at(direction),
    ensures
        ({
            let sample = session.next_sample(now, transferred);
            let rate = sample.kib_per_second.at(direction);
            &&& sample.at + session.started == now
            &&& rate.nanos + session.sampled_at == now
            &&& rate.bytes + session.totals.at(direction) == transferred.at(direction)
        }),
{
}

/// Counters that run backwards count as no traffic.
pub proof fn lemma_backward_counters_count_nothing(
    session: SessionView,
    now: u64,
    transferred: PerDirection<u64>,
    direction: crate::proxy::Direction,
)
    requires
        session.totals.at(direction) >= transferred.at(direction),
    ensures
        session.next_sample(now, transferred).kib_per_second.at(direction).bytes == 0,
{
}

/// A sample that is due is added to the end of the history, and the next one counts from
/// it. A look that comes too early changes nothing at all.
pub proof fn lemma_sampling_extends_the_history(
    session: SessionView,
    now: u64,
    transferred: PerDirection<u64>,
)
    ensures
        ({
            let after = session.sampled(now, transferred);
            &&& !session.sample_due(now) ==> after == session
            &&& session.sample_due(now) ==> {
                &&& after.samples.len() > 0
                &&& after.samples.last() == session.next_sample(now, transferred)
                &&& session.samples.len() < 14_400 ==> after.samples.drop_last()
                    == session.samples
                &&& session.samples.len() == 14_400 ==> after.samples.drop_last()
                    == session.samples.drop_first()
                &&& after.totals == transferred
                &&& after.sampled_at == now
            }
            &&& after.limits == session.limits
            &&& after.running == session.running
            &&& after.stopping == session.stopping
            &&& after.started == session.started
        }),
{
    if session.sample_due(now) {
        let after = session.sampled(now, transferred);
        if session.samples.len() < 14_400 {
            assert(after.samples.drop_last() =~= session.samples);
        } else if session.samples.len() == 14_400 {
            assert(after.samples.drop_last() =~= session.samples.drop_first());
        }
    }
}

/// Two looks in a row give what one look at the later time would, as far as totals go: no
/// byte is counted twice or lost between them.
pub proof fn lemma_looks_do_not_double(
    session: SessionView,
    first: u64,
    second: u64,
    early: PerDirection<u64>,
    late: PerDirection<u64>,
)
    requires
        session.sample_due(first),
        session.sampled(first, early).sample_due(second),
        session.totals.download <= early.download <= late.download,
        session.totals.upload <= early.upload <= late.upload,
    ensures
        ({
            let between = session.sampled(first, early);
            let one = session.next_sample(first, early).kib_per_second;
            let two = between.next_sample(second, late).kib_per_second;
            &&& session.totals.download + one.download.bytes + two.download.bytes == late.download
            &&& session.totals.upload + one.upload.bytes + two.upload.bytes == late.upload
            &&& one.download.nanos + two.download.nanos == second - session.sampled_at
            &&& one.upload.nanos + two.upload.nanos == second - session.sampled_at
        }),
{
}

/// A run is offline once its worker has ended, whatever else holds. While it has not, a run
/// that was told to stop is stopping, and only one that was not is listening or starting.
pub proof fn lemma_status_tells_the_state(session: SessionView, listening: bool)
    ensures
        session.status(listening) == Status::Offline <==> !session.running,
        session.status(listening) == Status::Stopping <==> session.running && session.stopping,
        session.status(listening) == Status::Listening <==> session.running && !session.stopping
            && listening,
        session.status(listening) == Status::Starting <==> session.running && !session.stopping
            && !listening,
{
}

/// A run starts at its own time with no traffic, on and not told to stop.
pub proof fn lemma_run_starts_afresh(now: u64, limits: Limits, listening: bool)
    ensures
        ({
            let session = SessionView::starting(now, limits);
            &&& session.started == now
            &&& session.sampled_at == now
            &&& session.limits == limits
            &&& session.samples.len() == 0
            &&& session.totals == (PerDirection { download: 0u64, upload: 0u64 })
            &&& session.running
            &&& !session.stopping
            &&& !session.sample_due(now)
        }),
{
}

/// What a run records about itself names what happened, at the time when it happened, and
/// only a failure is an error.
pub proof fn lemma_runs_report_themselves(now: u64, error: RunError)
    ensures
        starting_event(now).at == now,
        starting_event(now).level == Level::Info,
        starting_event(now).text == "Starting listener and resolving destination..."@,
        lost_event(now).at == now,
        lost_event(now).level == Level::Error,
        lost_event(now).text == "Proxy worker stopped unexpectedly."@,
        failed_event(now, error).at == now,
        failed_event(now, error).level == Level::Error,
        error matches RunError::Runtime(text) ==> failed_event(now, error).text
            == "Runtime error: "@ + text@,
        error matches RunError::Proxy(text) ==> failed_event(now, error).text == "Proxy error: "@
            + text@,
{
}

/// A difference is exact where there is one, and zero where it would be negative.
pub proof fn lemma_minus(a: u64, b: u64)
    ensures
        a >= b ==> minus(a, b) + b == a,
        a <= b ==> minus(a, b) == 0,
{
}

} // verus!
